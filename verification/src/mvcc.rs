//! MVCC record model and executor.
//!
//! Each logical key carries an optional lock record (the intent of an
//! in-progress transaction), an immutable history of write records
//! ordered by commit timestamp (newest first), and a long-value store
//! holding values too large to inline.  The executor runs prewrite,
//! commit, rollback, cleanup and lock resolution against this state;
//! every per-key conflict aborts the whole command before anything is
//! written, so a command's mutations are all-or-nothing.

use vstd::prelude::*;

use crate::latch::bytes_eq;
use crate::latch::contains_bytes;
use crate::latch::distinct_bytes;
use crate::types::Mutation;
use crate::types::TxnError;
use crate::types::WriteKind;

verus! {

/// Values no longer than this are inlined into lock and write
/// records; longer ones go to the long-value store.
pub const SHORT_VALUE_MAX: usize = 64;

/// An in-progress transaction's intent on one key.
pub struct LockRecord {
    /// The transaction's primary key; secondaries reference it.
    pub primary: Vec<u8>,
    /// Start timestamp of the owning transaction.
    pub start_ts: u64,
    /// Time-to-live hint carried for lock resolution.
    pub ttl: u64,
    /// What the commit of this lock will write.
    pub kind: WriteKind,
    /// The value, inlined when short; `None` means the long-value
    /// store holds it under this lock's start timestamp.
    pub short_value: Option<Vec<u8>>,
}

/// A committed (or rolled-back) version of one key.
pub struct WriteEntry {
    /// Timestamp at which this version became visible.
    pub commit_ts: u64,
    /// Start timestamp of the transaction that wrote it.
    pub start_ts: u64,
    pub kind: WriteKind,
    /// Inlined value of a `Put`; `None` for a long value, a `Delete`
    /// or a rollback marker.
    pub short_value: Option<Vec<u8>>,
}

/// One entry of a key's long-value store.
pub struct DefaultEntry {
    pub start_ts: u64,
    pub value: Vec<u8>,
}

/// The full MVCC state of one logical key.
pub struct KeyState {
    pub key: Vec<u8>,
    pub lock: Option<LockRecord>,
    /// Write history, strictly descending by commit timestamp.
    pub writes: Vec<WriteEntry>,
    /// Long values keyed by the writing transaction's start timestamp.
    pub defaults: Vec<DefaultEntry>,
}

/// The MVCC keyspace of one region.
pub struct MvccStore {
    pub entries: Vec<KeyState>,
}

/// Field-wise description of a lock record, usable in contracts.
pub open spec fn lock_matches(
    l: LockRecord,
    primary: Seq<u8>,
    start_ts: u64,
    ttl: u64,
    kind: WriteKind,
    short_value: Option<Seq<u8>>,
) -> bool {
    &&& l.primary@ == primary
    &&& l.start_ts == start_ts
    &&& l.ttl == ttl
    &&& l.kind == kind
    &&& match (l.short_value, short_value) {
        (Some(v), Some(w)) => v@ == w,
        (None, None) => true,
        _ => false,
    }
}

/// Field-wise description of a write entry, usable in contracts.
pub open spec fn entry_matches(
    e: WriteEntry,
    commit_ts: u64,
    start_ts: u64,
    kind: WriteKind,
    short_value: Option<Seq<u8>>,
) -> bool {
    &&& e.commit_ts == commit_ts
    &&& e.start_ts == start_ts
    &&& e.kind == kind
    &&& match (e.short_value, short_value) {
        (Some(v), Some(w)) => v@ == w,
        (None, None) => true,
        _ => false,
    }
}

impl KeyState {
    /// Well-formedness of one key's state.
    pub open spec fn k_wf(self) -> bool {
        // newest first, strictly: the external timestamp oracle never
        // hands out the same timestamp twice
        &&& forall|i: int, j: int|
            0 <= i < j < self.writes.len() ==> self.writes[i].commit_ts > self.writes[j].commit_ts
        &&& forall|i: int|
            0 <= i < self.writes.len() ==> (#[trigger] self.writes[i]).commit_ts
                >= self.writes[i].start_ts
        &&& forall|i: int|
            0 <= i < self.writes.len() && (#[trigger] self.writes[i]).kind == WriteKind::Rollback
                ==> self.writes[i].commit_ts == self.writes[i].start_ts
                && self.writes[i].short_value is None
        &&& forall|i: int|
            0 <= i < self.writes.len() && (#[trigger] self.writes[i]).kind == WriteKind::Put
                && self.writes[i].short_value is None ==> self.has_default(
                self.writes[i].start_ts,
            )
        &&& match self.lock {
            Some(l) => {
                &&& l.kind != WriteKind::Rollback
                &&& (l.kind == WriteKind::Put && l.short_value is None ==> self.has_default(
                    l.start_ts,
                ))
                &&& (l.kind == WriteKind::Delete ==> l.short_value is None)
            },
            None => true,
        }
        &&& forall|i: int, j: int|
            0 <= i < j < self.defaults.len() ==> self.defaults[i].start_ts
                != self.defaults[j].start_ts
    }

    /// The long-value store holds an entry for `ts`.
    pub open spec fn has_default(self, ts: u64) -> bool {
        exists|i: int| 0 <= i < self.defaults.len() && self.defaults[i].start_ts == ts
    }

    /// The long value stored for `ts`.
    pub open spec fn default_value(self, ts: u64) -> Seq<u8> {
        self.defaults[choose|i: int|
            0 <= i < self.defaults.len() && self.defaults[i].start_ts == ts].value@
    }

    /// The value a write entry denotes: inlined, or fetched from the
    /// long-value store.
    pub open spec fn value_of_entry(self, e: WriteEntry) -> Seq<u8> {
        match e.short_value {
            Some(v) => v@,
            None => self.default_value(e.start_ts),
        }
    }
}

/// The newest write entry visible at `ts`, skipping rollback markers:
/// the first entry, newest first, with `commit_ts <= ts` that is a
/// `Put` or a `Delete`.
pub open spec fn seek_visible(ws: Seq<WriteEntry>, ts: u64) -> Option<WriteEntry>
    decreases ws.len(),
{
    if ws.len() == 0 {
        None
    } else if ws[0].commit_ts <= ts && ws[0].kind != WriteKind::Rollback {
        Some(ws[0])
    } else {
        seek_visible(ws.drop_first(), ts)
    }
}

/// The write entry of the transaction that started at `ts`, if any.
pub open spec fn find_by_start_ts(ws: Seq<WriteEntry>, ts: u64) -> Option<WriteEntry>
    decreases ws.len(),
{
    if ws.len() == 0 {
        None
    } else if ws[0].start_ts == ts {
        Some(ws[0])
    } else {
        find_by_start_ts(ws.drop_first(), ts)
    }
}

impl MvccStore {
    /// One state per key: entry keys are pairwise distinct.
    pub open spec fn keys_uniq(self) -> bool {
        forall|i: int, j: int|
            0 <= i < j < self.entries.len() ==> self.entries[i].key@ != self.entries[j].key@
    }

    /// Well-formedness: one state per key, each well formed.
    pub open spec fn wf(self) -> bool {
        &&& self.keys_uniq()
        &&& forall|i: int| 0 <= i < self.entries.len() ==> (#[trigger] self.entries[i]).k_wf()
    }

    /// A state exists for key `k`.
    pub open spec fn has_key(self, k: Seq<u8>) -> bool {
        exists|i: int| 0 <= i < self.entries.len() && self.entries[i].key@ == k
    }

    /// Index of the state of key `k` (meaningful only when `has_key`).
    pub open spec fn idx_of(self, k: Seq<u8>) -> int {
        choose|i: int| 0 <= i < self.entries.len() && self.entries[i].key@ == k
    }

    /// The lock on key `k`, if one is present.
    pub open spec fn lock_of(self, k: Seq<u8>) -> Option<LockRecord> {
        if self.has_key(k) {
            self.entries[self.idx_of(k)].lock
        } else {
            None
        }
    }

    /// The write history of key `k`, newest first; a key with no
    /// history is treated as never-existing.
    pub open spec fn writes_of(self, k: Seq<u8>) -> Seq<WriteEntry> {
        if self.has_key(k) {
            self.entries[self.idx_of(k)].writes@
        } else {
            Seq::empty()
        }
    }

    /// The long-value store of key `k`.
    pub open spec fn defaults_of(self, k: Seq<u8>) -> Seq<DefaultEntry> {
        if self.has_key(k) {
            self.entries[self.idx_of(k)].defaults@
        } else {
            Seq::empty()
        }
    }

    /// Key `k` is untouched between two states.
    pub open spec fn same_key(self, other: MvccStore, k: Seq<u8>) -> bool {
        &&& self.lock_of(k) == other.lock_of(k)
        &&& self.writes_of(k) == other.writes_of(k)
        &&& self.defaults_of(k) == other.defaults_of(k)
    }

    /// The value a read of key `k` at timestamp `ts` observes, once
    /// the lock check has passed: the value of the newest visible
    /// write, `None` after a `Delete` or for a key that was never
    /// written.
    pub open spec fn read_value(self, k: Seq<u8>, ts: u64) -> Option<Seq<u8>> {
        if self.has_key(k) {
            match seek_visible(self.writes_of(k), ts) {
                Some(e) => match e.kind {
                    WriteKind::Put => Some(self.entries[self.idx_of(k)].value_of_entry(e)),
                    _ => None,
                },
                None => None,
            }
        } else {
            None
        }
    }

    /// A read of `k` at `ts` is blocked by an in-progress transaction
    /// that started at or before `ts`.
    pub open spec fn read_blocked(self, k: Seq<u8>, ts: u64) -> bool {
        match self.lock_of(k) {
            Some(l) => l.start_ts <= ts,
            None => false,
        }
    }

    /// An empty keyspace.
    pub fn new() -> (r: MvccStore)
        ensures
            r.wf(),
            r.entries@.len() == 0,
    {
        MvccStore { entries: Vec::new() }
    }

    /// With distinct keys, the entry found for a key is the entry the
    /// specification functions speak of.
    proof fn lemma_idx_unique(self, k: Seq<u8>, s: int)
        requires
            self.keys_uniq(),
            0 <= s < self.entries@.len(),
            self.entries@[s].key@ == k,
        ensures
            self.has_key(k),
            self.idx_of(k) == s,
    {
        assert(self.has_key(k));
        let j = self.idx_of(k);
        if j != s {
            if j < s {
                assert(self.entries@[j].key@ != self.entries@[s].key@);
            } else {
                assert(self.entries@[s].key@ != self.entries@[j].key@);
            }
        }
    }

    /// Finds the index of the state of `key`, if one exists.
    fn find_key(&self, key: &Vec<u8>) -> (r: Option<usize>)
        ensures
            match r {
                Some(i) => i < self.entries@.len() && self.entries@[i as int].key@ == key@,
                None => !self.has_key(key@),
            },
    {
        let n = self.entries.len();
        let mut i: usize = 0;
        while i < n
            invariant
                n == self.entries@.len(),
                i <= n,
                forall|j: int| 0 <= j < i ==> self.entries@[j].key@ != key@,
            decreases n - i,
        {
            if bytes_eq(&self.entries[i].key, key) {
                return Some(i);
            }
            i = i + 1;
        }
        None
    }

    /// Reads key `k` under a snapshot at timestamp `ts`.  An
    /// in-progress lock from a transaction that started at or before
    /// `ts` blocks the read; otherwise the newest visible version
    /// decides, and a key with no such version reads as absent — never
    /// an error.
    pub fn read(&self, key: &Vec<u8>, ts: u64) -> (r: Result<Option<Vec<u8>>, TxnError>)
        requires
            self.wf(),
        ensures
            match r {
                Ok(v) => !self.read_blocked(key@, ts) && (match v {
                    Some(bytes) => self.read_value(key@, ts) == Some(bytes@),
                    None => self.read_value(key@, ts) is None,
                }),
                Err(e) => self.read_blocked(key@, ts) && (match e {
                    TxnError::KeyIsLocked { key: ek, primary, lock_ts, ttl } => {
                        &&& ek@ == key@
                        &&& match self.lock_of(key@) {
                            Some(l) => lock_matches(l, primary@, lock_ts, ttl, l.kind,
                            match l.short_value {
                                Some(v) => Some(v@),
                                None => None,
                            }),
                            None => false,
                        }
                    },
                    _ => false,
                }),
            },
    {
        let found = self.find_key(key);
        let idx = match found {
            Some(i) => i,
            None => {
                return Ok(None);
            },
        };
        proof {
            self.lemma_idx_unique(key@, idx as int);
        }
        let ks = &self.entries[idx];
        match &ks.lock {
            Some(l) => {
                if l.start_ts <= ts {
                    return Err(
                        TxnError::KeyIsLocked {
                            key: key.clone(),
                            primary: l.primary.clone(),
                            lock_ts: l.start_ts,
                            ttl: l.ttl,
                        },
                    );
                }
            }
            None => {}
        }
        let n = ks.writes.len();
        let mut i: usize = 0;
        proof {
            assert(ks.writes@.skip(0) =~= ks.writes@);
        }
        while i < n
            invariant
                self.wf(),
                idx < self.entries@.len(),
                *ks == self.entries@[idx as int],
                self.has_key(key@),
                self.idx_of(key@) == idx as int,
                !self.read_blocked(key@, ts),
                n == ks.writes@.len(),
                i <= n,
                seek_visible(ks.writes@, ts) == seek_visible(ks.writes@.skip(i as int), ts),
            decreases n - i,
        {
            let e = &ks.writes[i];
            proof {
                assert(ks.writes@.skip(i as int)[0] == ks.writes@[i as int]);
                assert(ks.writes@.skip(i as int).drop_first() =~= ks.writes@.skip(i as int + 1));
            }
            let visible = e.commit_ts <= ts && !matches!(e.kind, WriteKind::Rollback);
            if visible {
                match e.kind {
                    WriteKind::Put => {
                        match &e.short_value {
                            Some(v) => {
                                return Ok(Some(v.clone()));
                            }
                            None => {
                                let dv = ks.find_default(e.start_ts);
                                match dv {
                                    Some(v) => {
                                        return Ok(Some(v));
                                    }
                                    None => {
                                        proof {
                                            assert(ks.has_default(e.start_ts));
                                            assert(false);
                                        }
                                        return Ok(None);
                                    }
                                }
                            }
                        }
                    }
                    _ => {
                        return Ok(None);
                    }
                }
            }
            i = i + 1;
        }
        proof {
            assert(ks.writes@.skip(n as int) =~= Seq::<WriteEntry>::empty());
        }
        Ok(None)
    }
}

/// The write kind a mutation commits as.
pub open spec fn mutation_kind(m: Mutation) -> WriteKind {
    match m {
        Mutation::Put { .. } => WriteKind::Put,
        Mutation::Delete { .. } => WriteKind::Delete,
    }
}

/// The value a mutation inlines into its lock record, if short
/// enough.
pub open spec fn mutation_short(m: Mutation) -> Option<Seq<u8>> {
    match m {
        Mutation::Put { value, .. } => if value@.len() <= SHORT_VALUE_MAX {
            Some(value@)
        } else {
            None
        },
        Mutation::Delete { .. } => None,
    }
}

/// The full value a `Put` mutation writes.
pub open spec fn mutation_value(m: Mutation) -> Seq<u8> {
    match m {
        Mutation::Put { value, .. } => value@,
        Mutation::Delete { .. } => Seq::empty(),
    }
}

/// The mutation's value is too long to inline and goes to the
/// long-value store.
pub open spec fn mutation_is_long(m: Mutation) -> bool {
    match m {
        Mutation::Put { value, .. } => value@.len() > SHORT_VALUE_MAX,
        Mutation::Delete { .. } => false,
    }
}

/// The byte strings of the keys a batch of mutations touches.
pub open spec fn keys_of_mutations(muts: Seq<Mutation>) -> Seq<Seq<u8>> {
    muts.map_values(|m: Mutation| m.spec_key())
}

/// Relates the state of one mutation's key before and after a
/// successful prewrite: an existing lock of the same transaction is
/// kept as it is (idempotence); otherwise a lock record for the
/// mutation appears, the write history is untouched, and a long value
/// lands in the long-value store.
pub open spec fn prewrite_applied(
    pre: MvccStore,
    post: MvccStore,
    m: Mutation,
    primary: Seq<u8>,
    start_ts: u64,
    ttl: u64,
) -> bool {
    let k = m.spec_key();
    if pre.lock_of(k) is Some {
        pre.same_key(post, k)
    } else {
        &&& match post.lock_of(k) {
            Some(l) => lock_matches(l, primary, start_ts, ttl, mutation_kind(m), mutation_short(m)),
            None => false,
        }
        &&& post.writes_of(k) == pre.writes_of(k)
        &&& if mutation_is_long(m) {
            exists|d: DefaultEntry|
                {
                    &&& d.start_ts == start_ts
                    &&& d.value@ == mutation_value(m)
                    &&& post.defaults_of(k) == pre.defaults_of(k).push(d)
                }
        } else {
            post.defaults_of(k) == pre.defaults_of(k)
        }
    }
}

/// The full contract of a batch prewrite, relating the state before
/// and after to its result.
pub open spec fn prewrite_outcome(
    pre: MvccStore,
    post: MvccStore,
    muts: Seq<Mutation>,
    primary: Seq<u8>,
    start_ts: u64,
    ttl: u64,
    r: Result<(), TxnError>,
) -> bool {
    &&& (r is Ok <==> (forall|t: int|
        0 <= t < muts.len() ==> !pre.prewrite_conflicts((#[trigger] muts[t]).spec_key(), start_ts)))
    &&& match r {
        Ok(_) => {
            &&& forall|t: int|
                0 <= t < muts.len() ==> prewrite_applied(
                    pre,
                    post,
                    #[trigger] muts[t],
                    primary,
                    start_ts,
                    ttl,
                )
            &&& forall|k: Seq<u8>|
                !contains_bytes(keys_of_mutations(muts), k) ==> pre.same_key(post, k)
        },
        Err(e) => {
            &&& post == pre
            &&& exists|t: int|
                {
                    &&& 0 <= t < muts.len()
                    &&& pre.prewrite_conflicts((#[trigger] muts[t]).spec_key(), start_ts)
                    &&& forall|u: int|
                        0 <= u < t ==> !pre.prewrite_conflicts(
                            (#[trigger] muts[u]).spec_key(),
                            start_ts,
                        )
                    &&& pre.is_prewrite_conflict(muts[t].spec_key(), start_ts, e)
                }
        },
    }
}

impl MvccStore {
    /// A prewrite of key `k` by the transaction starting at `start_ts`
    /// hits a conflict: a committed write at or after `start_ts`, or a
    /// lock held by a different transaction.
    pub open spec fn prewrite_conflicts(self, k: Seq<u8>, start_ts: u64) -> bool {
        ||| (self.writes_of(k).len() > 0 && self.writes_of(k)[0].commit_ts >= start_ts)
        ||| (match self.lock_of(k) {
            Some(l) => l.start_ts != start_ts,
            None => false,
        })
    }

    /// `e` is exactly the error a conflicting prewrite of `k` reports:
    /// a write conflict naming the newest committed timestamp, or the
    /// blocking lock.  A write conflict takes precedence.
    pub open spec fn is_prewrite_conflict(self, k: Seq<u8>, start_ts: u64, e: TxnError) -> bool {
        if self.writes_of(k).len() > 0 && self.writes_of(k)[0].commit_ts >= start_ts {
            match e {
                TxnError::WriteConflict { key, start_ts: s, conflict_commit_ts } => {
                    &&& key@ == k
                    &&& s == start_ts
                    &&& conflict_commit_ts == self.writes_of(k)[0].commit_ts
                },
                _ => false,
            }
        } else {
            match (self.lock_of(k), e) {
                (Some(l), TxnError::KeyIsLocked { key, primary, lock_ts, ttl }) => {
                    &&& key@ == k
                    &&& primary@ == l.primary@
                    &&& lock_ts == l.start_ts
                    &&& ttl == l.ttl
                },
                _ => false,
            }
        }
    }

    /// No entry of `k`'s long-value store was written by a transaction
    /// starting at `ts`.  The external timestamp oracle guarantees
    /// this for a fresh transaction.
    pub open spec fn default_fresh(self, k: Seq<u8>, ts: u64) -> bool {
        forall|i: int|
            0 <= i < self.defaults_of(k).len() ==> (#[trigger] self.defaults_of(k)[i]).start_ts
                != ts
    }

    /// No write record of `k` carries commit timestamp `ts`.  The
    /// external timestamp oracle guarantees this for a fresh commit
    /// timestamp.
    pub open spec fn commit_ts_fresh(self, k: Seq<u8>, ts: u64) -> bool {
        forall|i: int|
            0 <= i < self.writes_of(k).len() ==> (#[trigger] self.writes_of(k)[i]).commit_ts != ts
    }
}

/// Frame rule: when every entry of `pre` persists unchanged at its
/// index in `post` unless its key is `k0`, and entries appended by
/// `post` all carry key `k0`, every key other than `k0` reads the
/// same in both states.
proof fn lemma_same_except(pre: MvccStore, post: MvccStore, k0: Seq<u8>)
    requires
        pre.wf(),
        post.wf(),
        pre.entries@.len() <= post.entries@.len(),
        forall|i: int|
            0 <= i < pre.entries@.len() ==> (#[trigger] post.entries@[i]).key@
                == pre.entries@[i].key@,
        forall|i: int|
            0 <= i < pre.entries@.len() && pre.entries@[i].key@ != k0 ==> post.entries@[i]
                == pre.entries@[i],
        forall|i: int|
            pre.entries@.len() <= i < post.entries@.len() ==> (#[trigger] post.entries@[i]).key@
                == k0,
    ensures
        forall|k: Seq<u8>| k != k0 ==> pre.same_key(post, k),
{
    assert forall|k: Seq<u8>| k != k0 implies pre.same_key(post, k) by {
        if pre.has_key(k) {
            let i = pre.idx_of(k);
            assert(pre.entries@[i].key@ == k);
            assert(post.entries@[i] == pre.entries@[i]);
            pre.lemma_idx_unique(k, i);
            post.lemma_idx_unique(k, i);
        } else {
            if post.has_key(k) {
                let i = post.idx_of(k);
                assert(post.entries@[i].key@ == k);
                if i < pre.entries@.len() {
                    assert(pre.entries@[i].key@ == k);
                    assert(false);
                } else {
                    assert(post.entries@[i].key@ == k0);
                    assert(false);
                }
            }
        }
    }
}

impl MvccStore {
    /// Index of `key`'s state, creating an empty one on first touch.
    fn ensure_key(&mut self, key: &Vec<u8>) -> (idx: usize)
        requires
            old(self).wf(),
        ensures
            final(self).wf(),
            idx < final(self).entries@.len(),
            final(self).entries@[idx as int].key@ == key@,
            final(self).has_key(key@),
            final(self).idx_of(key@) == idx as int,
            old(self).entries@.len() <= final(self).entries@.len(),
            forall|i: int|
                0 <= i < old(self).entries@.len() ==> (#[trigger] final(self).entries@[i])
                    == old(self).entries@[i],
            old(self).has_key(key@) ==> *final(self) == *old(self),
            !old(self).has_key(key@) ==> {
                &&& final(self).entries@.len() == old(self).entries@.len() + 1
                &&& idx as int == old(self).entries@.len()
                &&& final(self).entries@[idx as int].lock is None
                &&& final(self).entries@[idx as int].writes@.len() == 0
                &&& final(self).entries@[idx as int].defaults@.len() == 0
            },
            old(self).lock_of(key@) == final(self).lock_of(key@),
            old(self).writes_of(key@) == final(self).writes_of(key@),
            old(self).defaults_of(key@) == final(self).defaults_of(key@),
    {
        let found = self.find_key(key);
        match found {
            Some(i) => {
                proof {
                    self.lemma_idx_unique(key@, i as int);
                    assert(*self =~= *old(self));
                }
                i
            }
            None => {
                let ks = KeyState {
                    key: key.clone(),
                    lock: None,
                    writes: Vec::new(),
                    defaults: Vec::new(),
                };
                let idx = self.entries.len();
                self.entries.push(ks);
                proof {
                    self.lemma_idx_unique(key@, idx as int);
                    assert(!old(self).has_key(key@));
                    assert(old(self).lock_of(key@) is None);
                    assert(old(self).writes_of(key@) =~= self.writes_of(key@));
                    assert(old(self).defaults_of(key@) =~= self.defaults_of(key@));
                }
                idx
            }
        }
    }

    /// Applies one mutation's lock write, the conflict check having
    /// passed.
    fn prewrite_key(&mut self, m: &Mutation, primary: &Vec<u8>, start_ts: u64, ttl: u64)
        requires
            old(self).wf(),
            !old(self).prewrite_conflicts(m.spec_key(), start_ts),
            mutation_is_long(*m) && old(self).lock_of(m.spec_key()) is None ==> old(
                self,
            ).default_fresh(m.spec_key(), start_ts),
        ensures
            final(self).wf(),
            prewrite_applied(*old(self), *final(self), *m, primary@, start_ts, ttl),
            forall|k: Seq<u8>| k != m.spec_key() ==> old(self).same_key(*final(self), k),
    {
        let ghost pre = *old(self);
        let key = m.key();
        let idx = self.ensure_key(key);
        let ghost mid = *self;
        let has_lock = self.entries[idx].lock.is_some();
        if has_lock {
            proof {
                assert(pre.lock_of(key@) is Some);
                assert(*self =~= pre) by {
                    assert(mid == pre);
                }
                lemma_same_except(pre, *self, m.spec_key());
            }
            return ;
        }
        proof {
            assert(pre.lock_of(key@) is None);
        }
        let (kind, short_value, long_value): (WriteKind, Option<Vec<u8>>, Option<Vec<u8>>) =
            match m {
            Mutation::Put { value, .. } => {
                if value.len() <= SHORT_VALUE_MAX {
                    (WriteKind::Put, Some(value.clone()), None)
                } else {
                    (WriteKind::Put, None, Some(value.clone()))
                }
            }
            Mutation::Delete { .. } => (WriteKind::Delete, None, None),
        };
        let lock = LockRecord {
            primary: primary.clone(),
            start_ts,
            ttl,
            kind,
            short_value,
        };
        let entry = &mut self.entries[idx];
        entry.lock = Some(lock);
        match long_value {
            Some(v) => {
                let d = DefaultEntry { start_ts, value: v };
                entry.defaults.push(d);
            }
            None => {}
        }
        proof {
            assert(self.entries@[idx as int].key@ == key@);
            assert(self.keys_uniq()) by {
                assert forall|i: int, j: int|
                    0 <= i < j < self.entries@.len() implies self.entries@[i].key@
                    != self.entries@[j].key@ by {
                    assert(mid.entries@[i].key@ != mid.entries@[j].key@);
                }
            }
            self.lemma_idx_unique(key@, idx as int);
            // the touched entry stays well formed
            assert(self.entries@[idx as int].k_wf()) by {
                let ks = self.entries@[idx as int];
                let old_ks = mid.entries@[idx as int];
                assert(ks.writes@ == old_ks.writes@);
                if mutation_is_long(*m) {
                    assert(ks.defaults@ == old_ks.defaults@.push(
                        ks.defaults@[ks.defaults@.len() - 1],
                    ));
                    assert(ks.defaults@.last().start_ts == start_ts);
                    assert(forall|i: int|
                        0 <= i < old_ks.defaults@.len() ==> (#[trigger] old_ks.defaults@[i])
                            == pre.defaults_of(key@)[i]);
                    assert(ks.has_default(start_ts));
                    assert forall|i: int, j: int|
                        0 <= i < j < ks.defaults@.len() implies ks.defaults@[i].start_ts
                        != ks.defaults@[j].start_ts by {
                        if j == ks.defaults@.len() - 1 {
                            assert(pre.defaults_of(key@)[i].start_ts != start_ts);
                        }
                    }
                    assert forall|i: int|
                        0 <= i < ks.writes@.len() && (#[trigger] ks.writes@[i]).kind
                            == WriteKind::Put && ks.writes@[i].short_value is None implies ks
                        .has_default(ks.writes@[i].start_ts) by {
                        assert(old_ks.has_default(old_ks.writes@[i].start_ts));
                        let c = choose|c: int|
                            0 <= c < old_ks.defaults@.len() && old_ks.defaults@[c].start_ts
                                == old_ks.writes@[i].start_ts;
                        assert(ks.defaults@[c].start_ts == ks.writes@[i].start_ts);
                    }
                } else {
                    assert(ks.defaults@ == old_ks.defaults@);
                }
            }
            assert(self.wf()) by {
                assert forall|i: int| 0 <= i < self.entries@.len() implies (#[trigger] self
                    .entries@[i]).k_wf() by {
                    if i != idx as int {
                        assert(self.entries@[i] == mid.entries@[i]);
                    }
                }
                assert forall|i: int, j: int|
                    0 <= i < j < self.entries@.len() implies self.entries@[i].key@
                    != self.entries@[j].key@ by {
                    assert(mid.entries@[i].key@ != mid.entries@[j].key@);
                }
            }
            assert(prewrite_applied(pre, *self, *m, primary@, start_ts, ttl)) by {
                assert(self.lock_of(key@) == self.entries@[idx as int].lock);
                assert(self.writes_of(key@) == mid.writes_of(key@));
                if mutation_is_long(*m) {
                    let d = self.entries@[idx as int].defaults@.last();
                    assert(d.start_ts == start_ts);
                    assert(d.value@ == mutation_value(*m));
                    assert(self.defaults_of(key@) == pre.defaults_of(key@).push(d));
                }
            }
            lemma_same_except(pre, *self, m.spec_key());
        }
    }

    /// Prewrites a batch of mutations for the transaction starting at
    /// `start_ts` with primary key `primary`.  The whole batch is
    /// checked against the current lock and write state first; any
    /// conflict — a newer committed write, or a lock of another
    /// transaction, reported for the first conflicting mutation —
    /// aborts the command with nothing written.  Only when every
    /// mutation is clean are the lock records (and long values)
    /// written, one per key; a key already locked by this same
    /// transaction is left as it is.
    pub fn prewrite(
        &mut self,
        mutations: &Vec<Mutation>,
        primary: &Vec<u8>,
        start_ts: u64,
        ttl: u64,
    ) -> (r: Result<(), TxnError>)
        requires
            old(self).wf(),
            distinct_bytes(keys_of_mutations(mutations@)),
            forall|t: int|
                0 <= t < mutations@.len() && mutation_is_long(#[trigger] mutations@[t]) && old(
                    self,
                ).lock_of(mutations@[t].spec_key()) is None ==> old(self).default_fresh(
                    mutations@[t].spec_key(),
                    start_ts,
                ),
        ensures
            final(self).wf(),
            prewrite_outcome(*old(self), *final(self), mutations@, primary@, start_ts, ttl, r),
    {
        let ghost l0 = *old(self);
        let n = mutations.len();
        // conflict check over the untouched state
        let mut t: usize = 0;
        while t < n
            invariant
                *self == l0,
                l0.wf(),
                n == mutations@.len(),
                t <= n,
                forall|u: int|
                    0 <= u < t ==> !l0.prewrite_conflicts(
                        (#[trigger] mutations@[u]).spec_key(),
                        start_ts,
                    ),
            decreases n - t,
        {
            let m = &mutations[t];
            let key = m.key();
            match self.check_prewrite(key, start_ts) {
                Some(e) => {
                    return Err(e);
                }
                None => {}
            }
            t = t + 1;
        }
        // apply
        let mut j: usize = 0;
        while j < n
            invariant
                self.wf(),
                l0.wf(),
                n == mutations@.len(),
                j <= n,
                distinct_bytes(keys_of_mutations(mutations@)),
                forall|u: int|
                    0 <= u < n ==> !l0.prewrite_conflicts(
                        (#[trigger] mutations@[u]).spec_key(),
                        start_ts,
                    ),
                forall|u: int|
                    0 <= u < n && mutation_is_long(#[trigger] mutations@[u]) && l0.lock_of(
                        mutations@[u].spec_key(),
                    ) is None ==> l0.default_fresh(mutations@[u].spec_key(), start_ts),
                forall|u: int|
                    0 <= u < j ==> prewrite_applied(
                        l0,
                        *self,
                        #[trigger] mutations@[u],
                        primary@,
                        start_ts,
                        ttl,
                    ),
                forall|k: Seq<u8>|
                    !contains_bytes(keys_of_mutations(mutations@).take(j as int), k) ==> l0
                        .same_key(*self, k),
            decreases n - j,
        {
            let ghost pre = *self;
            let m = &mutations[j];
            let ghost k = m.spec_key();
            proof {
                assert(keys_of_mutations(mutations@)[j as int] == k);
                assert(!contains_bytes(keys_of_mutations(mutations@).take(j as int), k)) by {
                    if contains_bytes(keys_of_mutations(mutations@).take(j as int), k) {
                        let u = choose|u: int|
                            0 <= u < j && keys_of_mutations(mutations@).take(j as int)[u] == k;
                        assert(keys_of_mutations(mutations@)[u] == keys_of_mutations(
                            mutations@,
                        )[j as int]);
                        assert(false);
                    }
                }
                assert(l0.same_key(pre, k));
                assert(!pre.prewrite_conflicts(k, start_ts));
                assert(mutation_is_long(mutations@[j as int]) && pre.lock_of(k) is None
                    ==> pre.default_fresh(k, start_ts));
            }
            self.prewrite_key(m, primary, start_ts, ttl);
            proof {
                assert(keys_of_mutations(mutations@).take(j as int + 1) =~= keys_of_mutations(
                    mutations@,
                ).take(j as int).push(k));
                // transformations of earlier keys persist, this key's
                // composes through the untouched middle state
                assert forall|u: int| 0 <= u < j + 1 implies prewrite_applied(
                    l0,
                    *self,
                    #[trigger] mutations@[u],
                    primary@,
                    start_ts,
                    ttl,
                ) by {
                    let ku = mutations@[u].spec_key();
                    if u < j {
                        assert(keys_of_mutations(mutations@)[u] == ku);
                        assert(ku != k);
                        assert(pre.same_key(*self, ku));
                        assert(prewrite_applied(l0, pre, mutations@[u], primary@, start_ts, ttl));
                    } else {
                        assert(prewrite_applied(pre, *self, mutations@[u], primary@, start_ts, ttl));
                        assert(l0.same_key(pre, k));
                        if pre.lock_of(k) is Some {
                            assert(l0.lock_of(k) is Some);
                            assert(l0.same_key(*self, k));
                        } else {
                            assert(l0.lock_of(k) is None);
                            assert(pre.writes_of(k) == l0.writes_of(k));
                            assert(pre.defaults_of(k) == l0.defaults_of(k));
                        }
                    }
                }
                assert forall|k2: Seq<u8>|
                    !contains_bytes(
                        keys_of_mutations(mutations@).take(j as int + 1),
                        k2,
                    ) implies l0.same_key(*self, k2) by {
                    assert(!contains_bytes(keys_of_mutations(mutations@).take(j as int), k2)) by {
                        if contains_bytes(keys_of_mutations(mutations@).take(j as int), k2) {
                            let u = choose|u: int|
                                0 <= u < j && keys_of_mutations(mutations@).take(j as int)[u]
                                    == k2;
                            assert(keys_of_mutations(mutations@).take(j as int + 1)[u] == k2);
                        }
                    }
                    assert(k2 != k) by {
                        if k2 == k {
                            assert(keys_of_mutations(mutations@).take(j as int + 1)[j as int]
                                == k);
                        }
                    }
                    assert(l0.same_key(pre, k2));
                    assert(pre.same_key(*self, k2));
                }
            }
            j = j + 1;
        }
        proof {
            assert(keys_of_mutations(mutations@).take(n as int) =~= keys_of_mutations(mutations@));
        }
        Ok(())
    }

    /// Runs the prewrite conflict check for one key, reporting the
    /// error the command would surface.
    fn check_prewrite(&self, key: &Vec<u8>, start_ts: u64) -> (r: Option<TxnError>)
        requires
            self.wf(),
        ensures
            match r {
                Some(e) => self.prewrite_conflicts(key@, start_ts) && self.is_prewrite_conflict(
                    key@,
                    start_ts,
                    e,
                ),
                None => !self.prewrite_conflicts(key@, start_ts),
            },
    {
        let found = self.find_key(key);
        let idx = match found {
            Some(i) => i,
            None => {
                return None;
            },
        };
        proof {
            self.lemma_idx_unique(key@, idx as int);
        }
        let ks = &self.entries[idx];
        if ks.writes.len() > 0 {
            let newest = ks.writes[0].commit_ts;
            if newest >= start_ts {
                return Some(
                    TxnError::WriteConflict {
                        key: key.clone(),
                        start_ts,
                        conflict_commit_ts: newest,
                    },
                );
            }
        }
        match &ks.lock {
            Some(l) => {
                if l.start_ts != start_ts {
                    return Some(
                        TxnError::KeyIsLocked {
                            key: key.clone(),
                            primary: l.primary.clone(),
                            lock_ts: l.start_ts,
                            ttl: l.ttl,
                        },
                    );
                }
                None
            }
            None => None,
        }
    }
}

/// How a commit treats one key, decided by its lock and history.
#[derive(Clone, Copy, PartialEq, Eq, Structural, Debug)]
pub enum CommitCase {
    /// The transaction's lock is still present: replace it with a
    /// write record.
    DoCommit,
    /// The lock is gone but the history shows the transaction already
    /// committed here: idempotent success, nothing to do.
    SkipCommitted,
    /// The history shows a rollback of this transaction — or no trace
    /// of it at all, which is treated the same way: the commit must
    /// fail with a conflict and never succeed.
    RolledBack,
}

/// A write history `ws` (newest first) with `e` inserted at its
/// timestamp position.
pub open spec fn spec_insert_write(ws: Seq<WriteEntry>, e: WriteEntry) -> Seq<WriteEntry>
    decreases ws.len(),
{
    if ws.len() == 0 {
        seq![e]
    } else if e.commit_ts > ws[0].commit_ts {
        seq![e] + ws
    } else {
        seq![ws[0]] + spec_insert_write(ws.drop_first(), e)
    }
}

/// Inserting at the position found by a linear scan realizes
/// `spec_insert_write`.
proof fn lemma_insert_at_pos(ws: Seq<WriteEntry>, e: WriteEntry, p: int)
    requires
        0 <= p <= ws.len(),
        forall|i: int| 0 <= i < ws.len() ==> (#[trigger] ws[i]).commit_ts != e.commit_ts,
        forall|i: int| 0 <= i < p ==> (#[trigger] ws[i]).commit_ts > e.commit_ts,
        p < ws.len() ==> ws[p].commit_ts < e.commit_ts,
    ensures
        spec_insert_write(ws, e) == ws.insert(p, e),
    decreases ws.len(),
{
    if ws.len() == 0 {
        assert(spec_insert_write(ws, e) =~= ws.insert(0, e));
    } else if e.commit_ts > ws[0].commit_ts {
        assert(p == 0);
        assert(seq![e] + ws =~= ws.insert(0, e));
    } else {
        assert(ws[0].commit_ts > e.commit_ts);
        assert(p >= 1);
        let tail = ws.drop_first();
        assert(forall|i: int| 0 <= i < tail.len() ==> tail[i] == ws[i + 1]);
        lemma_insert_at_pos(tail, e, p - 1);
        assert(seq![ws[0]] + tail.insert(p - 1, e) =~= ws.insert(p, e));
    }
}

/// `e` is exactly the error a commit that found the transaction
/// rolled back (or vanished) reports.
pub open spec fn is_commit_conflict(k: Seq<u8>, start_ts: u64, e: TxnError) -> bool {
    match e {
        TxnError::AlreadyRolledBack { key, start_ts: s } => key@ == k && s == start_ts,
        _ => false,
    }
}

/// Relates one key's state before and after a successful commit.
pub open spec fn commit_applied(
    pre: MvccStore,
    post: MvccStore,
    k: Seq<u8>,
    start_ts: u64,
    commit_ts: u64,
) -> bool {
    match pre.commit_case(k, start_ts) {
        CommitCase::DoCommit => {
            let l = pre.lock_of(k)->Some_0;
            &&& post.lock_of(k) is None
            &&& exists|e: WriteEntry|
                {
                    &&& entry_matches(
                        e,
                        commit_ts,
                        start_ts,
                        l.kind,
                        match l.short_value {
                            Some(v) => Some(v@),
                            None => None,
                        },
                    )
                    &&& post.writes_of(k) == spec_insert_write(pre.writes_of(k), e)
                }
            &&& post.defaults_of(k) == pre.defaults_of(k)
        },
        CommitCase::SkipCommitted => pre.same_key(post, k),
        CommitCase::RolledBack => false,
    }
}

impl MvccStore {
    /// How a commit of the transaction starting at `start_ts` treats
    /// key `k`.
    pub open spec fn commit_case(self, k: Seq<u8>, start_ts: u64) -> CommitCase {
        match self.lock_of(k) {
            Some(l) => if l.start_ts == start_ts {
                CommitCase::DoCommit
            } else {
                self.commit_case_unlocked(k, start_ts)
            },
            None => self.commit_case_unlocked(k, start_ts),
        }
    }

    /// The commit disposition when no lock of the transaction is
    /// present: scan the write history for what became of it.
    pub open spec fn commit_case_unlocked(self, k: Seq<u8>, start_ts: u64) -> CommitCase {
        match find_by_start_ts(self.writes_of(k), start_ts) {
            Some(w) => if w.kind == WriteKind::Rollback {
                CommitCase::RolledBack
            } else {
                CommitCase::SkipCommitted
            },
            None => CommitCase::RolledBack,
        }
    }

    /// Scans the write history of `key` for the record left by the
    /// transaction starting at `start_ts`.
    fn scan_start_ts(&self, idx: usize, start_ts: u64) -> (r: Option<(WriteKind, u64)>)
        requires
            self.wf(),
            idx < self.entries@.len(),
        ensures
            match r {
                Some((kind, cts)) => {
                    &&& find_by_start_ts(self.entries@[idx as int].writes@, start_ts) is Some
                    &&& find_by_start_ts(self.entries@[idx as int].writes@, start_ts)->Some_0.kind
                        == kind
                    &&& find_by_start_ts(
                        self.entries@[idx as int].writes@,
                        start_ts,
                    )->Some_0.commit_ts == cts
                },
                None => find_by_start_ts(self.entries@[idx as int].writes@, start_ts) is None,
            },
    {
        let ks = &self.entries[idx];
        let n = ks.writes.len();
        let mut i: usize = 0;
        proof {
            assert(ks.writes@.skip(0) =~= ks.writes@);
        }
        while i < n
            invariant
                idx < self.entries@.len(),
                *ks == self.entries@[idx as int],
                n == ks.writes@.len(),
                i <= n,
                find_by_start_ts(ks.writes@, start_ts) == find_by_start_ts(
                    ks.writes@.skip(i as int),
                    start_ts,
                ),
            decreases n - i,
        {
            proof {
                assert(ks.writes@.skip(i as int)[0] == ks.writes@[i as int]);
                assert(ks.writes@.skip(i as int).drop_first() =~= ks.writes@.skip(i as int + 1));
            }
            if ks.writes[i].start_ts == start_ts {
                return Some((ks.writes[i].kind, ks.writes[i].commit_ts));
            }
            i = i + 1;
        }
        proof {
            assert(ks.writes@.skip(n as int) =~= Seq::<WriteEntry>::empty());
        }
        None
    }

    /// Decides how a commit treats one key, without touching anything.
    fn check_commit(&self, key: &Vec<u8>, start_ts: u64) -> (c: CommitCase)
        requires
            self.wf(),
        ensures
            c == self.commit_case(key@, start_ts),
    {
        let found = self.find_key(key);
        let idx = match found {
            Some(i) => i,
            None => {
                return CommitCase::RolledBack;
            },
        };
        proof {
            self.lemma_idx_unique(key@, idx as int);
        }
        let locked_by_us = match &self.entries[idx].lock {
            Some(l) => l.start_ts == start_ts,
            None => false,
        };
        if locked_by_us {
            return CommitCase::DoCommit;
        }
        match self.scan_start_ts(idx, start_ts) {
            Some((kind, _)) => {
                if matches!(kind, WriteKind::Rollback) {
                    CommitCase::RolledBack
                } else {
                    CommitCase::SkipCommitted
                }
            }
            None => CommitCase::RolledBack,
        }
    }

    /// Replaces the still-present lock of one key with a write record
    /// at `commit_ts`.
    fn commit_key(&mut self, key: &Vec<u8>, start_ts: u64, commit_ts: u64)
        requires
            old(self).wf(),
            commit_ts > start_ts,
            old(self).commit_case(key@, start_ts) == CommitCase::DoCommit,
            old(self).commit_ts_fresh(key@, commit_ts),
        ensures
            final(self).wf(),
            commit_applied(*old(self), *final(self), key@, start_ts, commit_ts),
            forall|k: Seq<u8>| k != key@ ==> old(self).same_key(*final(self), k),
    {
        let ghost pre = *old(self);
        let found = self.find_key(key);
        let idx = match found {
            Some(i) => i,
            None => {
                proof {
                    assert(pre.lock_of(key@) is None);
                    assert(false);
                }
                return ;
            },
        };
        proof {
            self.lemma_idx_unique(key@, idx as int);
        }
        let entry = &mut self.entries[idx];
        let (kind, short_value): (WriteKind, Option<Vec<u8>>) = match &entry.lock {
            Some(l) => (
                l.kind,
                match &l.short_value {
                    Some(v) => Some(v.clone()),
                    None => None,
                },
            ),
            None => (WriteKind::Put, None),
        };
        entry.lock = None;
        let e = WriteEntry { commit_ts, start_ts, kind, short_value };
        let n = entry.writes.len();
        let mut p: usize = 0;
        while p < n && entry.writes[p].commit_ts > commit_ts
            invariant
                n == entry.writes@.len(),
                p <= n,
                forall|i: int| 0 <= i < p ==> (#[trigger] entry.writes@[i]).commit_ts > commit_ts,
            decreases n - p,
        {
            p = p + 1;
        }
        proof {
            let ws = entry.writes@;
            assert(pre.writes_of(key@) == ws);
            assert forall|i: int| 0 <= i < ws.len() implies (#[trigger] ws[i]).commit_ts
                != commit_ts by {
                assert(pre.writes_of(key@)[i].commit_ts != commit_ts);
            }
            if (p as int) < ws.len() {
                assert(ws[p as int].commit_ts <= commit_ts);
                assert(ws[p as int].commit_ts < commit_ts);
            }
            lemma_insert_at_pos(ws, e, p as int);
        }
        entry.writes.insert(p, e);
        proof {
            let l = pre.lock_of(key@)->Some_0;
            let old_ks = pre.entries@[idx as int];
            let ks = self.entries@[idx as int];
            assert(ks.writes@ == old_ks.writes@.insert(p as int, e));
            assert(ks.key@ == key@);
            assert(self.keys_uniq()) by {
                assert forall|i: int, j: int|
                    0 <= i < j < self.entries@.len() implies self.entries@[i].key@
                    != self.entries@[j].key@ by {
                    assert(pre.entries@[i].key@ != pre.entries@[j].key@);
                }
            }
            self.lemma_idx_unique(key@, idx as int);
            // the rewritten history is still sorted and well formed
            assert(ks.k_wf()) by {
                assert(old_ks.k_wf());
                assert forall|i: int, j: int|
                    0 <= i < j < ks.writes@.len() implies ks.writes@[i].commit_ts
                    > ks.writes@[j].commit_ts by {
                    let pi = p as int;
                    if i < pi && j < pi {
                        assert(ks.writes@[i] == old_ks.writes@[i]);
                        assert(ks.writes@[j] == old_ks.writes@[j]);
                    } else if i < pi && j == pi {
                        assert(ks.writes@[i] == old_ks.writes@[i]);
                        assert(old_ks.writes@[i].commit_ts > commit_ts);
                    } else if i < pi && j > pi {
                        assert(ks.writes@[i] == old_ks.writes@[i]);
                        assert(ks.writes@[j] == old_ks.writes@[j - 1]);
                    } else if i == pi {
                        assert(ks.writes@[j] == old_ks.writes@[j - 1]);
                        assert(old_ks.writes@[j - 1].commit_ts < commit_ts) by {
                            if j - 1 > pi - 1 && pi < old_ks.writes@.len() {
                                assert(old_ks.writes@[pi].commit_ts < commit_ts);
                                if j - 1 > pi {
                                    assert(old_ks.writes@[pi].commit_ts > old_ks.writes@[j
                                        - 1].commit_ts);
                                }
                            }
                        }
                    } else {
                        assert(ks.writes@[i] == old_ks.writes@[i - 1]);
                        assert(ks.writes@[j] == old_ks.writes@[j - 1]);
                    }
                }
                assert forall|i: int|
                    0 <= i < ks.writes@.len() && (#[trigger] ks.writes@[i]).kind
                        == WriteKind::Put && ks.writes@[i].short_value is None implies ks
                    .has_default(ks.writes@[i].start_ts) by {
                    let pi = p as int;
                    if i == pi {
                        assert(ks.writes@[i] == e);
                        if e.kind == WriteKind::Put && e.short_value is None {
                            assert(old_ks.has_default(start_ts));
                            let c = choose|c: int|
                                0 <= c < old_ks.defaults@.len() && old_ks.defaults@[c].start_ts
                                    == start_ts;
                            assert(ks.defaults@[c].start_ts == start_ts);
                        }
                    } else {
                        let oi = if i < pi {
                            i
                        } else {
                            i - 1
                        };
                        assert(ks.writes@[i] == old_ks.writes@[oi]);
                        assert(old_ks.has_default(old_ks.writes@[oi].start_ts));
                        let c = choose|c: int|
                            0 <= c < old_ks.defaults@.len() && old_ks.defaults@[c].start_ts
                                == old_ks.writes@[oi].start_ts;
                        assert(ks.defaults@[c].start_ts == ks.writes@[i].start_ts);
                    }
                }
            }
            assert(self.wf()) by {
                assert forall|i: int| 0 <= i < self.entries@.len() implies (#[trigger] self
                    .entries@[i]).k_wf() by {
                    if i != idx as int {
                        assert(self.entries@[i] == pre.entries@[i]);
                    }
                }
            }
            assert(commit_applied(pre, *self, key@, start_ts, commit_ts)) by {
                assert(self.lock_of(key@) is None);
                assert(entry_matches(
                    e,
                    commit_ts,
                    start_ts,
                    l.kind,
                    match l.short_value {
                        Some(v) => Some(v@),
                        None => None,
                    },
                ));
                assert(self.writes_of(key@) == spec_insert_write(pre.writes_of(key@), e));
                assert(self.defaults_of(key@) == pre.defaults_of(key@));
            }
            lemma_same_except(pre, *self, key@);
        }
    }

    /// Runs the commit check over every key of the batch, against the
    /// untouched state: reports the error of the first key the
    /// transaction can no longer commit on, if any.
    #[verifier::rlimit(30)]
    fn check_commit_all(&self, keys: &Vec<Vec<u8>>, start_ts: u64) -> (r: Option<TxnError>)
        requires
            self.wf(),
        ensures
            match r {
                None => forall|t: int|
                    0 <= t < keys.deep_view().len() ==> self.commit_case(
                        #[trigger] keys.deep_view()[t],
                        start_ts,
                    ) != CommitCase::RolledBack,
                Some(e) => exists|t: int|
                    {
                        &&& 0 <= t < keys.deep_view().len()
                        &&& self.commit_case(#[trigger] keys.deep_view()[t], start_ts)
                            == CommitCase::RolledBack
                        &&& forall|u: int|
                            0 <= u < t ==> self.commit_case(
                                #[trigger] keys.deep_view()[u],
                                start_ts,
                            ) != CommitCase::RolledBack
                        &&& is_commit_conflict(keys.deep_view()[t], start_ts, e)
                    },
            },
    {
        let ghost dv = keys.deep_view();
        let n = keys.len();
        let mut t: usize = 0;
        while t < n
            invariant
                self.wf(),
                dv == keys.deep_view(),
                n == keys@.len(),
                dv.len() == n,
                t <= n,
                forall|u: int|
                    0 <= u < t ==> self.commit_case(#[trigger] dv[u], start_ts)
                        != CommitCase::RolledBack,
            decreases n - t,
        {
            proof {
                assert(dv[t as int] == keys@[t as int]@);
            }
            let c = self.check_commit(&keys[t], start_ts);
            if matches!(c, CommitCase::RolledBack) {
                let e = TxnError::AlreadyRolledBack { key: keys[t].clone(), start_ts };
                proof {
                    let tt = t as int;
                    assert(self.commit_case(dv[tt], start_ts) == CommitCase::RolledBack);
                    assert(forall|u: int|
                        0 <= u < tt ==> self.commit_case(#[trigger] dv[u], start_ts)
                            != CommitCase::RolledBack);
                    assert(is_commit_conflict(dv[tt], start_ts, e));
                }
                return Some(e);
            }
            t = t + 1;
        }
        None
    }

    /// Replaces the transaction's still-held locks of the batch with
    /// write records at `commit_ts`, the check having passed on every
    /// key; keys the transaction already committed stay as they are.
    #[verifier::rlimit(30)]
    fn apply_commit_all(&mut self, keys: &Vec<Vec<u8>>, start_ts: u64, commit_ts: u64)
        requires
            old(self).wf(),
            commit_ts > start_ts,
            distinct_bytes(keys.deep_view()),
            forall|t: int|
                0 <= t < keys.deep_view().len() ==> old(self).commit_case(
                    #[trigger] keys.deep_view()[t],
                    start_ts,
                ) != CommitCase::RolledBack,
            forall|t: int|
                0 <= t < keys.deep_view().len() && old(self).commit_case(
                    #[trigger] keys.deep_view()[t],
                    start_ts,
                ) == CommitCase::DoCommit ==> old(self).commit_ts_fresh(
                    keys.deep_view()[t],
                    commit_ts,
                ),
        ensures
            final(self).wf(),
            forall|t: int|
                0 <= t < keys.deep_view().len() ==> commit_applied(
                    *old(self),
                    *final(self),
                    #[trigger] keys.deep_view()[t],
                    start_ts,
                    commit_ts,
                ),
            forall|k: Seq<u8>|
                !contains_bytes(keys.deep_view(), k) ==> old(self).same_key(*final(self), k),
    {
        let ghost l0 = *old(self);
        let ghost dv = keys.deep_view();
        let n = keys.len();
        let mut j: usize = 0;
        while j < n
            invariant
                self.wf(),
                l0.wf(),
                dv == keys.deep_view(),
                n == keys@.len(),
                dv.len() == n,
                j <= n,
                commit_ts > start_ts,
                distinct_bytes(dv),
                forall|u: int|
                    0 <= u < n ==> l0.commit_case(#[trigger] dv[u], start_ts)
                        != CommitCase::RolledBack,
                forall|u: int|
                    0 <= u < n && l0.commit_case(#[trigger] dv[u], start_ts)
                        == CommitCase::DoCommit ==> l0.commit_ts_fresh(dv[u], commit_ts),
                forall|u: int|
                    0 <= u < j ==> commit_applied(l0, *self, #[trigger] dv[u], start_ts, commit_ts),
                forall|k: Seq<u8>|
                    !contains_bytes(dv.take(j as int), k) ==> l0.same_key(*self, k),
            decreases n - j,
        {
            let ghost pre = *self;
            let ghost k = dv[j as int];
            proof {
                assert(k == keys@[j as int]@);
                assert(!contains_bytes(dv.take(j as int), k)) by {
                    if contains_bytes(dv.take(j as int), k) {
                        let u = choose|u: int| 0 <= u < j && dv.take(j as int)[u] == k;
                        assert(dv[u] == dv[j as int]);
                        assert(false);
                    }
                }
                assert(l0.same_key(pre, k));
                assert(pre.commit_case(k, start_ts) == l0.commit_case(k, start_ts));
            }
            let c = self.check_commit(&keys[j], start_ts);
            if matches!(c, CommitCase::DoCommit) {
                proof {
                    assert(l0.commit_ts_fresh(k, commit_ts));
                    assert(pre.commit_ts_fresh(k, commit_ts)) by {
                        assert forall|i: int|
                            0 <= i < pre.writes_of(k).len() implies (#[trigger] pre.writes_of(
                            k,
                        )[i]).commit_ts != commit_ts by {
                            assert(pre.writes_of(k) == l0.writes_of(k));
                            assert(l0.writes_of(k)[i].commit_ts != commit_ts);
                        }
                    }
                }
                self.commit_key(&keys[j], start_ts, commit_ts);
            }
            proof {
                assert(dv.take(j as int + 1) =~= dv.take(j as int).push(k));
                assert forall|u: int| 0 <= u < j + 1 implies commit_applied(
                    l0,
                    *self,
                    #[trigger] dv[u],
                    start_ts,
                    commit_ts,
                ) by {
                    let ku = dv[u];
                    if u < j {
                        assert(ku != k);
                        assert(pre.same_key(*self, ku) || c != CommitCase::DoCommit);
                        if !matches!(c, CommitCase::DoCommit) {
                            assert(*self == pre);
                        }
                        assert(commit_applied(l0, pre, ku, start_ts, commit_ts));
                        assert(pre.same_key(*self, ku));
                    } else {
                        if matches!(c, CommitCase::DoCommit) {
                            assert(commit_applied(pre, *self, k, start_ts, commit_ts));
                            assert(l0.lock_of(k) == pre.lock_of(k));
                            assert(l0.writes_of(k) == pre.writes_of(k));
                            assert(l0.defaults_of(k) == pre.defaults_of(k));
                        } else {
                            assert(*self == pre);
                            assert(l0.commit_case(k, start_ts) == CommitCase::SkipCommitted);
                            assert(l0.same_key(*self, k));
                        }
                    }
                }
                assert forall|k2: Seq<u8>|
                    !contains_bytes(dv.take(j as int + 1), k2) implies l0.same_key(
                    *self,
                    k2,
                ) by {
                    assert(!contains_bytes(dv.take(j as int), k2)) by {
                        if contains_bytes(dv.take(j as int), k2) {
                            let u = choose|u: int| 0 <= u < j && dv.take(j as int)[u] == k2;
                            assert(dv.take(j as int + 1)[u] == k2);
                        }
                    }
                    assert(k2 != k) by {
                        if k2 == k {
                            assert(dv.take(j as int + 1)[j as int] == k);
                        }
                    }
                    assert(l0.same_key(pre, k2));
                    if matches!(c, CommitCase::DoCommit) {
                        assert(pre.same_key(*self, k2));
                    } else {
                        assert(*self == pre);
                    }
                }
            }
            j = j + 1;
        }
        proof {
            assert(dv.take(n as int) =~= dv);
        }
    }

    /// Commits the transaction starting at `start_ts` on a batch of
    /// keys, making its writes visible at `commit_ts`.  Every key is
    /// checked first: a key whose lock is gone and whose history shows
    /// a rollback of this transaction — or no trace of it — fails the
    /// whole command with a conflict, reported for the first such key,
    /// and nothing changes.  Otherwise each still-held lock is
    /// replaced by a write record at `commit_ts`, and keys the
    /// transaction already committed are left untouched: re-submitting
    /// a commit is idempotent success, never a conflict.
    pub fn commit(&mut self, keys: &Vec<Vec<u8>>, start_ts: u64, commit_ts: u64) -> (r: Result<
        (),
        TxnError,
    >)
        requires
            old(self).wf(),
            commit_ts > start_ts,
            distinct_bytes(keys.deep_view()),
            forall|t: int|
                0 <= t < keys.deep_view().len() && old(self).commit_case(
                    #[trigger] keys.deep_view()[t],
                    start_ts,
                ) == CommitCase::DoCommit ==> old(self).commit_ts_fresh(
                    keys.deep_view()[t],
                    commit_ts,
                ),
        ensures
            final(self).wf(),
            commit_outcome(
                *old(self),
                *final(self),
                keys.deep_view(),
                start_ts,
                commit_ts,
                r,
            ),
    {
        let ghost l0 = *old(self);
        let ghost dv = keys.deep_view();
        let checked = self.check_commit_all(keys, start_ts);
        match checked {
            Some(e) => {
                proof {
                    let t = choose|t: int|
                        {
                            &&& 0 <= t < dv.len()
                            &&& l0.commit_case(#[trigger] dv[t], start_ts)
                                == CommitCase::RolledBack
                            &&& forall|u: int|
                                0 <= u < t ==> l0.commit_case(#[trigger] dv[u], start_ts)
                                    != CommitCase::RolledBack
                            &&& is_commit_conflict(dv[t], start_ts, e)
                        };
                    assert(l0.commit_case(dv[t], start_ts) == CommitCase::RolledBack);
                }
                Err(e)
            }
            None => {
                self.apply_commit_all(keys, start_ts, commit_ts);
                Ok(())
            }
        }
    }
}

/// The full contract of a batch commit, relating the state before
/// and after to its result.
pub open spec fn commit_outcome(
    pre: MvccStore,
    post: MvccStore,
    ks: Seq<Seq<u8>>,
    start_ts: u64,
    commit_ts: u64,
    r: Result<(), TxnError>,
) -> bool {
    &&& (r is Ok <==> (forall|t: int|
        0 <= t < ks.len() ==> pre.commit_case(#[trigger] ks[t], start_ts)
            != CommitCase::RolledBack))
    &&& match r {
        Ok(_) => {
            &&& forall|t: int|
                0 <= t < ks.len() ==> commit_applied(pre, post, #[trigger] ks[t], start_ts, commit_ts)
            &&& forall|k: Seq<u8>| !contains_bytes(ks, k) ==> pre.same_key(post, k)
        },
        Err(e) => {
            &&& post == pre
            &&& exists|t: int|
                {
                    &&& 0 <= t < ks.len()
                    &&& pre.commit_case(#[trigger] ks[t], start_ts) == CommitCase::RolledBack
                    &&& forall|u: int|
                        0 <= u < t ==> pre.commit_case(#[trigger] ks[u], start_ts)
                            != CommitCase::RolledBack
                    &&& is_commit_conflict(ks[t], start_ts, e)
                }
        },
    }
}

/// The lock is held by the transaction starting at `ts`.
pub open spec fn locked_at(l: Option<LockRecord>, ts: u64) -> bool {
    match l {
        Some(l) => l.start_ts == ts,
        None => false,
    }
}

/// Every collected key comes from one of the first `i` entries, whose
/// lock the transaction holds.
spec fn sourced_from(s: MvccStore, r: Seq<Seq<u8>>, i: int, start_ts: u64) -> bool {
    forall|t: int|
        0 <= t < r.len() ==> exists|si: int|
            #![auto]
            0 <= si < i && s.entries@[si].key@ == #[trigger] r[t] && locked_at(
                s.entries@[si].lock,
                start_ts,
            )
}

/// Every key among the first `i` entries whose lock the transaction
/// holds was collected.
spec fn covers_locked(s: MvccStore, r: Seq<Seq<u8>>, i: int, start_ts: u64) -> bool {
    forall|si: int|
        0 <= si < i && locked_at(#[trigger] s.entries@[si].lock, start_ts) ==> contains_bytes(
            r,
            s.entries@[si].key@,
        )
}

/// How a rollback (or cleanup) treats one key.
#[derive(Clone, Copy, PartialEq, Eq, Structural, Debug)]
pub enum RollbackCase {
    /// The transaction's lock is still present: remove it and leave a
    /// rollback marker.
    Unlock,
    /// No lock of the transaction, no trace in the history: leave a
    /// rollback marker so a late prewrite at this timestamp cannot
    /// resurrect the intent.  A lock of a different transaction is
    /// left alone.
    Mark,
    /// The history already shows a rollback of this transaction:
    /// idempotent success, nothing to do.
    Skip,
    /// The transaction committed here: rolling it back must fail and
    /// never succeed.
    Committed,
}

/// The rollback marker written for a transaction starting at `ts`.
pub open spec fn rollback_marker(ts: u64) -> WriteEntry {
    WriteEntry { commit_ts: ts, start_ts: ts, kind: WriteKind::Rollback, short_value: None }
}

/// `e` is exactly the error a rollback that found the transaction
/// committed reports.
pub open spec fn is_rollback_conflict(pre: MvccStore, k: Seq<u8>, start_ts: u64, e: TxnError) -> bool {
    match e {
        TxnError::AlreadyCommitted { key, start_ts: s, commit_ts } => {
            &&& key@ == k
            &&& s == start_ts
            &&& find_by_start_ts(pre.writes_of(k), start_ts) is Some
            &&& commit_ts == find_by_start_ts(pre.writes_of(k), start_ts)->Some_0.commit_ts
        },
        _ => false,
    }
}

/// Relates one key's state before and after a successful rollback.
pub open spec fn rollback_applied(pre: MvccStore, post: MvccStore, k: Seq<u8>, start_ts: u64) -> bool {
    match pre.rollback_case(k, start_ts) {
        RollbackCase::Unlock => {
            &&& post.lock_of(k) is None
            &&& post.writes_of(k) == spec_insert_write(pre.writes_of(k), rollback_marker(start_ts))
            &&& post.defaults_of(k) == pre.defaults_of(k)
        },
        RollbackCase::Mark => {
            &&& post.lock_of(k) == pre.lock_of(k)
            &&& post.writes_of(k) == spec_insert_write(pre.writes_of(k), rollback_marker(start_ts))
            &&& post.defaults_of(k) == pre.defaults_of(k)
        },
        RollbackCase::Skip => pre.same_key(post, k),
        RollbackCase::Committed => false,
    }
}

/// The full contract of a batch rollback, relating the state before
/// and after to its result.
pub open spec fn rollback_outcome(
    pre: MvccStore,
    post: MvccStore,
    ks: Seq<Seq<u8>>,
    start_ts: u64,
    r: Result<(), TxnError>,
) -> bool {
    &&& (r is Ok <==> (forall|t: int|
        0 <= t < ks.len() ==> pre.rollback_case(#[trigger] ks[t], start_ts)
            != RollbackCase::Committed))
    &&& match r {
        Ok(_) => {
            &&& forall|t: int|
                0 <= t < ks.len() ==> rollback_applied(pre, post, #[trigger] ks[t], start_ts)
            &&& forall|k: Seq<u8>| !contains_bytes(ks, k) ==> pre.same_key(post, k)
        },
        Err(e) => {
            &&& post == pre
            &&& exists|t: int|
                {
                    &&& 0 <= t < ks.len()
                    &&& pre.rollback_case(#[trigger] ks[t], start_ts) == RollbackCase::Committed
                    &&& forall|u: int|
                        0 <= u < t ==> pre.rollback_case(#[trigger] ks[u], start_ts)
                            != RollbackCase::Committed
                    &&& is_rollback_conflict(pre, ks[t], start_ts, e)
                }
        },
    }
}

/// The full contract of resolving one transaction's locks across the
/// keyspace.
pub open spec fn resolve_outcome(
    pre: MvccStore,
    post: MvccStore,
    start_ts: u64,
    commit_ts: Option<u64>,
) -> bool {
    &&& forall|k: Seq<u8>|
        locked_at(#[trigger] pre.lock_of(k), start_ts) ==> (match commit_ts {
            Some(c) => commit_applied(pre, post, k, start_ts, c),
            None => rollback_applied(pre, post, k, start_ts),
        })
    &&& forall|k: Seq<u8>| !locked_at(#[trigger] pre.lock_of(k), start_ts) ==> pre.same_key(post, k)
}

impl MvccStore {
    /// How a rollback of the transaction starting at `start_ts`
    /// treats key `k`.
    pub open spec fn rollback_case(self, k: Seq<u8>, start_ts: u64) -> RollbackCase {
        match self.lock_of(k) {
            Some(l) => if l.start_ts == start_ts {
                RollbackCase::Unlock
            } else {
                self.rollback_case_unlocked(k, start_ts)
            },
            None => self.rollback_case_unlocked(k, start_ts),
        }
    }

    /// The rollback disposition when no lock of the transaction is
    /// present.
    pub open spec fn rollback_case_unlocked(self, k: Seq<u8>, start_ts: u64) -> RollbackCase {
        match find_by_start_ts(self.writes_of(k), start_ts) {
            Some(w) => if w.kind == WriteKind::Rollback {
                RollbackCase::Skip
            } else {
                RollbackCase::Committed
            },
            None => RollbackCase::Mark,
        }
    }

    /// Decides how a rollback treats one key, without touching
    /// anything.
    fn check_rollback(&self, key: &Vec<u8>, start_ts: u64) -> (c: RollbackCase)
        requires
            self.wf(),
        ensures
            c == self.rollback_case(key@, start_ts),
    {
        let found = self.find_key(key);
        let idx = match found {
            Some(i) => i,
            None => {
                return RollbackCase::Mark;
            },
        };
        proof {
            self.lemma_idx_unique(key@, idx as int);
        }
        let locked_by_us = match &self.entries[idx].lock {
            Some(l) => l.start_ts == start_ts,
            None => false,
        };
        if locked_by_us {
            return RollbackCase::Unlock;
        }
        match self.scan_start_ts(idx, start_ts) {
            Some((kind, _)) => {
                if matches!(kind, WriteKind::Rollback) {
                    RollbackCase::Skip
                } else {
                    RollbackCase::Committed
                }
            }
            None => RollbackCase::Mark,
        }
    }

    /// The commit timestamp the transaction starting at `start_ts`
    /// left on `key`; call only where the history holds its record.
    fn committed_ts_of(&self, key: &Vec<u8>, start_ts: u64) -> (cts: u64)
        requires
            self.wf(),
            find_by_start_ts(self.writes_of(key@), start_ts) is Some,
        ensures
            cts == find_by_start_ts(self.writes_of(key@), start_ts)->Some_0.commit_ts,
    {
        let found = self.find_key(key);
        let idx = match found {
            Some(i) => i,
            None => {
                proof {
                    assert(self.writes_of(key@) =~= Seq::<WriteEntry>::empty());
                    assert(false);
                }
                return 0;
            },
        };
        proof {
            self.lemma_idx_unique(key@, idx as int);
        }
        match self.scan_start_ts(idx, start_ts) {
            Some((_, cts)) => cts,
            None => {
                proof {
                    assert(false);
                }
                0
            },
        }
    }

    /// Removes the transaction's lock (where it is still present) and
    /// leaves a rollback marker on one key.
    fn rollback_key(&mut self, key: &Vec<u8>, start_ts: u64)
        requires
            old(self).wf(),
            old(self).rollback_case(key@, start_ts) == RollbackCase::Unlock || old(
                self,
            ).rollback_case(key@, start_ts) == RollbackCase::Mark,
            old(self).commit_ts_fresh(key@, start_ts),
        ensures
            final(self).wf(),
            rollback_applied(*old(self), *final(self), key@, start_ts),
            forall|k: Seq<u8>| k != key@ ==> old(self).same_key(*final(self), k),
    {
        let ghost pre = *old(self);
        let idx = self.ensure_key(key);
        let ghost mid = *self;
        let locked_by_us = match &self.entries[idx].lock {
            Some(l) => l.start_ts == start_ts,
            None => false,
        };
        let entry = &mut self.entries[idx];
        if locked_by_us {
            entry.lock = None;
        }
        let e = WriteEntry {
            commit_ts: start_ts,
            start_ts,
            kind: WriteKind::Rollback,
            short_value: None,
        };
        let n = entry.writes.len();
        let mut p: usize = 0;
        while p < n && entry.writes[p].commit_ts > start_ts
            invariant
                n == entry.writes@.len(),
                p <= n,
                forall|i: int| 0 <= i < p ==> (#[trigger] entry.writes@[i]).commit_ts > start_ts,
            decreases n - p,
        {
            p = p + 1;
        }
        proof {
            let ws = entry.writes@;
            assert(pre.writes_of(key@) == ws);
            assert forall|i: int| 0 <= i < ws.len() implies (#[trigger] ws[i]).commit_ts
                != start_ts by {
                assert(pre.writes_of(key@)[i].commit_ts != start_ts);
            }
            if (p as int) < ws.len() {
                assert(ws[p as int].commit_ts <= start_ts);
                assert(ws[p as int].commit_ts < start_ts);
            }
            lemma_insert_at_pos(ws, e, p as int);
        }
        entry.writes.insert(p, e);
        proof {
            let old_ks = mid.entries@[idx as int];
            let ks = self.entries@[idx as int];
            assert(ks.writes@ == old_ks.writes@.insert(p as int, e));
            assert(ks.key@ == key@);
            assert(self.keys_uniq()) by {
                assert forall|i: int, j: int|
                    0 <= i < j < self.entries@.len() implies self.entries@[i].key@
                    != self.entries@[j].key@ by {
                    assert(mid.entries@[i].key@ != mid.entries@[j].key@);
                }
            }
            self.lemma_idx_unique(key@, idx as int);
            assert(ks.k_wf()) by {
                assert(old_ks.k_wf());
                assert forall|i: int, j: int|
                    0 <= i < j < ks.writes@.len() implies ks.writes@[i].commit_ts
                    > ks.writes@[j].commit_ts by {
                    let pi = p as int;
                    if i < pi && j < pi {
                        assert(ks.writes@[i] == old_ks.writes@[i]);
                        assert(ks.writes@[j] == old_ks.writes@[j]);
                    } else if i < pi && j == pi {
                        assert(ks.writes@[i] == old_ks.writes@[i]);
                        assert(old_ks.writes@[i].commit_ts > start_ts);
                    } else if i < pi && j > pi {
                        assert(ks.writes@[i] == old_ks.writes@[i]);
                        assert(ks.writes@[j] == old_ks.writes@[j - 1]);
                    } else if i == pi {
                        assert(ks.writes@[j] == old_ks.writes@[j - 1]);
                        assert(old_ks.writes@[j - 1].commit_ts < start_ts) by {
                            if j - 1 > pi - 1 && pi < old_ks.writes@.len() {
                                assert(old_ks.writes@[pi].commit_ts < start_ts);
                                if j - 1 > pi {
                                    assert(old_ks.writes@[pi].commit_ts > old_ks.writes@[j
                                        - 1].commit_ts);
                                }
                            }
                        }
                    } else {
                        assert(ks.writes@[i] == old_ks.writes@[i - 1]);
                        assert(ks.writes@[j] == old_ks.writes@[j - 1]);
                    }
                }
                assert forall|i: int|
                    0 <= i < ks.writes@.len() && (#[trigger] ks.writes@[i]).kind
                        == WriteKind::Put && ks.writes@[i].short_value is None implies ks
                    .has_default(ks.writes@[i].start_ts) by {
                    let pi = p as int;
                    if i != pi {
                        let oi = if i < pi {
                            i
                        } else {
                            i - 1
                        };
                        assert(ks.writes@[i] == old_ks.writes@[oi]);
                        assert(old_ks.has_default(old_ks.writes@[oi].start_ts));
                        let c = choose|c: int|
                            0 <= c < old_ks.defaults@.len() && old_ks.defaults@[c].start_ts
                                == old_ks.writes@[oi].start_ts;
                        assert(ks.defaults@[c].start_ts == ks.writes@[i].start_ts);
                    }
                }
                match ks.lock {
                    Some(l) => {
                        assert(old_ks.lock == Some(l));
                        if l.kind == WriteKind::Put && l.short_value is None {
                            assert(old_ks.has_default(l.start_ts));
                            let c = choose|c: int|
                                0 <= c < old_ks.defaults@.len() && old_ks.defaults@[c].start_ts
                                    == l.start_ts;
                            assert(ks.defaults@[c].start_ts == l.start_ts);
                        }
                    }
                    None => {}
                }
            }
            assert(self.wf()) by {
                assert forall|i: int| 0 <= i < self.entries@.len() implies (#[trigger] self
                    .entries@[i]).k_wf() by {
                    if i != idx as int {
                        assert(self.entries@[i] == mid.entries@[i]);
                    }
                }
            }
            assert(rollback_applied(pre, *self, key@, start_ts)) by {
                assert(e == rollback_marker(start_ts));
                assert(self.writes_of(key@) == spec_insert_write(pre.writes_of(key@), e));
                assert(self.defaults_of(key@) == pre.defaults_of(key@));
                if pre.rollback_case(key@, start_ts) == RollbackCase::Unlock {
                    assert(self.lock_of(key@) is None);
                } else {
                    assert(self.lock_of(key@) == pre.lock_of(key@));
                }
            }
            lemma_same_except(pre, *self, key@);
        }
    }

    /// Runs the rollback check over every key of the batch, against
    /// the untouched state: reports the error of the first key the
    /// transaction already committed on, if any.
    #[verifier::rlimit(30)]
    fn check_rollback_all(&self, keys: &Vec<Vec<u8>>, start_ts: u64) -> (r: Option<TxnError>)
        requires
            self.wf(),
        ensures
            match r {
                None => forall|t: int|
                    0 <= t < keys.deep_view().len() ==> self.rollback_case(
                        #[trigger] keys.deep_view()[t],
                        start_ts,
                    ) != RollbackCase::Committed,
                Some(e) => exists|t: int|
                    {
                        &&& 0 <= t < keys.deep_view().len()
                        &&& self.rollback_case(#[trigger] keys.deep_view()[t], start_ts)
                            == RollbackCase::Committed
                        &&& forall|u: int|
                            0 <= u < t ==> self.rollback_case(
                                #[trigger] keys.deep_view()[u],
                                start_ts,
                            ) != RollbackCase::Committed
                        &&& is_rollback_conflict(*self, keys.deep_view()[t], start_ts, e)
                    },
            },
    {
        let ghost dv = keys.deep_view();
        let n = keys.len();
        let mut t: usize = 0;
        while t < n
            invariant
                self.wf(),
                dv == keys.deep_view(),
                n == keys@.len(),
                dv.len() == n,
                t <= n,
                forall|u: int|
                    0 <= u < t ==> self.rollback_case(#[trigger] dv[u], start_ts)
                        != RollbackCase::Committed,
            decreases n - t,
        {
            proof {
                assert(dv[t as int] == keys@[t as int]@);
            }
            let c = self.check_rollback(&keys[t], start_ts);
            if matches!(c, RollbackCase::Committed) {
                let cts = self.committed_ts_of(&keys[t], start_ts);
                let e = TxnError::AlreadyCommitted {
                    key: keys[t].clone(),
                    start_ts,
                    commit_ts: cts,
                };
                proof {
                    let tt = t as int;
                    assert(self.rollback_case(dv[tt], start_ts) == RollbackCase::Committed);
                    assert(forall|u: int|
                        0 <= u < tt ==> self.rollback_case(#[trigger] dv[u], start_ts)
                            != RollbackCase::Committed);
                    assert(is_rollback_conflict(*self, dv[tt], start_ts, e));
                }
                return Some(e);
            }
            t = t + 1;
        }
        None
    }

    /// Removes the transaction's still-held locks of the batch and
    /// appends a rollback marker per key, the check having passed on
    /// every key; keys already rolled back stay as they are.
    #[verifier::rlimit(30)]
    fn apply_rollback_all(&mut self, keys: &Vec<Vec<u8>>, start_ts: u64)
        requires
            old(self).wf(),
            distinct_bytes(keys.deep_view()),
            forall|t: int|
                0 <= t < keys.deep_view().len() ==> old(self).rollback_case(
                    #[trigger] keys.deep_view()[t],
                    start_ts,
                ) != RollbackCase::Committed,
            forall|t: int|
                0 <= t < keys.deep_view().len() ==> old(self).commit_ts_fresh(
                    #[trigger] keys.deep_view()[t],
                    start_ts,
                ) || old(self).rollback_case(keys.deep_view()[t], start_ts)
                    != RollbackCase::Unlock && old(self).rollback_case(
                    keys.deep_view()[t],
                    start_ts,
                ) != RollbackCase::Mark,
        ensures
            final(self).wf(),
            forall|t: int|
                0 <= t < keys.deep_view().len() ==> rollback_applied(
                    *old(self),
                    *final(self),
                    #[trigger] keys.deep_view()[t],
                    start_ts,
                ),
            forall|k: Seq<u8>|
                !contains_bytes(keys.deep_view(), k) ==> old(self).same_key(*final(self), k),
    {
        let ghost l0 = *old(self);
        let ghost dv = keys.deep_view();
        let n = keys.len();
        let mut j: usize = 0;
        while j < n
            invariant
                self.wf(),
                l0.wf(),
                dv == keys.deep_view(),
                n == keys@.len(),
                dv.len() == n,
                j <= n,
                distinct_bytes(dv),
                forall|u: int|
                    0 <= u < n ==> l0.rollback_case(#[trigger] dv[u], start_ts)
                        != RollbackCase::Committed,
                forall|u: int|
                    0 <= u < n ==> l0.commit_ts_fresh(#[trigger] dv[u], start_ts)
                        || l0.rollback_case(dv[u], start_ts) != RollbackCase::Unlock
                        && l0.rollback_case(dv[u], start_ts) != RollbackCase::Mark,
                forall|u: int|
                    0 <= u < j ==> rollback_applied(l0, *self, #[trigger] dv[u], start_ts),
                forall|k: Seq<u8>|
                    !contains_bytes(dv.take(j as int), k) ==> l0.same_key(*self, k),
            decreases n - j,
        {
            let ghost pre = *self;
            let ghost k = dv[j as int];
            proof {
                assert(k == keys@[j as int]@);
                assert(!contains_bytes(dv.take(j as int), k)) by {
                    if contains_bytes(dv.take(j as int), k) {
                        let u = choose|u: int| 0 <= u < j && dv.take(j as int)[u] == k;
                        assert(dv[u] == dv[j as int]);
                        assert(false);
                    }
                }
                assert(l0.same_key(pre, k));
                assert(pre.rollback_case(k, start_ts) == l0.rollback_case(k, start_ts));
            }
            let c = self.check_rollback(&keys[j], start_ts);
            let does_write = matches!(c, RollbackCase::Unlock) || matches!(c, RollbackCase::Mark);
            if does_write {
                proof {
                    assert(l0.commit_ts_fresh(k, start_ts));
                    assert(pre.commit_ts_fresh(k, start_ts)) by {
                        assert forall|i: int|
                            0 <= i < pre.writes_of(k).len() implies (#[trigger] pre.writes_of(
                            k,
                        )[i]).commit_ts != start_ts by {
                            assert(pre.writes_of(k) == l0.writes_of(k));
                            assert(l0.writes_of(k)[i].commit_ts != start_ts);
                        }
                    }
                }
                self.rollback_key(&keys[j], start_ts);
            }
            proof {
                assert(dv.take(j as int + 1) =~= dv.take(j as int).push(k));
                assert forall|u: int| 0 <= u < j + 1 implies rollback_applied(
                    l0,
                    *self,
                    #[trigger] dv[u],
                    start_ts,
                ) by {
                    let ku = dv[u];
                    if u < j {
                        assert(ku != k);
                        if !does_write {
                            assert(*self == pre);
                        }
                        assert(rollback_applied(l0, pre, ku, start_ts));
                        assert(pre.same_key(*self, ku));
                    } else {
                        if does_write {
                            assert(rollback_applied(pre, *self, k, start_ts));
                            assert(l0.lock_of(k) == pre.lock_of(k));
                            assert(l0.writes_of(k) == pre.writes_of(k));
                            assert(l0.defaults_of(k) == pre.defaults_of(k));
                        } else {
                            assert(*self == pre);
                            assert(l0.rollback_case(k, start_ts) == RollbackCase::Skip);
                            assert(l0.same_key(*self, k));
                        }
                    }
                }
                assert forall|k2: Seq<u8>|
                    !contains_bytes(dv.take(j as int + 1), k2) implies l0.same_key(
                    *self,
                    k2,
                ) by {
                    assert(!contains_bytes(dv.take(j as int), k2)) by {
                        if contains_bytes(dv.take(j as int), k2) {
                            let u = choose|u: int| 0 <= u < j && dv.take(j as int)[u] == k2;
                            assert(dv.take(j as int + 1)[u] == k2);
                        }
                    }
                    assert(k2 != k) by {
                        if k2 == k {
                            assert(dv.take(j as int + 1)[j as int] == k);
                        }
                    }
                    assert(l0.same_key(pre, k2));
                    if does_write {
                        assert(pre.same_key(*self, k2));
                    } else {
                        assert(*self == pre);
                    }
                }
            }
            j = j + 1;
        }
        proof {
            assert(dv.take(n as int) =~= dv);
        }
    }

    /// Rolls back the transaction starting at `start_ts` on a batch
    /// of keys: each still-held lock of the transaction is removed and
    /// a rollback marker is appended, so a late prewrite at this
    /// timestamp can never resurrect the intent.  Every key is checked
    /// first: a key the transaction already committed fails the whole
    /// command with a conflict, reported for the first such key, and
    /// nothing changes.  A key already rolled back is left untouched;
    /// a lock of a different transaction is left alone.
    #[verifier::rlimit(30)]
    pub fn rollback(&mut self, keys: &Vec<Vec<u8>>, start_ts: u64) -> (r: Result<(), TxnError>)
        requires
            old(self).wf(),
            distinct_bytes(keys.deep_view()),
            forall|t: int|
                0 <= t < keys.deep_view().len() ==> old(self).commit_ts_fresh(
                    #[trigger] keys.deep_view()[t],
                    start_ts,
                ) || old(self).rollback_case(keys.deep_view()[t], start_ts)
                    != RollbackCase::Unlock && old(self).rollback_case(
                    keys.deep_view()[t],
                    start_ts,
                ) != RollbackCase::Mark,
        ensures
            final(self).wf(),
            rollback_outcome(*old(self), *final(self), keys.deep_view(), start_ts, r),
    {
        let ghost l0 = *old(self);
        let ghost dv = keys.deep_view();
        let checked = self.check_rollback_all(keys, start_ts);
        match checked {
            Some(e) => {
                proof {
                    let t = choose|t: int|
                        {
                            &&& 0 <= t < dv.len()
                            &&& l0.rollback_case(#[trigger] dv[t], start_ts)
                                == RollbackCase::Committed
                            &&& forall|u: int|
                                0 <= u < t ==> l0.rollback_case(#[trigger] dv[u], start_ts)
                                    != RollbackCase::Committed
                            &&& is_rollback_conflict(l0, dv[t], start_ts, e)
                        };
                    assert(l0.rollback_case(dv[t], start_ts) == RollbackCase::Committed);
                }
                Err(e)
            }
            None => {
                self.apply_rollback_all(keys, start_ts);
                Ok(())
            }
        }
    }

    /// Cleans up one key of the transaction starting at `start_ts`:
    /// the single-key form of rollback, used to clear an abandoned
    /// lock.  Fails with a conflict only where the transaction
    /// committed on the key.
    pub fn cleanup(&mut self, key: &Vec<u8>, start_ts: u64) -> (r: Result<(), TxnError>)
        requires
            old(self).wf(),
            old(self).commit_ts_fresh(key@, start_ts) || old(self).rollback_case(key@, start_ts)
                != RollbackCase::Unlock && old(self).rollback_case(key@, start_ts)
                != RollbackCase::Mark,
        ensures
            final(self).wf(),
            r is Ok <==> old(self).rollback_case(key@, start_ts) != RollbackCase::Committed,
            match r {
                Ok(_) => {
                    &&& rollback_applied(*old(self), *final(self), key@, start_ts)
                    &&& forall|k: Seq<u8>| k != key@ ==> old(self).same_key(*final(self), k)
                },
                Err(e) => {
                    &&& *final(self) == *old(self)
                    &&& is_rollback_conflict(*old(self), key@, start_ts, e)
                },
            },
    {
        let c = self.check_rollback(key, start_ts);
        match c {
            RollbackCase::Committed => {
                let cts = self.committed_ts_of(key, start_ts);
                Err(TxnError::AlreadyCommitted { key: key.clone(), start_ts, commit_ts: cts })
            }
            RollbackCase::Skip => {
                Ok(())
            }
            _ => {
                self.rollback_key(key, start_ts);
                Ok(())
            }
        }
    }

    /// The keys currently locked by the transaction starting at
    /// `start_ts`.
    fn keys_locked_by(&self, start_ts: u64) -> (r: Vec<Vec<u8>>)
        requires
            self.wf(),
        ensures
            distinct_bytes(r.deep_view()),
            forall|k: Seq<u8>|
                #[trigger] contains_bytes(r.deep_view(), k) <==> (match self.lock_of(k) {
                    Some(l) => l.start_ts == start_ts,
                    None => false,
                }),
    {
        let n = self.entries.len();
        let mut r: Vec<Vec<u8>> = Vec::new();
        let mut i: usize = 0;
        while i < n
            invariant
                self.wf(),
                n == self.entries@.len(),
                i <= n,
                sourced_from(*self, r.deep_view(), i as int, start_ts),
                covers_locked(*self, r.deep_view(), i as int, start_ts),
                distinct_bytes(r.deep_view()),
            decreases n - i,
        {
            let ghost r0 = r.deep_view();
            let ghost rv0 = r@;
            let matches_lock = match &self.entries[i].lock {
                Some(l) => l.start_ts == start_ts,
                None => false,
            };
            if matches_lock {
                r.push(self.entries[i].key.clone());
                proof {
                    assert(r.deep_view() =~= r0.push(self.entries@[i as int].key@)) by {
                        assert(r@.len() == rv0.len() + 1);
                        assert forall|t: int| 0 <= t < r@.len() implies r.deep_view()[t] == r0.push(
                            self.entries@[i as int].key@,
                        )[t] by {
                            assert(r.deep_view()[t] == r@[t]@);
                            if t < rv0.len() {
                                assert(r@[t] == rv0[t]);
                                assert(r0[t] == rv0[t]@);
                            } else {
                                assert(r@[t]@ == self.entries@[i as int].key@);
                            }
                        }
                    }
                    assert(distinct_bytes(r.deep_view())) by {
                        assert forall|a: int, b: int|
                            0 <= a < b < r.deep_view().len() implies r.deep_view()[a]
                            != r.deep_view()[b] by {
                            if b == r.deep_view().len() - 1 {
                                let ka = r.deep_view()[a];
                                assert(r0[a] == ka);
                                let si = choose|si: int|
                                    0 <= si < i && self.entries@[si].key@ == ka && locked_at(
                                        self.entries@[si].lock,
                                        start_ts,
                                    );
                                assert(self.entries@[si].key@ != self.entries@[i as int].key@);
                            } else {
                                assert(r0[a] == r.deep_view()[a]);
                                assert(r0[b] == r.deep_view()[b]);
                            }
                        }
                    }
                }
            }
            proof {
                assert(sourced_from(*self, r.deep_view(), i as int + 1, start_ts)) by {
                    assert forall|t: int|
                        0 <= t < r.deep_view().len() implies exists|si: int|
                        #![auto]
                        0 <= si < i + 1 && self.entries@[si].key@ == #[trigger] r.deep_view()[t]
                            && locked_at(self.entries@[si].lock, start_ts) by {
                        if t < r0.len() {
                            assert(r0[t] == r.deep_view()[t]);
                            let si = choose|si: int|
                                #![auto]
                                0 <= si < i && self.entries@[si].key@ == r0[t] && locked_at(
                                    self.entries@[si].lock,
                                    start_ts,
                                );
                            assert(0 <= si < i + 1 && self.entries@[si].key@ == r.deep_view()[t]
                                && locked_at(self.entries@[si].lock, start_ts));
                        } else {
                            assert(matches_lock);
                            let si = i as int;
                            assert(0 <= si < i + 1 && self.entries@[si].key@ == r.deep_view()[t]
                                && locked_at(self.entries@[si].lock, start_ts));
                        }
                    }
                }
                assert(covers_locked(*self, r.deep_view(), i as int + 1, start_ts)) by {
                    assert forall|si: int|
                        0 <= si < i + 1 && locked_at(
                            #[trigger] self.entries@[si].lock,
                            start_ts,
                        ) implies contains_bytes(r.deep_view(), self.entries@[si].key@) by {
                        if si < i {
                            assert(contains_bytes(r0, self.entries@[si].key@));
                            let t = choose|t: int|
                                0 <= t < r0.len() && r0[t] == self.entries@[si].key@;
                            assert(r.deep_view()[t] == self.entries@[si].key@);
                        } else {
                            assert(matches_lock);
                            assert(r.deep_view()[r.deep_view().len() - 1] == self.entries@[
                                i as int].key@);
                        }
                    }
                }
            }
            i = i + 1;
        }
        proof {
            assert forall|k: Seq<u8>|
                #[trigger] contains_bytes(r.deep_view(), k) implies (match self.lock_of(k) {
                Some(l) => l.start_ts == start_ts,
                None => false,
            }) by {
                let t = choose|t: int| 0 <= t < r.deep_view().len() && r.deep_view()[t] == k;
                let si = choose|si: int|
                    #![auto]
                    0 <= si < n && self.entries@[si].key@ == k && locked_at(
                        self.entries@[si].lock,
                        start_ts,
                    );
                self.lemma_idx_unique(k, si);
            }
            assert forall|k: Seq<u8>|
                (match self.lock_of(k) {
                    Some(l) => l.start_ts == start_ts,
                    None => false,
                }) implies #[trigger] contains_bytes(r.deep_view(), k) by {
                assert(self.has_key(k));
                let si = self.idx_of(k);
                assert(self.entries@[si].key@ == k);
                assert(locked_at(self.entries@[si].lock, start_ts));
            }
        }
        r
    }

    /// Resolves every lock left by the transaction starting at
    /// `start_ts` across the whole keyspace: commits each one at
    /// `commit_ts` when a commit timestamp is given, rolls each one
    /// back otherwise, with the same per-key logic as commit and
    /// rollback.  Keys the transaction holds no lock on are left
    /// untouched.
    pub fn resolve_lock(&mut self, start_ts: u64, commit_ts: Option<u64>)
        requires
            old(self).wf(),
            match commit_ts {
                Some(c) => c > start_ts && forall|k: Seq<u8>|
                    (match old(self).lock_of(k) {
                        Some(l) => l.start_ts == start_ts,
                        None => false,
                    }) ==> old(self).commit_ts_fresh(k, c),
                None => forall|k: Seq<u8>|
                    (match old(self).lock_of(k) {
                        Some(l) => l.start_ts == start_ts,
                        None => false,
                    }) ==> old(self).commit_ts_fresh(k, start_ts),
            },
        ensures
            final(self).wf(),
            resolve_outcome(*old(self), *final(self), start_ts, commit_ts),
    {
        let ghost l0 = *old(self);
        let keys = self.keys_locked_by(start_ts);
        proof {
            assert forall|t: int|
                0 <= t < keys.deep_view().len() implies (match l0.lock_of(
                #[trigger] keys.deep_view()[t],
            ) {
                Some(l) => l.start_ts == start_ts,
                None => false,
            }) by {
                assert(contains_bytes(keys.deep_view(), keys.deep_view()[t]));
            }
        }
        match commit_ts {
            Some(c) => {
                let r = self.commit(&keys, start_ts, c);
                proof {
                    if r is Err {
                        let t = choose|t: int|
                            0 <= t < keys.deep_view().len() && l0.commit_case(
                                #[trigger] keys.deep_view()[t],
                                start_ts,
                            ) == CommitCase::RolledBack;
                        assert(l0.commit_case(keys.deep_view()[t], start_ts)
                            == CommitCase::DoCommit);
                        assert(false);
                    }
                    assert forall|k: Seq<u8>|
                        (match l0.lock_of(k) {
                            Some(l) => l.start_ts == start_ts,
                            None => false,
                        }) implies commit_applied(l0, *self, k, start_ts, c) by {
                        assert(contains_bytes(keys.deep_view(), k));
                        let t = choose|t: int|
                            0 <= t < keys.deep_view().len() && keys.deep_view()[t] == k;
                        assert(commit_applied(l0, *self, keys.deep_view()[t], start_ts, c));
                    }
                }
            }
            None => {
                let r = self.rollback(&keys, start_ts);
                proof {
                    if r is Err {
                        let t = choose|t: int|
                            0 <= t < keys.deep_view().len() && l0.rollback_case(
                                #[trigger] keys.deep_view()[t],
                                start_ts,
                            ) == RollbackCase::Committed;
                        assert(l0.rollback_case(keys.deep_view()[t], start_ts)
                            == RollbackCase::Unlock);
                        assert(false);
                    }
                    assert forall|k: Seq<u8>|
                        (match l0.lock_of(k) {
                            Some(l) => l.start_ts == start_ts,
                            None => false,
                        }) implies rollback_applied(l0, *self, k, start_ts) by {
                        assert(contains_bytes(keys.deep_view(), k));
                        let t = choose|t: int|
                            0 <= t < keys.deep_view().len() && keys.deep_view()[t] == k;
                        assert(rollback_applied(l0, *self, keys.deep_view()[t], start_ts));
                    }
                }
            }
        }
        proof {
            assert forall|k: Seq<u8>|
                !(match l0.lock_of(k) {
                    Some(l) => l.start_ts == start_ts,
                    None => false,
                }) implies l0.same_key(*self, k) by {
                if contains_bytes(keys.deep_view(), k) {
                    assert(false);
                }
            }
        }
    }
}

impl KeyState {
    /// Looks up the long value stored for `ts`.
    fn find_default(&self, ts: u64) -> (r: Option<Vec<u8>>)
        requires
            self.k_wf(),
        ensures
            match r {
                Some(v) => self.has_default(ts) && v@ == self.default_value(ts),
                None => !self.has_default(ts),
            },
    {
        let n = self.defaults.len();
        let mut i: usize = 0;
        while i < n
            invariant
                self.k_wf(),
                n == self.defaults@.len(),
                i <= n,
                forall|j: int| 0 <= j < i ==> self.defaults@[j].start_ts != ts,
            decreases n - i,
        {
            if self.defaults[i].start_ts == ts {
                proof {
                    assert(self.has_default(ts));
                    let c = choose|c: int|
                        0 <= c < self.defaults@.len() && self.defaults@[c].start_ts == ts;
                    if c < i as int {
                        assert(self.defaults@[c].start_ts != self.defaults@[i as int].start_ts);
                        assert(false);
                    }
                    if c > i as int {
                        assert(self.defaults@[i as int].start_ts != self.defaults@[c].start_ts);
                        assert(false);
                    }
                }
                return Some(self.defaults[i].value.clone());
            }
            i = i + 1;
        }
        None
    }
}

} // verus!
