//! Key-level mutual exclusion for concurrently submitted commands.
//!
//! One latch exists per distinct logical key, created lazily on first
//! reference and never destroyed.  Each latch keeps a FIFO queue of the
//! command ids waiting on it; the command at the front of the queue is
//! the latch's holder.  A command is ready to execute only when it
//! stands at the front of the queue of every key it touches; the queues
//! are never reordered, so a command that has reached the front of all
//! of its queues keeps that position until it releases.

use vstd::prelude::*;

verus! {

/// Compares two byte strings, abstracting vstd's pointwise `Vec`
/// equality into sequence equality.
pub fn bytes_eq(a: &Vec<u8>, b: &Vec<u8>) -> (r: bool)
    ensures
        r == (a@ == b@),
{
    let r = a == b;
    proof {
        if r {
            assert(a@ =~= b@);
        }
    }
    r
}

/// One latch: a logical key together with the FIFO queue of command
/// ids waiting for it.  The front of the queue holds the latch.
pub struct Latch {
    pub key: Vec<u8>,
    pub queue: Vec<u64>,
}

/// The latch table of one scheduler instance.
pub struct Latches {
    pub slots: Vec<Latch>,
}

/// True when the byte strings of `keys` contain `k`.
pub open spec fn contains_bytes(keys: Seq<Seq<u8>>, k: Seq<u8>) -> bool {
    exists|i: int| 0 <= i < keys.len() && keys[i] == k
}

/// True when no byte string occurs in both sequences.
pub open spec fn disjoint_keys(ks1: Seq<Seq<u8>>, ks2: Seq<Seq<u8>>) -> bool {
    forall|k: Seq<u8>| contains_bytes(ks1, k) ==> !contains_bytes(ks2, k)
}

/// True when the byte strings of `keys` are pairwise distinct.
pub open spec fn distinct_bytes(keys: Seq<Seq<u8>>) -> bool {
    forall|i: int, j: int| 0 <= i < j < keys.len() ==> keys[i] != keys[j]
}

impl Latches {
    /// Well-formedness: slot keys are pairwise distinct, and no command
    /// id occurs twice in one queue.
    pub open spec fn wf(self) -> bool {
        &&& forall|i: int, j: int|
            0 <= i < j < self.slots.len() ==> self.slots[i].key@ != self.slots[j].key@
        &&& forall|i: int|
            0 <= i < self.slots.len() ==> distinct_cids(#[trigger] self.slots[i].queue@)
    }

    /// True when some slot exists for `k`.
    pub open spec fn has_slot(self, k: Seq<u8>) -> bool {
        exists|i: int| 0 <= i < self.slots.len() && self.slots[i].key@ == k
    }

    /// The index of the slot for `k` (meaningful only when `has_slot`).
    pub open spec fn slot_of(self, k: Seq<u8>) -> int {
        choose|i: int| 0 <= i < self.slots.len() && self.slots[i].key@ == k
    }

    /// The wait queue for `k`; empty when no slot exists yet.
    pub open spec fn queue_of(self, k: Seq<u8>) -> Seq<u64> {
        if self.has_slot(k) {
            self.slots[self.slot_of(k)].queue@
        } else {
            Seq::empty()
        }
    }

    /// Command `cid` holds the latch of key `k`.
    pub open spec fn holds(self, cid: u64, k: Seq<u8>) -> bool {
        self.queue_of(k).len() > 0 && self.queue_of(k)[0] == cid
    }

    /// Command `cid` stands somewhere in the queue of key `k`.
    pub open spec fn in_queue(self, cid: u64, k: Seq<u8>) -> bool {
        self.queue_of(k).contains(cid)
    }

    /// Command `cid` holds every latch of its key set: it is ready to
    /// execute.
    pub open spec fn granted_all(self, cid: u64, keys: Seq<Seq<u8>>) -> bool {
        forall|i: int| 0 <= i < keys.len() ==> self.holds(cid, #[trigger] keys[i])
    }

    /// Every latch of the key set is free: no command waits on any of
    /// them.
    pub open spec fn free_for(self, keys: Seq<Seq<u8>>) -> bool {
        forall|i: int| 0 <= i < keys.len() ==> self.queue_of(#[trigger] keys[i]).len() == 0
    }

    /// Command `cid` appears in no queue at all.
    pub open spec fn absent(self, cid: u64) -> bool {
        forall|i: int|
            0 <= i < self.slots.len() ==> !(#[trigger] self.slots[i].queue@).contains(cid)
    }

    /// Command `cid` appears only in queues of keys drawn from `keys`.
    pub open spec fn only_in(self, cid: u64, keys: Seq<Seq<u8>>) -> bool {
        forall|i: int|
            0 <= i < self.slots.len() && (#[trigger] self.slots[i].queue@).contains(cid)
                ==> contains_bytes(keys, self.slots[i].key@)
    }

    /// Every non-empty queue belongs to a key of `keys`.
    pub open spec fn occupied_only(self, keys: Seq<Seq<u8>>) -> bool {
        forall|i: int|
            0 <= i < self.slots.len() && (#[trigger] self.slots[i].queue@).len() > 0
                ==> contains_bytes(keys, self.slots[i].key@)
    }

    /// An empty latch table.
    pub fn new() -> (r: Latches)
        ensures
            r.wf(),
            r.slots@.len() == 0,
    {
        Latches { slots: Vec::new() }
    }

    /// Finds the slot index of `key`, if a latch for it exists.
    fn find_slot(&self, key: &Vec<u8>) -> (r: Option<usize>)
        ensures
            match r {
                Some(i) => i < self.slots@.len() && self.slots@[i as int].key@ == key@,
                None => !self.has_slot(key@),
            },
    {
        let n = self.slots.len();
        let mut i: usize = 0;
        while i < n
            invariant
                n == self.slots@.len(),
                i <= n,
                forall|j: int| 0 <= j < i ==> self.slots@[j].key@ != key@,
            decreases n - i,
        {
            if bytes_eq(&self.slots[i].key, key) {
                return Some(i);
            }
            i = i + 1;
        }
        None
    }

    /// With distinct slot keys, the slot found for a key is the slot
    /// the specification functions speak of.
    proof fn lemma_slot_unique(self, k: Seq<u8>, s: int)
        requires
            self.wf(),
            0 <= s < self.slots@.len(),
            self.slots@[s].key@ == k,
        ensures
            self.has_slot(k),
            self.slot_of(k) == s,
            self.queue_of(k) == self.slots@[s].queue@,
    {
        assert(self.has_slot(k));
        let j = self.slot_of(k);
        if j != s {
            if j < s {
                assert(self.slots@[j].key@ != self.slots@[s].key@);
            } else {
                assert(self.slots@[s].key@ != self.slots@[j].key@);
            }
        }
    }

    /// True when `cid` currently holds the latch of every key in
    /// `keys`.
    pub fn all_held(&self, cid: u64, keys: &Vec<Vec<u8>>) -> (r: bool)
        requires
            self.wf(),
        ensures
            r == self.granted_all(cid, keys.deep_view()),
    {
        let n = keys.len();
        let mut i: usize = 0;
        while i < n
            invariant
                self.wf(),
                n == keys@.len(),
                i <= n,
                forall|j: int| 0 <= j < i ==> self.holds(cid, #[trigger] keys.deep_view()[j]),
            decreases n - i,
        {
            let ghost k = keys.deep_view()[i as int];
            proof {
                assert(k == keys@[i as int]@);
            }
            let found = self.find_slot(&keys[i]);
            let held: bool = match found {
                Some(s) => {
                    proof {
                        self.lemma_slot_unique(k, s as int);
                    }
                    let q = &self.slots[s].queue;
                    q.len() > 0 && q[0] == cid
                }
                None => false,
            };
            if !held {
                proof {
                    assert(!self.holds(cid, k));
                    assert(self.granted_all(cid, keys.deep_view()) ==> self.holds(cid, k));
                }
                return false;
            }
            i = i + 1;
        }
        true
    }
    /// Appends `cid` to the wait queue of one key, creating the latch
    /// on first reference.
    fn enqueue_key(&mut self, cid: u64, key: &Vec<u8>)
        requires
            old(self).wf(),
            !old(self).in_queue(cid, key@),
        ensures
            final(self).wf(),
            old(self).slots@.len() <= final(self).slots@.len(),
            forall|i: int|
                0 <= i < old(self).slots@.len() ==> (#[trigger] final(self).slots@[i]).key@
                    == old(self).slots@[i].key@,
            forall|i: int|
                0 <= i < old(self).slots@.len() ==> (#[trigger] final(self).slots@[i]).queue@ == (
                if old(self).slots@[i].key@ == key@ {
                    old(self).slots@[i].queue@.push(cid)
                } else {
                    old(self).slots@[i].queue@
                }),
            old(self).has_slot(key@) ==> final(self).slots@.len() == old(self).slots@.len(),
            !old(self).has_slot(key@) ==> {
                &&& final(self).slots@.len() == old(self).slots@.len() + 1
                &&& final(self).slots@.last().key@ == key@
                &&& final(self).slots@.last().queue@ == seq![cid]
            },
    {
        let found = self.find_slot(key);
        match found {
            Some(s) => {
                proof {
                    self.lemma_slot_unique(key@, s as int);
                }
                let slot = &mut self.slots[s];
                slot.queue.push(cid);
                proof {
                    assert forall|i: int, j: int|
                        0 <= i < j < self.slots@.len() implies self.slots@[i].key@
                        != self.slots@[j].key@ by {
                        assert(old(self).slots@[i].key@ != old(self).slots@[j].key@);
                    }
                    assert forall|i: int|
                        0 <= i < self.slots@.len() implies distinct_cids(
                        (#[trigger] self.slots@[i]).queue@,
                    ) by {
                        if i == s {
                            assert(!old(self).slots@[i].queue@.contains(cid));
                            assert(distinct_cids(old(self).slots@[i].queue@));
                        } else {
                            assert(distinct_cids(old(self).slots@[i].queue@));
                        }
                    }
                }
            }
            None => {
                let mut q: Vec<u64> = Vec::new();
                q.push(cid);
                let lat = Latch { key: key.clone(), queue: q };
                self.slots.push(lat);
                proof {
                    assert(self.slots@.last().queue@ =~= seq![cid]);
                    assert forall|i: int, j: int|
                        0 <= i < j < self.slots@.len() implies self.slots@[i].key@
                        != self.slots@[j].key@ by {
                        if j < self.slots@.len() - 1 {
                            assert(old(self).slots@[i].key@ != old(self).slots@[j].key@);
                        } else {
                            assert(!old(self).has_slot(key@));
                        }
                    }
                }
            }
        }
    }

    /// Requests the latches of every key of a freshly submitted
    /// command: the command id is appended to each key's FIFO queue.
    /// The request is granted — the command holds all of its latches —
    /// exactly when every one of those latches was free; otherwise the
    /// command keeps its queue positions and waits.  Already-queued
    /// commands are never reordered.
    pub fn acquire(&mut self, cid: u64, keys: &Vec<Vec<u8>>) -> (granted: bool)
        requires
            old(self).wf(),
            old(self).absent(cid),
            distinct_bytes(keys.deep_view()),
        ensures
            final(self).wf(),
            old(self).slots@.len() <= final(self).slots@.len(),
            forall|i: int|
                0 <= i < old(self).slots@.len() ==> (#[trigger] final(self).slots@[i]).key@
                    == old(self).slots@[i].key@,
            forall|i: int|
                0 <= i < old(self).slots@.len() ==> (#[trigger] final(self).slots@[i]).queue@ == (
                if contains_bytes(keys.deep_view(), old(self).slots@[i].key@) {
                    old(self).slots@[i].queue@.push(cid)
                } else {
                    old(self).slots@[i].queue@
                }),
            forall|i: int|
                old(self).slots@.len() <= i < final(self).slots@.len() ==> {
                    &&& contains_bytes(keys.deep_view(), (#[trigger] final(self).slots@[i]).key@)
                    &&& !old(self).has_slot(final(self).slots@[i].key@)
                    &&& final(self).slots@[i].queue@ == seq![cid]
                },
            forall|j: int|
                0 <= j < keys.deep_view().len() ==> final(self).in_queue(
                    cid,
                    #[trigger] keys.deep_view()[j],
                ),
            granted == old(self).free_for(keys.deep_view()),
            granted == final(self).granted_all(cid, keys.deep_view()),
    {
        let ghost l0 = *old(self);
        let ghost dv = keys.deep_view();
        let n = keys.len();
        let mut j: usize = 0;
        while j < n
            invariant
                n == keys@.len(),
                dv == keys.deep_view(),
                dv.len() == n,
                distinct_bytes(dv),
                j <= n,
                l0.wf(),
                l0.absent(cid),
                self.wf(),
                l0.slots@.len() <= self.slots@.len(),
                forall|i: int|
                    0 <= i < l0.slots@.len() ==> (#[trigger] self.slots@[i]).key@
                        == l0.slots@[i].key@,
                forall|i: int|
                    0 <= i < l0.slots@.len() ==> (#[trigger] self.slots@[i]).queue@ == (
                    if contains_bytes(dv.take(j as int), l0.slots@[i].key@) {
                        l0.slots@[i].queue@.push(cid)
                    } else {
                        l0.slots@[i].queue@
                    }),
                forall|i: int|
                    l0.slots@.len() <= i < self.slots@.len() ==> {
                        &&& contains_bytes(dv.take(j as int), (#[trigger] self.slots@[i]).key@)
                        &&& !l0.has_slot(self.slots@[i].key@)
                        &&& self.slots@[i].queue@ == seq![cid]
                    },
                forall|t: int| 0 <= t < j ==> self.in_queue(cid, #[trigger] dv[t]),
            decreases n - j,
        {
            let ghost pre = *self;
            let ghost k = dv[j as int];
            proof {
                assert(k == keys@[j as int]@);
                // `cid` is not yet queued on this key: its only queue
                // entries so far are on the first `j` keys, all
                // distinct from this one.
                if pre.in_queue(cid, k) {
                    let s = pre.slot_of(k);
                    assert(pre.slots@[s].queue@.contains(cid));
                    if s < l0.slots@.len() {
                        assert(contains_bytes(dv.take(j as int), l0.slots@[s].key@));
                        let jj = choose|t: int|
                            0 <= t < dv.take(j as int).len() && dv.take(j as int)[t] == l0.slots@[s].key@;
                        assert(dv[jj] == dv[j as int]);
                        assert(!l0.slots@[s].queue@.contains(cid));
                        assert(!l0.slots@[s].queue@.push(cid).drop_last().contains(cid));
                        assert(l0.slots@[s].queue@.push(cid).last() == cid);
                    } else {
                        let jj = choose|t: int|
                            0 <= t < dv.take(j as int).len() && dv.take(j as int)[t] == pre.slots@[s].key@;
                        assert(dv[jj] == dv[j as int]);
                    }
                }
            }
            self.enqueue_key(cid, &keys[j]);
            proof {
                assert(dv.take(j as int + 1) =~= dv.take(j as int).push(k));
                assert forall|i: int|
                    0 <= i < l0.slots@.len() implies (#[trigger] self.slots@[i]).queue@ == (
                if contains_bytes(dv.take(j as int + 1), l0.slots@[i].key@) {
                    l0.slots@[i].queue@.push(cid)
                } else {
                    l0.slots@[i].queue@
                }) by {
                    let ck = l0.slots@[i].key@;
                    if contains_bytes(dv.take(j as int + 1), ck) {
                        if ck == k {
                            if contains_bytes(dv.take(j as int), ck) {
                                let t = choose|t: int|
                                    0 <= t < dv.take(j as int).len() && dv.take(j as int)[t] == ck;
                                assert(dv[t] == dv[j as int]);
                                assert(false);
                            }
                        } else {
                            assert(contains_bytes(dv.take(j as int), ck));
                        }
                    } else {
                        assert(!contains_bytes(dv.take(j as int), ck));
                        assert(dv.take(j as int + 1)[j as int] == k);
                        assert(contains_bytes(dv.take(j as int + 1), k));
                        assert(ck != k);
                    }
                }
                assert forall|i: int|
                    l0.slots@.len() <= i < self.slots@.len() implies {
                    &&& contains_bytes(dv.take(j as int + 1), (#[trigger] self.slots@[i]).key@)
                    &&& !l0.has_slot(self.slots@[i].key@)
                    &&& self.slots@[i].queue@ == seq![cid]
                } by {
                    if i < pre.slots@.len() {
                        assert(contains_bytes(dv.take(j as int), pre.slots@[i].key@));
                        assert(pre.slots@[i].key@ != k);
                        assert(self.slots@[i].queue@ == pre.slots@[i].queue@);
                    } else {
                        assert(self.slots@[i].key@ == k);
                        assert(dv.take(j as int + 1)[j as int] == k);
                        assert(contains_bytes(dv.take(j as int + 1), k));
                        if l0.has_slot(k) {
                            let s0 = l0.slot_of(k);
                            assert(pre.slots@[s0].key@ == k);
                            assert(pre.has_slot(k));
                            assert(false);
                        }
                    }
                }
                // Every key handled so far has `cid` queued.
                assert forall|t: int| 0 <= t < j + 1 implies self.in_queue(
                    cid,
                    #[trigger] dv[t],
                ) by {
                    if t < j {
                        let kt = dv[t];
                        assert(pre.in_queue(cid, kt));
                        assert(pre.has_slot(kt));
                        let s = pre.slot_of(kt);
                        assert(pre.slots@[s].key@ == kt);
                        assert(kt != k);
                        assert(self.slots@[s].key@ == kt);
                        self.lemma_slot_unique(kt, s);
                        if s < l0.slots@.len() {
                            assert(self.slots@[s].queue@ == pre.slots@[s].queue@);
                        } else {
                            assert(self.slots@[s].queue@ == pre.slots@[s].queue@);
                        }
                        assert(self.queue_of(kt) == pre.queue_of(kt));
                    } else {
                        if pre.has_slot(k) {
                            let s = pre.slot_of(k);
                            assert(pre.slots@[s].key@ == k);
                            assert(self.slots@[s].key@ == k);
                            self.lemma_slot_unique(k, s);
                            assert(self.slots@[s].queue@ == pre.slots@[s].queue@.push(cid));
                            assert(self.queue_of(k)[self.queue_of(k).len() - 1] == cid);
                        } else {
                            let s = pre.slots@.len() as int;
                            assert(self.slots@.last().key@ == k);
                            self.lemma_slot_unique(k, s);
                            assert(self.queue_of(k) == seq![cid]);
                            assert(self.queue_of(k)[0] == cid);
                        }
                    }
                }
            }
            j = j + 1;
        }
        proof {
            assert(dv.take(n as int) =~= dv);
        }
        let granted = self.all_held(cid, keys);
        proof {
            // The request was granted exactly when every requested
            // latch was free beforehand.
            assert forall|t: int| 0 <= t < dv.len() implies self.holds(cid, #[trigger] dv[t])
                == (l0.queue_of(dv[t]).len() == 0) by {
                let k = dv[t];
                assert(self.in_queue(cid, k));
                if l0.has_slot(k) {
                    let s = l0.slot_of(k);
                    assert(l0.slots@[s].key@ == k);
                    assert(self.slots@[s].key@ == k);
                    self.lemma_slot_unique(k, s);
                    l0.lemma_slot_unique(k, s);
                    assert(contains_bytes(dv, k));
                    assert(self.slots@[s].queue@ == l0.slots@[s].queue@.push(cid));
                    if l0.slots@[s].queue@.len() == 0 {
                        assert(self.queue_of(k)[0] == cid);
                    } else {
                        assert(self.queue_of(k)[0] == l0.slots@[s].queue@[0]);
                        if l0.slots@[s].queue@[0] == cid {
                            assert(l0.slots@[s].queue@.contains(cid));
                            assert(false);
                        }
                    }
                } else {
                    let s = self.slot_of(k);
                    assert(self.slots@[s].key@ == k);
                    if s < l0.slots@.len() {
                        assert(l0.slots@[s].key@ == k);
                        assert(false);
                    }
                    assert(self.slots@[s].queue@ == seq![cid]);
                    assert(self.queue_of(k)[0] == cid);
                    assert(l0.queue_of(k).len() == 0);
                }
            }
            if granted {
                assert forall|t: int| 0 <= t < dv.len() implies l0.queue_of(
                    #[trigger] dv[t],
                ).len() == 0 by {
                    assert(self.holds(cid, dv[t]));
                }
            } else {
                assert(!self.granted_all(cid, dv));
                let t = choose|t: int| 0 <= t < dv.len() && !self.holds(cid, dv[t]);
                assert(l0.queue_of(dv[t]).len() != 0);
            }
        }
        granted
    }

    /// Releases every latch of a finished command at once.  The
    /// command must hold all of them — partial acquisition is never
    /// observably held, and release happens only after execution.  The
    /// returned command ids are the new front runners of the released
    /// queues: each may now have become ready and must be revalidated
    /// by the caller.
    pub fn release(&mut self, cid: u64, keys: &Vec<Vec<u8>>) -> (woken: Vec<u64>)
        requires
            old(self).wf(),
            old(self).granted_all(cid, keys.deep_view()),
            old(self).only_in(cid, keys.deep_view()),
            distinct_bytes(keys.deep_view()),
        ensures
            final(self).wf(),
            final(self).slots@.len() == old(self).slots@.len(),
            forall|i: int|
                0 <= i < old(self).slots@.len() ==> (#[trigger] final(self).slots@[i]).key@
                    == old(self).slots@[i].key@,
            forall|i: int|
                0 <= i < old(self).slots@.len() ==> (#[trigger] final(self).slots@[i]).queue@ == (
                if contains_bytes(keys.deep_view(), old(self).slots@[i].key@) {
                    old(self).slots@[i].queue@.drop_first()
                } else {
                    old(self).slots@[i].queue@
                }),
            final(self).absent(cid),
            forall|w: u64|
                woken@.contains(w) <==> exists|t: int|
                    0 <= t < keys.deep_view().len() && old(self).queue_of(
                        #[trigger] keys.deep_view()[t],
                    ).len() >= 2 && old(self).queue_of(keys.deep_view()[t])[1] == w,
    {
        let ghost l0 = *old(self);
        let ghost dv = keys.deep_view();
        let n = keys.len();
        let mut woken: Vec<u64> = Vec::new();
        let mut j: usize = 0;
        while j < n
            invariant
                n == keys@.len(),
                dv == keys.deep_view(),
                dv.len() == n,
                distinct_bytes(dv),
                j <= n,
                l0.wf(),
                l0.granted_all(cid, dv),
                self.wf(),
                self.slots@.len() == l0.slots@.len(),
                forall|i: int|
                    0 <= i < l0.slots@.len() ==> (#[trigger] self.slots@[i]).key@
                        == l0.slots@[i].key@,
                forall|i: int|
                    0 <= i < l0.slots@.len() ==> (#[trigger] self.slots@[i]).queue@ == (
                    if contains_bytes(dv.take(j as int), l0.slots@[i].key@) {
                        l0.slots@[i].queue@.drop_first()
                    } else {
                        l0.slots@[i].queue@
                    }),
                forall|w: u64|
                    woken@.contains(w) <==> exists|t: int|
                        0 <= t < j && l0.queue_of(#[trigger] dv[t]).len() >= 2 && l0.queue_of(
                            dv[t],
                        )[1] == w,
            decreases n - j,
        {
            let ghost pre = *self;
            let ghost k = dv[j as int];
            proof {
                assert(k == keys@[j as int]@);
                assert(l0.holds(cid, k));
                assert(l0.has_slot(k));
            }
            let found = self.find_slot(&keys[j]);
            match found {
                Some(s) => {
                    proof {
                        self.lemma_slot_unique(k, s as int);
                        l0.lemma_slot_unique(k, s as int);
                        // This key was not among the first `j`, so its
                        // queue is still untouched and fronted by
                        // `cid`.
                        if contains_bytes(dv.take(j as int), k) {
                            let t = choose|t: int|
                                0 <= t < dv.take(j as int).len() && dv.take(j as int)[t] == k;
                            assert(dv[t] == dv[j as int]);
                            assert(false);
                        }
                        assert(pre.slots@[s as int].queue@ == l0.slots@[s as int].queue@);
                        assert(l0.queue_of(k)[0] == cid);
                    }
                    let ghost wpre = woken@;
                    let slot = &mut self.slots[s];
                    let _front = slot.queue.remove(0);
                    let has_next = slot.queue.len() > 0;
                    let next = if has_next {
                        slot.queue[0]
                    } else {
                        0
                    };
                    if has_next {
                        woken.push(next);
                    }
                    proof {
                        assert(self.slots@[s as int].queue@ =~= l0.slots@[s as int].queue@
                            .drop_first());
                        assert forall|i: int|
                            0 <= i < l0.slots@.len() implies (#[trigger] self.slots@[i]).queue@
                            == (
                        if contains_bytes(dv.take(j as int + 1), l0.slots@[i].key@) {
                            l0.slots@[i].queue@.drop_first()
                        } else {
                            l0.slots@[i].queue@
                        }) by {
                            assert(dv.take(j as int + 1) =~= dv.take(j as int).push(k));
                            let ck = l0.slots@[i].key@;
                            if i != s as int {
                                assert(self.slots@[i].queue@ == pre.slots@[i].queue@);
                                if contains_bytes(dv.take(j as int + 1), ck) && ck != k {
                                    assert(contains_bytes(dv.take(j as int), ck));
                                }
                                if ck == k {
                                    assert(l0.slots@[i].key@ == l0.slots@[s as int].key@);
                                    assert(i == s as int);
                                }
                                if contains_bytes(dv.take(j as int), ck) {
                                    assert(contains_bytes(dv.take(j as int + 1), ck));
                                }
                            } else {
                                assert(dv.take(j as int + 1)[j as int] == k);
                                assert(contains_bytes(dv.take(j as int + 1), k));
                            }
                        }
                        assert forall|i: int|
                            0 <= i < self.slots@.len() implies distinct_cids(
                            (#[trigger] self.slots@[i]).queue@,
                        ) by {
                            assert(distinct_cids(l0.slots@[i].queue@));
                            if self.slots@[i].queue@ == l0.slots@[i].queue@.drop_first() {
                                assert forall|p: int, r: int|
                                    0 <= p < r < self.slots@[i].queue@.len() implies self.slots@[i].queue@[p] != self.slots@[i].queue@[r] by {
                                    assert(l0.slots@[i].queue@[p + 1] != l0.slots@[i].queue@[r
                                        + 1]);
                                }
                            }
                        }
                        if has_next {
                            assert(self.slots@[s as int].queue@[0] == l0.slots@[s as int].queue@[1]);
                            assert(next == l0.queue_of(k)[1]);
                            assert(l0.queue_of(k).len() >= 2);
                            assert(woken@ == wpre.push(next));
                        } else {
                            assert(l0.queue_of(k).len() == 1);
                            assert(woken@ == wpre);
                        }
                        assert forall|w: u64| woken@.contains(w) implies exists|t: int|
                            0 <= t < j + 1 && l0.queue_of(#[trigger] dv[t]).len() >= 2
                                && l0.queue_of(dv[t])[1] == w by {
                            let p = choose|p: int| 0 <= p < woken@.len() && woken@[p] == w;
                            if has_next && p == wpre.len() {
                                assert(w == next);
                                assert(l0.queue_of(dv[j as int]).len() >= 2);
                                assert(l0.queue_of(dv[j as int])[1] == w);
                            } else {
                                assert(wpre[p] == w);
                                assert(wpre.contains(w));
                            }
                        }
                        assert forall|t: int|
                            0 <= t < j + 1 && l0.queue_of(#[trigger] dv[t]).len() >= 2 implies
                            woken@.contains(l0.queue_of(dv[t])[1]) by {
                            let w = l0.queue_of(dv[t])[1];
                            if t < j {
                                assert(wpre.contains(w));
                                let p = choose|p: int| 0 <= p < wpre.len() && wpre[p] == w;
                                assert(woken@[p] == w);
                            } else {
                                assert(l0.queue_of(k).len() >= 2);
                                assert(has_next);
                                assert(woken@[wpre.len() as int] == next);
                            }
                        }
                    }
                }
                None => {
                    proof {
                        assert(l0.has_slot(k));
                        let s0 = l0.slot_of(k);
                        assert(self.slots@[s0].key@ == k);
                        assert(false);
                    }
                }
            }
            j = j + 1;
        }
        proof {
            assert(dv.take(n as int) =~= dv);
            // `cid` is gone from every queue.
            assert forall|i: int|
                0 <= i < self.slots@.len() implies !(#[trigger] self.slots@[i].queue@).contains(
                cid,
            ) by {
                let ck = l0.slots@[i].key@;
                if contains_bytes(dv, ck) {
                    assert(l0.holds(cid, ck));
                    l0.lemma_slot_unique(ck, i);
                    assert(l0.slots@[i].queue@[0] == cid);
                    assert(distinct_cids(l0.slots@[i].queue@));
                    if self.slots@[i].queue@.contains(cid) {
                        let p = choose|p: int|
                            0 <= p < self.slots@[i].queue@.len() && self.slots@[i].queue@[p]
                                == cid;
                        assert(l0.slots@[i].queue@[p + 1] == cid);
                        assert(l0.slots@[i].queue@[0] == l0.slots@[i].queue@[p + 1]);
                        assert(false);
                    }
                } else {
                    if l0.slots@[i].queue@.contains(cid) {
                        assert(contains_bytes(dv, ck));
                        assert(false);
                    }
                }
            }
        }
        woken
    }
}

/// No command id occurs twice in `q`.
pub open spec fn distinct_cids(q: Seq<u64>) -> bool {
    forall|p: int, r: int| 0 <= p < r < q.len() ==> q[p] != q[r]
}

/// Every queue is strictly increasing.  Command ids are handed out in
/// submission order and a fresh command is only ever appended at the
/// back, so each queue lists its waiters oldest first; releases pop
/// fronts and keep the order.
pub open spec fn queues_increasing(l: Latches) -> bool {
    forall|i: int, p: int, r: int|
        #![trigger l.slots[i].queue@[p], l.slots[i].queue@[r]]
        0 <= i < l.slots.len() && 0 <= p < r < l.slots[i].queue@.len()
            ==> l.slots[i].queue@[p] < l.slots[i].queue@[r]
}

/// Every queued command id lies below `b`: no command submitted at or
/// after `b` waits anywhere yet.
pub open spec fn queues_below(l: Latches, b: u64) -> bool {
    forall|i: int, p: int|
        #![trigger l.slots[i].queue@[p]]
        0 <= i < l.slots.len() && 0 <= p < l.slots[i].queue@.len() ==> l.slots[i].queue@[p] < b
}

/// Appending a fresh command id above everything queued keeps the
/// queues in submission order, and keeps every bound above that id.
pub proof fn lemma_acquire_keeps_order(pre: Latches, post: Latches, cid: u64, keys: Seq<Seq<u8>>)
    requires
        queues_increasing(pre),
        queues_below(pre, cid),
        pre.slots@.len() <= post.slots@.len(),
        forall|i: int|
            0 <= i < pre.slots@.len() ==> (#[trigger] post.slots@[i]).queue@ == (
            if contains_bytes(keys, pre.slots@[i].key@) {
                pre.slots@[i].queue@.push(cid)
            } else {
                pre.slots@[i].queue@
            }),
        forall|i: int|
            pre.slots@.len() <= i < post.slots@.len() ==> (#[trigger] post.slots@[i]).queue@
                == seq![cid],
    ensures
        queues_increasing(post),
        forall|b: u64| cid < b ==> queues_below(post, b),
{
    assert forall|i: int, p: int, r: int|
        #![trigger post.slots@[i].queue@[p], post.slots@[i].queue@[r]]
        0 <= i < post.slots@.len() && 0 <= p < r < post.slots@[i].queue@.len() implies post.slots@[
        i].queue@[p] < post.slots@[i].queue@[r] by {
        if i < pre.slots@.len() {
            let q0 = pre.slots@[i].queue@;
            if post.slots@[i].queue@ == q0.push(cid) {
                if r < q0.len() {
                    assert(q0[p] < q0[r]);
                } else {
                    assert(post.slots@[i].queue@[p] == q0[p]);
                    assert(q0[p] < cid);
                }
            } else {
                assert(q0[p] < q0[r]);
            }
        }
    }
    assert forall|b: u64| cid < b implies queues_below(post, b) by {
        assert forall|i: int, p: int|
            #![trigger post.slots@[i].queue@[p]]
            0 <= i < post.slots@.len() && 0 <= p < post.slots@[i].queue@.len() implies post.slots@[
            i].queue@[p] < b by {
            if i < pre.slots@.len() {
                let q0 = pre.slots@[i].queue@;
                if post.slots@[i].queue@ == q0.push(cid) {
                    if p < q0.len() {
                        assert(q0[p] < cid);
                    }
                } else {
                    assert(q0[p] < cid);
                }
            }
        }
    }
}

/// Popping the fronts of a command's queues keeps the queues in
/// submission order and keeps every bound.
pub proof fn lemma_release_keeps_order(pre: Latches, post: Latches, keys: Seq<Seq<u8>>, b: u64)
    requires
        queues_increasing(pre),
        queues_below(pre, b),
        post.slots@.len() == pre.slots@.len(),
        forall|i: int|
            0 <= i < pre.slots@.len() && contains_bytes(keys, (#[trigger] pre.slots@[i]).key@)
                ==> pre.slots@[i].queue@.len() > 0,
        forall|i: int|
            0 <= i < pre.slots@.len() ==> (#[trigger] post.slots@[i]).queue@ == (
            if contains_bytes(keys, pre.slots@[i].key@) {
                pre.slots@[i].queue@.drop_first()
            } else {
                pre.slots@[i].queue@
            }),
    ensures
        queues_increasing(post),
        queues_below(post, b),
{
    assert forall|i: int, p: int, r: int|
        #![trigger post.slots@[i].queue@[p], post.slots@[i].queue@[r]]
        0 <= i < post.slots@.len() && 0 <= p < r < post.slots@[i].queue@.len() implies post.slots@[
        i].queue@[p] < post.slots@[i].queue@[r] by {
        let q0 = pre.slots@[i].queue@;
        if contains_bytes(keys, pre.slots@[i].key@) {
            assert(q0.len() > 0);
            assert(post.slots@[i].queue@ == q0.drop_first());
            assert(q0[p + 1] < q0[r + 1]);
        } else {
            assert(post.slots@[i].queue@ == q0);
            assert(q0[p] < q0[r]);
        }
    }
    assert forall|i: int, p: int|
        #![trigger post.slots@[i].queue@[p]]
        0 <= i < post.slots@.len() && 0 <= p < post.slots@[i].queue@.len() implies post.slots@[
        i].queue@[p] < b by {
        let q0 = pre.slots@[i].queue@;
        if contains_bytes(keys, pre.slots@[i].key@) {
            assert(q0.len() > 0);
            assert(post.slots@[i].queue@ == q0.drop_first());
            assert(q0[p + 1] < b);
        } else {
            assert(post.slots@[i].queue@ == q0);
            assert(q0[p] < b);
        }
    }
}

/// Ordering of conflicting commands: once the later of two commands
/// sharing a key holds that key's latch, the earlier one is gone from
/// its queue — it completed and released before the later one could
/// begin.  Together with `lemma_conflicting_commands_exclusive`, this
/// is the serialization guarantee: commands sharing a key run one
/// after the other, in submission order, never interleaved.
pub proof fn lemma_earlier_conflicting_command_released(
    l: Latches,
    c1: u64,
    c2: u64,
    k: Seq<u8>,
)
    requires
        l.wf(),
        queues_increasing(l),
        c1 < c2,
        l.holds(c2, k),
    ensures
        !l.in_queue(c1, k),
{
    if l.in_queue(c1, k) {
        let q = l.queue_of(k);
        let p = choose|p: int| 0 <= p < q.len() && q[p] == c1;
        assert(q[0] == c2);
        if p > 0 {
            let s = l.slot_of(k);
            assert(l.slots@[s].queue@[0] < l.slots@[s].queue@[p]);
        }
    }
}

/// Two commands that both hold the latch of a shared key are the same
/// command: conflicting commands are never ready at the same time.
/// This is the mutual-exclusion half of the ordering guarantee for
/// commands whose key sets overlap.
pub proof fn lemma_conflicting_commands_exclusive(
    l: Latches,
    c1: u64,
    c2: u64,
    ks1: Seq<Seq<u8>>,
    ks2: Seq<Seq<u8>>,
    k: Seq<u8>,
)
    requires
        l.wf(),
        l.granted_all(c1, ks1),
        l.granted_all(c2, ks2),
        contains_bytes(ks1, k),
        contains_bytes(ks2, k),
    ensures
        c1 == c2,
{
    let i1 = choose|i: int| 0 <= i < ks1.len() && ks1[i] == k;
    let i2 = choose|i: int| 0 <= i < ks2.len() && ks2[i] == k;
    assert(l.holds(c1, ks1[i1]));
    assert(l.holds(c2, ks2[i2]));
    assert(l.queue_of(k)[0] == c1);
    assert(l.queue_of(k)[0] == c2);
}

/// A command whose key set is disjoint from the keys of every occupied
/// latch is not blocked: all of its latches are free, so submitting it
/// acquires them immediately.  Commands with disjoint key sets are
/// never artificially serialized.
pub proof fn lemma_disjoint_keys_not_blocked(
    l: Latches,
    ks_busy: Seq<Seq<u8>>,
    ks_new: Seq<Seq<u8>>,
)
    requires
        l.wf(),
        l.occupied_only(ks_busy),
        disjoint_keys(ks_busy, ks_new),
    ensures
        l.free_for(ks_new),
{
    assert forall|i: int| 0 <= i < ks_new.len() implies l.queue_of(
        #[trigger] ks_new[i],
    ).len() == 0 by {
        let k = ks_new[i];
        if l.has_slot(k) {
            let s = l.slot_of(k);
            if l.slots[s].queue@.len() > 0 {
                assert(contains_bytes(ks_busy, l.slots[s].key@));
                assert(contains_bytes(ks_new, k));
            }
        }
    }
}

} // verus!
