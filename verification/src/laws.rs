//! Laws of the MVCC executor that span several operations.

use vstd::prelude::*;

use crate::latch::contains_bytes;
use crate::mvcc::commit_applied;
use crate::mvcc::commit_outcome;
use crate::mvcc::find_by_start_ts;
use crate::mvcc::locked_at;
use crate::mvcc::mutation_short;
use crate::mvcc::prewrite_applied;
use crate::mvcc::seek_visible;
use crate::mvcc::spec_insert_write;
use crate::mvcc::CommitCase;
use crate::mvcc::MvccStore;
use crate::mvcc::WriteEntry;
use crate::types::Mutation;
use crate::types::WriteKind;

verus! {

/// A history holding no record of `ts` gains exactly the inserted
/// entry as its record of `ts`.
proof fn lemma_find_insert(ws: Seq<WriteEntry>, e: WriteEntry, ts: u64)
    requires
        find_by_start_ts(ws, ts) is None,
        e.start_ts == ts,
    ensures
        find_by_start_ts(spec_insert_write(ws, e), ts) == Some(e),
    decreases ws.len(),
{
    if ws.len() == 0 {
        assert(spec_insert_write(ws, e) == seq![e]);
        assert(spec_insert_write(ws, e)[0] == e);
    } else if e.commit_ts > ws[0].commit_ts {
        assert(spec_insert_write(ws, e) == seq![e] + ws);
        assert((seq![e] + ws)[0] == e);
    } else {
        assert(ws[0].start_ts != ts);
        lemma_find_insert(ws.drop_first(), e, ts);
        let r = seq![ws[0]] + spec_insert_write(ws.drop_first(), e);
        assert(spec_insert_write(ws, e) == r);
        assert(r[0] == ws[0]);
        assert(r.drop_first() =~= spec_insert_write(ws.drop_first(), e));
    }
}

/// Law: committing is idempotent.  After a commit of the transaction
/// starting at `start_ts` succeeded on a batch of keys, re-submitting
/// the same commit succeeds again and changes nothing — never a
/// conflict — provided the history held no earlier record of the
/// transaction (the timestamp oracle guarantees a fresh transaction
/// leaves at most one record per key).
pub proof fn lemma_commit_idempotent(
    pre: MvccStore,
    mid: MvccStore,
    post: MvccStore,
    ks: Seq<Seq<u8>>,
    start_ts: u64,
    commit_ts: u64,
    r2: Result<(), crate::types::TxnError>,
)
    requires
        pre.wf(),
        forall|t: int|
            0 <= t < ks.len() ==> find_by_start_ts(pre.writes_of(#[trigger] ks[t]), start_ts)
                is None,
        commit_outcome(pre, mid, ks, start_ts, commit_ts, Ok(())),
        commit_outcome(mid, post, ks, start_ts, commit_ts, r2),
    ensures
        r2 is Ok,
        forall|t: int| 0 <= t < ks.len() ==> mid.same_key(post, #[trigger] ks[t]),
{
    assert forall|t: int| 0 <= t < ks.len() implies mid.commit_case(#[trigger] ks[t], start_ts)
        == CommitCase::SkipCommitted by {
        let k = ks[t];
        assert(pre.commit_case(k, start_ts) != CommitCase::RolledBack);
        assert(commit_applied(pre, mid, k, start_ts, commit_ts));
        match pre.commit_case(k, start_ts) {
            CommitCase::DoCommit => {
                let l = pre.lock_of(k)->Some_0;
                let e = choose|e: WriteEntry|
                    crate::mvcc::entry_matches(
                        e,
                        commit_ts,
                        start_ts,
                        l.kind,
                        match l.short_value {
                            Some(v) => Some(v@),
                            None => None,
                        },
                    ) && mid.writes_of(k) == spec_insert_write(pre.writes_of(k), e);
                lemma_find_insert(pre.writes_of(k), e, start_ts);
                assert(find_by_start_ts(mid.writes_of(k), start_ts) == Some(e));
                assert(e.kind != WriteKind::Rollback) by {
                    assert(pre.has_key(k));
                    let i = pre.idx_of(k);
                    assert(pre.entries@[i].k_wf());
                    assert(pre.entries@[i].lock == Some(l));
                }
                assert(mid.lock_of(k) is None);
            },
            CommitCase::SkipCommitted => {
                assert(mid.same_key(pre, k)) by {
                    assert(pre.same_key(mid, k));
                }
            },
            CommitCase::RolledBack => {
                assert(false);
            },
        }
    }
    assert forall|t: int| 0 <= t < ks.len() implies mid.commit_case(#[trigger] ks[t], start_ts)
        != CommitCase::RolledBack by {}
    assert(r2 is Ok);
    assert forall|t: int| 0 <= t < ks.len() implies mid.same_key(post, #[trigger] ks[t]) by {
        assert(commit_applied(mid, post, ks[t], start_ts, commit_ts));
    }
}

/// Law: two prewrites of distinct transactions sharing a key never
/// both succeed.  Once the first transaction's prewrite went through,
/// its lock sits on the shared key, and a prewrite of any other
/// transaction touching that key fails with a conflict while the lock
/// stands.
pub proof fn lemma_conflicting_prewrites_exclusive(
    pre: MvccStore,
    mid: MvccStore,
    post: MvccStore,
    muts1: Seq<Mutation>,
    muts2: Seq<Mutation>,
    primary1: Seq<u8>,
    primary2: Seq<u8>,
    ts1: u64,
    ts2: u64,
    ttl1: u64,
    ttl2: u64,
    k: Seq<u8>,
    r2: Result<(), crate::types::TxnError>,
)
    requires
        ts1 != ts2,
        contains_bytes(crate::mvcc::keys_of_mutations(muts1), k),
        contains_bytes(crate::mvcc::keys_of_mutations(muts2), k),
        crate::mvcc::prewrite_outcome(pre, mid, muts1, primary1, ts1, ttl1, Ok(())),
        crate::mvcc::prewrite_outcome(mid, post, muts2, primary2, ts2, ttl2, r2),
    ensures
        r2 is Err,
{
    let ks1 = crate::mvcc::keys_of_mutations(muts1);
    let t1 = choose|t: int| 0 <= t < ks1.len() && ks1[t] == k;
    assert(muts1[t1].spec_key() == k);
    assert(!pre.prewrite_conflicts(muts1[t1].spec_key(), ts1));
    assert(prewrite_applied(pre, mid, muts1[t1], primary1, ts1, ttl1));
    // the shared key now carries the first transaction's lock
    assert(match mid.lock_of(k) {
        Some(l) => l.start_ts == ts1,
        None => false,
    }) by {
        match pre.lock_of(k) {
            Some(l) => {
                assert(l.start_ts == ts1);
                assert(pre.same_key(mid, k));
            },
            None => {
                assert(match mid.lock_of(k) {
                    Some(l2) => crate::mvcc::lock_matches(
                        l2,
                        primary1,
                        ts1,
                        ttl1,
                        crate::mvcc::mutation_kind(muts1[t1]),
                        mutation_short(muts1[t1]),
                    ),
                    None => false,
                });
            },
        }
    }
    // so the second transaction's prewrite of that key conflicts
    assert(mid.prewrite_conflicts(k, ts2));
    let ks2 = crate::mvcc::keys_of_mutations(muts2);
    let t2 = choose|t: int| 0 <= t < ks2.len() && ks2[t] == k;
    assert(muts2[t2].spec_key() == k);
    if r2 is Ok {
        assert(!mid.prewrite_conflicts(muts2[t2].spec_key(), ts2));
        assert(false);
    }
}

/// Law: boundary of commit.  Where a key carries no lock of the
/// transaction and its history shows a rollback marker at the
/// transaction's start timestamp, a commit of that key fails with a
/// conflict — it never succeeds.
pub proof fn lemma_commit_after_rollback_fails(
    pre: MvccStore,
    post: MvccStore,
    ks: Seq<Seq<u8>>,
    t: int,
    start_ts: u64,
    commit_ts: u64,
    r: Result<(), crate::types::TxnError>,
)
    requires
        0 <= t < ks.len(),
        !locked_at(pre.lock_of(ks[t]), start_ts),
        find_by_start_ts(pre.writes_of(ks[t]), start_ts) is Some,
        find_by_start_ts(pre.writes_of(ks[t]), start_ts)->Some_0.kind == WriteKind::Rollback,
        commit_outcome(pre, post, ks, start_ts, commit_ts, r),
    ensures
        r is Err,
        post == pre,
{
    assert(pre.commit_case(ks[t], start_ts) == CommitCase::RolledBack);
    if r is Ok {
        assert(pre.commit_case(ks[t], start_ts) != CommitCase::RolledBack);
    }
}

/// Law: round trip.  On a key with no prior state, a prewrite of
/// value `v` at `start_ts` followed by a commit at `commit_ts` makes a
/// read at any timestamp at or after `commit_ts` return `v`, while a
/// read at any timestamp before `commit_ts` still finds nothing.
pub proof fn lemma_prewrite_commit_read(
    pre: MvccStore,
    mid: MvccStore,
    post: MvccStore,
    m: Mutation,
    primary: Seq<u8>,
    start_ts: u64,
    ttl: u64,
    commit_ts: u64,
    ts_after: u64,
    ts_before: u64,
)
    requires
        m is Put,
        pre.lock_of(m.spec_key()) is None,
        pre.writes_of(m.spec_key()).len() == 0,
        pre.defaults_of(m.spec_key()).len() == 0,
        prewrite_applied(pre, mid, m, primary, start_ts, ttl),
        mid.commit_case(m.spec_key(), start_ts) == CommitCase::DoCommit,
        commit_applied(mid, post, m.spec_key(), start_ts, commit_ts),
        commit_ts <= ts_after,
        ts_before < commit_ts,
        post.has_key(m.spec_key()),
    ensures
        !post.read_blocked(m.spec_key(), ts_after),
        post.read_value(m.spec_key(), ts_after) == Some(crate::mvcc::mutation_value(m)),
        post.read_value(m.spec_key(), ts_before) is None,
{
    let k = m.spec_key();
    let l = mid.lock_of(k)->Some_0;
    assert(mid.writes_of(k) == pre.writes_of(k));
    let e = choose|e: WriteEntry|
        crate::mvcc::entry_matches(
            e,
            commit_ts,
            start_ts,
            l.kind,
            match l.short_value {
                Some(v) => Some(v@),
                None => None,
            },
        ) && post.writes_of(k) == spec_insert_write(mid.writes_of(k), e);
    assert(post.writes_of(k) == seq![e]) by {
        assert(mid.writes_of(k).len() == 0);
        assert(spec_insert_write(mid.writes_of(k), e) == seq![e]);
    }
    assert(post.lock_of(k) is None);
    assert(seek_visible(post.writes_of(k), ts_after) == Some(e)) by {
        assert(post.writes_of(k)[0] == e);
        assert(e.commit_ts <= ts_after);
        assert(e.kind != WriteKind::Rollback);
    }
    assert(seek_visible(post.writes_of(k), ts_before) is None) by {
        assert(post.writes_of(k)[0].commit_ts > ts_before);
        assert(post.writes_of(k).drop_first() =~= Seq::<WriteEntry>::empty());
        assert(post.writes_of(k).drop_first() == Seq::<WriteEntry>::empty());
        assert(seek_visible(Seq::<WriteEntry>::empty(), ts_before) is None);
    }
    assert(e.kind == WriteKind::Put);
    let i = post.idx_of(k);
    match e.short_value {
        Some(v) => {
            assert(v@ == crate::mvcc::mutation_value(m)) by {
                assert(crate::mvcc::lock_matches(
                    l,
                    primary,
                    start_ts,
                    ttl,
                    crate::mvcc::mutation_kind(m),
                    mutation_short(m),
                ));
            }
            assert(post.entries@[i].value_of_entry(e) == v@);
        },
        None => {
            assert(match l.short_value {
                Some(_) => false,
                None => true,
            });
            assert(mutation_short(m) is None);
            assert(crate::mvcc::mutation_is_long(m));
            let d = choose|d: crate::mvcc::DefaultEntry|
                d.start_ts == start_ts && d.value@ == crate::mvcc::mutation_value(m)
                    && mid.defaults_of(k) == pre.defaults_of(k).push(d);
            assert(post.defaults_of(k) == mid.defaults_of(k));
            assert(post.defaults_of(k) =~= seq![d]);
            assert(post.entries@[i].defaults@ == post.defaults_of(k));
            assert(post.entries@[i].defaults@[0].start_ts == start_ts);
            assert(post.entries@[i].has_default(start_ts));
            let c = choose|c: int|
                0 <= c < post.entries@[i].defaults@.len() && post.entries@[i].defaults@[c].start_ts
                    == start_ts;
            assert(c == 0);
            assert(post.entries@[i].default_value(start_ts) == d.value@);
            assert(post.entries@[i].value_of_entry(e) == crate::mvcc::mutation_value(m));
        },
    }
}

} // verus!
