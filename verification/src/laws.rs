//! The store's laws: what holds of every well-formed store, stated over the
//! engine's mathematical shape and proved once and for all. The operations'
//! own contracts say that each call performs `spec_put`, `spec_remove` or
//! `spec_get` on the store's view, so these laws carry over to any sequence
//! of calls.

use crate::codec::{spec_encode_tx, tx_encodable, TxView};
use crate::replay::replay_dir;
use crate::store::{
    can_accept_write, seg_at, sort_segs, spec_get, spec_put, spec_remove, starts_new_segment,
    view_wf, write_target, StoreView,
};
use vstd::prelude::*;

verus! {

/// Setting a key establishes its value: after `set(k, val)`, `get(k)`
/// returns `val`, and the store stays well formed.
pub proof fn lemma_get_after_set(v: StoreView, k: Seq<char>, val: Seq<char>)
    requires
        view_wf(v),
        can_accept_write(v),
        tx_encodable(TxView::Put { key: k, value: val }),
    ensures
        view_wf(spec_put(v, k, val)),
        spec_get(spec_put(v, k, val), k) == Some(val),
{
    crate::store::lemma_spec_put_wf(v, k, val);
}

/// Setting one key never changes what `get` returns for another: together
/// with `lemma_get_after_set` and `lemma_remove_preserves_other`, a key
/// whose last write is `set(k, v)` keeps reading back `v` under any later
/// operations on other keys.
pub proof fn lemma_set_preserves_other(v: StoreView, k: Seq<char>, val: Seq<char>, k2: Seq<char>)
    requires
        view_wf(v),
        can_accept_write(v),
        tx_encodable(TxView::Put { key: k, value: val }),
        k2 != k,
    ensures
        spec_get(spec_put(v, k, val), k2) == spec_get(v, k2),
{
    let t = write_target(v) as u64;
    let enc = spec_encode_tx(TxView::Put { key: k, value: val });
    if v.index.contains_key(k2) {
        let loc = v.index[k2];
        let olddata = seg_at(v.segs, loc.seg).unwrap();
        crate::store::lemma_seg_at_exists(v.segs, loc.seg);
        let i = choose|i: int|
            0 <= i < v.segs.len() && (#[trigger] v.segs[i]).0 == loc.seg && v.segs[i].1 == olddata;
        if starts_new_segment(v) {
            if v.segs.len() > 0 && i < v.segs.len() - 1 {
                assert(v.segs[i].0 < v.segs.last().0);
            }
            assert(loc.seg != t);
            crate::store::lemma_seg_at_push(v.segs, (t, enc), loc.seg);
        } else {
            crate::store::lemma_seg_at_update_last(v.segs, v.segs.last().1 + enc, loc.seg);
            if loc.seg == t {
                crate::codec::lemma_decode_extend(olddata, enc, loc.off);
            }
        }
    }
}

/// Removing one key never changes what `get` returns for another.
pub proof fn lemma_remove_preserves_other(v: StoreView, k: Seq<char>, k2: Seq<char>)
    requires
        view_wf(v),
        can_accept_write(v),
        v.index.contains_key(k),
        tx_encodable(TxView::Remove { key: k }),
        k2 != k,
    ensures
        spec_get(spec_remove(v, k), k2) == spec_get(v, k2),
{
    let t = write_target(v) as u64;
    let enc = spec_encode_tx(TxView::Remove { key: k });
    if v.index.contains_key(k2) {
        let loc = v.index[k2];
        let olddata = seg_at(v.segs, loc.seg).unwrap();
        crate::store::lemma_seg_at_exists(v.segs, loc.seg);
        let i = choose|i: int|
            0 <= i < v.segs.len() && (#[trigger] v.segs[i]).0 == loc.seg && v.segs[i].1 == olddata;
        if starts_new_segment(v) {
            if v.segs.len() > 0 && i < v.segs.len() - 1 {
                assert(v.segs[i].0 < v.segs.last().0);
            }
            assert(loc.seg != t);
            crate::store::lemma_seg_at_push(v.segs, (t, enc), loc.seg);
        } else {
            crate::store::lemma_seg_at_update_last(v.segs, v.segs.last().1 + enc, loc.seg);
            if loc.seg == t {
                crate::codec::lemma_decode_extend(olddata, enc, loc.off);
            }
        }
    }
}

/// One store operation, for stating laws over whole histories.
pub ghost enum Op {
    Put { key: Seq<char>, value: Seq<char> },
    Remove { key: Seq<char> },
}

/// The store after one operation: a `set` always writes; a `remove` of an
/// absent key reports `KeyNotFound` and changes nothing.
pub open spec fn apply_op(v: StoreView, op: Op) -> StoreView {
    match op {
        Op::Put { key, value } => spec_put(v, key, value),
        Op::Remove { key } => if v.index.contains_key(key) {
            spec_remove(v, key)
        } else {
            v
        },
    }
}

/// The store after a whole run of operations, applied in order.
pub open spec fn apply_ops(v: StoreView, ops: Seq<Op>) -> StoreView
    decreases ops.len(),
{
    if ops.len() == 0 {
        v
    } else {
        apply_ops(apply_op(v, ops.first()), ops.drop_first())
    }
}

/// Whether a run of operations can be issued from this store: each step's
/// strings fit their length prefixes and its write target fits a segment
/// id. Every run a program can issue satisfies this.
pub open spec fn ops_admissible(v: StoreView, ops: Seq<Op>) -> bool
    decreases ops.len(),
{
    ops.len() > 0 ==> {
        &&& can_accept_write(v)
        &&& match ops.first() {
            Op::Put { key, value } => tx_encodable(TxView::Put { key, value }),
            Op::Remove { key } => tx_encodable(TxView::Remove { key }),
        }
        &&& ops_admissible(apply_op(v, ops.first()), ops.drop_first())
    }
}

/// Whether an operation reads or writes this key.
pub open spec fn op_touches(op: Op, k: Seq<char>) -> bool {
    match op {
        Op::Put { key, value } => key == k,
        Op::Remove { key } => key == k,
    }
}

/// A run of operations that never touches `k` — in particular one with no
/// `remove(k)` — leaves `get(k)` unchanged. With `lemma_get_after_set`:
/// after `set(k, v)`, as long as no later operation touches `k`, `get(k)`
/// keeps returning `v`.
pub proof fn lemma_untouched_key_keeps_value(v: StoreView, ops: Seq<Op>, k: Seq<char>)
    requires
        view_wf(v),
        ops_admissible(v, ops),
        forall|i: int| 0 <= i < ops.len() ==> !op_touches(#[trigger] ops[i], k),
    ensures
        view_wf(apply_ops(v, ops)),
        spec_get(apply_ops(v, ops), k) == spec_get(v, k),
    decreases ops.len(),
{
    if ops.len() > 0 {
        let v1 = apply_op(v, ops.first());
        assert(!op_touches(ops[0], k));
        match ops.first() {
            Op::Put { key, value } => {
                crate::store::lemma_spec_put_wf(v, key, value);
                lemma_set_preserves_other(v, key, value, k);
            },
            Op::Remove { key } => {
                if v.index.contains_key(key) {
                    crate::store::lemma_spec_remove_wf(v, key);
                    lemma_remove_preserves_other(v, key, k);
                }
            },
        }
        assert forall|i: int| 0 <= i < ops.drop_first().len() implies !op_touches(
            #[trigger] ops.drop_first()[i],
            k,
        ) by {
            assert(ops.drop_first()[i] == ops[i + 1]);
        }
        lemma_untouched_key_keeps_value(v1, ops.drop_first(), k);
    }
}

/// Overwriting a key: after `set(k, v1)` then `set(k, v2)`, `get(k)`
/// returns `v2`, and the stale count of the segment holding `v1`'s record
/// rises by exactly one at the second write.
pub proof fn lemma_overwrite(v: StoreView, k: Seq<char>, v1: Seq<char>, v2: Seq<char>)
    requires
        view_wf(v),
        can_accept_write(v),
        tx_encodable(TxView::Put { key: k, value: v1 }),
        tx_encodable(TxView::Put { key: k, value: v2 }),
        can_accept_write(spec_put(v, k, v1)),
    ensures
        ({
            let s1 = spec_put(v, k, v1);
            let s2 = spec_put(s1, k, v2);
            &&& view_wf(s1)
            &&& view_wf(s2)
            &&& spec_get(s1, k) == Some(v1)
            &&& spec_get(s2, k) == Some(v2)
            &&& s1.stale.contains_key(s1.index[k].seg)
            &&& s2.stale[s1.index[k].seg] == s1.stale[s1.index[k].seg] + 1
        }),
{
    crate::store::lemma_spec_put_wf(v, k, v1);
    let s1 = spec_put(v, k, v1);
    crate::store::lemma_spec_put_wf(s1, k, v2);
    let t1 = s1.index[k].seg;
    assert(s1.stale.contains_key(t1));
    let t2 = write_target(s1) as u64;
    assert(crate::replay::know_seg(s1.stale, t2)[t1] == s1.stale[t1]);
}

/// Removal semantics: a removed key reads back as absent and its entry is
/// gone, so a second `remove` of the same key finds it absent; and an
/// absent key already reads back as absent. (The operation itself reports
/// `KeyNotFound` exactly on absent keys.)
pub proof fn lemma_remove_semantics(v: StoreView, k: Seq<char>)
    requires
        view_wf(v),
        can_accept_write(v),
        tx_encodable(TxView::Remove { key: k }),
    ensures
        v.index.contains_key(k) ==> {
            let s2 = spec_remove(v, k);
            &&& view_wf(s2)
            &&& spec_get(s2, k) is None
            &&& !s2.index.contains_key(k)
        },
        !v.index.contains_key(k) ==> spec_get(v, k) is None,
{
    if v.index.contains_key(k) {
        crate::store::lemma_spec_remove_wf(v, k);
    }
}

/// Replay determinism: reopening the segments of a well-formed store — in
/// whatever order a directory might list them, here already ascending —
/// rebuilds exactly its index and stale counts, with every byte committed.
pub proof fn lemma_replay_deterministic(v: StoreView)
    requires
        view_wf(v),
    ensures
        replay_dir(sort_segs(v.segs)) matches Some(p) && p.0 == v.segs && p.1.index == v.index
            && p.1.stale == v.stale,
{
    crate::store::lemma_sort_sorted_identity(v.segs);
    let st = crate::replay::ReplayState { index: v.index, stale: v.stale };
    crate::replay::lemma_replay_exact_dir(v.segs, st);
}

/// Truncation tolerance: a partial trailing record appended to the last
/// segment is not corruption — reopening the segments succeeds, drops the
/// partial bytes, and rebuilds the same index and stale counts.
pub proof fn lemma_truncation_tolerant(v: StoreView, t: TxView, p: Seq<u8>)
    requires
        view_wf(v),
        v.segs.len() > 0,
        tx_encodable(t),
        p.len() < spec_encode_tx(t).len(),
        p =~= spec_encode_tx(t).subrange(0, p.len() as int),
    ensures
        ({
            let dirty = v.segs.update(v.segs.len() - 1, (v.segs.last().0, v.segs.last().1 + p));
            replay_dir(sort_segs(dirty)) matches Some(q) && q.0 == v.segs && q.1.index == v.index
                && q.1.stale == v.stale
        }),
{
    let st = crate::replay::ReplayState { index: v.index, stale: v.stale };
    let dirty = v.segs.update(v.segs.len() - 1, (v.segs.last().0, v.segs.last().1 + p));
    assert forall|i: int, j: int| 0 <= i < j < dirty.len() implies (#[trigger] dirty[i]).0 < (
    #[trigger] dirty[j]).0 by {
        assert(dirty[i].0 == v.segs[i].0 && dirty[j].0 == v.segs[j].0);
    }
    crate::store::lemma_sort_sorted_identity(dirty);
    crate::replay::lemma_replay_dir_partial_tail(v.segs, st, t, p);
}

/// Rollover: once the active segment has reached the threshold, `set`
/// creates the segment with the next id, and the key resolves through it.
pub proof fn lemma_rollover(v: StoreView, k: Seq<char>, val: Seq<char>)
    requires
        view_wf(v),
        v.segs.len() > 0,
        v.segs.last().1.len() >= v.threshold,
        v.segs.last().0 < u64::MAX,
        tx_encodable(TxView::Put { key: k, value: val }),
    ensures
        ({
            let s2 = spec_put(v, k, val);
            &&& view_wf(s2)
            &&& s2.segs.len() == v.segs.len() + 1
            &&& s2.segs.last().0 == v.segs.last().0 + 1
            &&& s2.index[k] == (crate::replay::LocV { seg: (v.segs.last().0 + 1) as u64, off: 0 })
            &&& spec_get(s2, k) == Some(val)
        }),
{
    crate::store::lemma_spec_put_wf(v, k, val);
}

} // verus!
