//! The storage engine: segment management, the in-memory index, replay at
//! open time, and the read/write/remove protocols that keep index and log
//! consistent.
//!
//! The engine owns the committed bytes of every segment. A front end keeps
//! those bytes durable: it hands `open` the segments read from a directory,
//! and mirrors the [`Append`] returned by each mutating call to the file
//! named by its segment id.

use crate::codec::{
    decode_at, decode_transaction, encode_transaction, spec_encode_tx, tx_encodable, DecodeResult,
    DecodeV, Transaction, TxView,
};
use crate::replay::{
    apply_tx, bump, know_seg, lemma_replay_exact_extend, lemma_replay_exact_push,
    lemma_replay_ids_known, replay_dir, replay_exact, scan_from, scan_seg, LocV, ReplayState,
};
use vstd::prelude::*;

verus! {

/// What can go wrong: a failed file operation (reported by the front end,
/// never by the engine itself), a log that does not decode, a `remove` of an
/// absent key, and an index that disagrees with the log.
#[derive(Clone, Copy, Debug, PartialEq, Eq, Structural)]
pub enum Error {
    IoFailure,
    CorruptLog,
    KeyNotFound,
    InternalInconsistency,
}

impl Error {
    /// A short description of the error.
    pub fn message(&self) -> (r: &'static str)
        ensures
            r@ == match self {
                Error::IoFailure => "file operation failed"@,
                Error::CorruptLog => "corrupt log"@,
                Error::KeyNotFound => "Key not found"@,
                Error::InternalInconsistency => "index and log have diverged"@,
            },
    {
        match self {
            Error::IoFailure => "file operation failed",
            Error::CorruptLog => "corrupt log",
            Error::KeyNotFound => "Key not found",
            Error::InternalInconsistency => "index and log have diverged",
        }
    }
}

/// One segment as read from the directory: its numeric id (the file's base
/// name) and its byte contents.
pub struct Segment {
    pub id: u64,
    pub data: Vec<u8>,
}

impl View for Segment {
    type V = (u64, Seq<u8>);

    open spec fn view(&self) -> (u64, Seq<u8>) {
        (self.id, self.data@)
    }
}

/// What one mutating call appended to the log, for the front end to mirror
/// to disk: the target segment id, whether that segment was just created,
/// the byte offset the record begins at, and the record's bytes.
pub struct Append {
    pub seg_id: u64,
    pub new_segment: bool,
    pub offset: usize,
    pub bytes: Vec<u8>,
}

/// One segment held by the engine: id, committed bytes, and the count of its
/// records superseded by later writes.
struct SegmentRec {
    id: u64,
    data: Vec<u8>,
    stale: u64,
}

/// One index entry: a key and the location of its most recent live `Put`.
struct IndexEntry {
    key: String,
    seg: u64,
    off: usize,
}

/// The engine's mathematical shape: the committed segments in ascending id
/// order, the index as a map, the stale counts as a map, and the rollover
/// threshold in bytes.
pub ghost struct StoreView {
    pub segs: Seq<(u64, Seq<u8>)>,
    pub index: Map<Seq<char>, LocV>,
    pub stale: Map<u64, int>,
    pub threshold: int,
}

/// The key-value store: an append-only segmented log with an in-memory
/// index from key to record location and per-segment stale counts.
pub struct KvStore {
    segs: Vec<SegmentRec>,
    entries: Vec<IndexEntry>,
    threshold: usize,
}

spec fn seg_pairs(s: Seq<SegmentRec>) -> Seq<(u64, Seq<u8>)> {
    s.map_values(|r: SegmentRec| (r.id, r.data@))
}

spec fn stale_map_of(s: Seq<SegmentRec>) -> Map<u64, int>
    decreases s.len(),
{
    if s.len() == 0 {
        Map::empty()
    } else {
        stale_map_of(s.drop_last()).insert(s.last().id, s.last().stale as int)
    }
}

spec fn entry_loc(e: IndexEntry) -> LocV {
    LocV { seg: e.seg, off: e.off as int }
}

spec fn assoc_map(e: Seq<IndexEntry>) -> Map<Seq<char>, LocV>
    decreases e.len(),
{
    if e.len() == 0 {
        Map::empty()
    } else {
        assoc_map(e.drop_last()).insert(e.last().key@, entry_loc(e.last()))
    }
}

spec fn unique_keys(e: Seq<IndexEntry>) -> bool {
    forall|i: int, j: int|
        0 <= i < j < e.len() ==> (#[trigger] e[i]).key@ != (#[trigger] e[j]).key@
}

spec fn count_loc(e: Seq<IndexEntry>, id: u64) -> int
    decreases e.len(),
{
    if e.len() == 0 {
        0
    } else {
        count_loc(e.drop_last(), id) + if e.last().seg == id {
            1int
        } else {
            0int
        }
    }
}

/// Every stale count is backed by distinct superseded records of at least
/// nine bytes each, alongside the records the live index entries point at;
/// this keeps the counts far below their machine bound.
spec fn stale_bounded(s: Seq<SegmentRec>, e: Seq<IndexEntry>) -> bool {
    forall|i: int|
        0 <= i < s.len() ==> 9 * ((#[trigger] s[i]).stale + count_loc(e, s[i].id)) <= s[i].data@.len()
}

/// Find the index entry holding this key, if any.
fn find_entry_in(entries: &Vec<IndexEntry>, key: &String) -> (r: Option<usize>)
    requires
        unique_keys(entries@),
    ensures
        match r {
            Some(i) => i < entries@.len() && entries@[i as int].key@ == key@,
            None => !assoc_map(entries@).contains_key(key@),
        },
{
    let n = entries.len();
    let mut i: usize = 0;
    while i < n
        invariant
            i <= n,
            n == entries@.len(),
            unique_keys(entries@),
            forall|j: int| 0 <= j < i ==> (#[trigger] entries@[j]).key@ != key@,
        decreases n - i,
    {
        if entries[i].key == *key {
            return Some(i);
        }
        i = i + 1;
    }
    proof {
        lemma_assoc_properties(entries@);
    }
    None
}

/// Find the segment record with this id, if any.
fn find_seg_in(segs: &Vec<SegmentRec>, id: u64) -> (r: Option<usize>)
    ensures
        match r {
            Some(j) => j < segs@.len() && segs@[j as int].id == id,
            None => forall|j: int| 0 <= j < segs@.len() ==> (#[trigger] segs@[j]).id != id,
        },
{
    let n = segs.len();
    let mut j: usize = 0;
    while j < n
        invariant
            j <= n,
            n == segs@.len(),
            forall|i: int| 0 <= i < j ==> (#[trigger] segs@[i]).id != id,
        decreases n - j,
    {
        if segs[j].id == id {
            return Some(j);
        }
        j = j + 1;
    }
    None
}

impl View for KvStore {
    type V = StoreView;

    closed spec fn view(&self) -> StoreView {
        StoreView {
            segs: seg_pairs(self.segs@),
            index: assoc_map(self.entries@),
            stale: stale_map_of(self.segs@),
            threshold: self.threshold as int,
        }
    }
}

/// The data of the segment with the given id, if one exists.
pub open spec fn seg_at(segs: Seq<(u64, Seq<u8>)>, id: u64) -> Option<Seq<u8>>
    decreases segs.len(),
{
    if segs.len() == 0 {
        None
    } else if segs.last().0 == id {
        Some(segs.last().1)
    } else {
        seg_at(segs.drop_last(), id)
    }
}

/// Segment ids strictly increase in creation order.
pub open spec fn ids_ascending(segs: Seq<(u64, Seq<u8>)>) -> bool {
    forall|i: int, j: int|
        0 <= i < j < segs.len() ==> (#[trigger] segs[i]).0 < (#[trigger] segs[j]).0
}

/// Every index entry resolves, within an existing segment, to a byte offset
/// that decodes to a `Put` record for that very key.
pub open spec fn index_ok(v: StoreView) -> bool {
    forall|k: Seq<char>|
        #[trigger] v.index.contains_key(k) ==> {
            let loc = v.index[k];
            &&& 0 <= loc.off
            &&& seg_at(v.segs, loc.seg) is Some
            &&& (decode_at(seg_at(v.segs, loc.seg).unwrap(), loc.off) matches DecodeV::Record {
                tx: TxView::Put { key, value },
                next,
            } && key == k)
        }
}

/// Well-formedness of the engine's shape: segments strictly ascending by
/// id, index and stale counts exactly what replaying the committed segments
/// yields, and every index entry pointing at a live `Put` record.
pub open spec fn view_wf(v: StoreView) -> bool {
    &&& ids_ascending(v.segs)
    &&& replay_exact(v.segs) == Some(ReplayState { index: v.index, stale: v.stale })
    &&& index_ok(v)
    &&& 0 <= v.threshold <= usize::MAX
}

/// The id of the highest segment currently known, 0 if none exist.
pub open spec fn active_id(v: StoreView) -> u64 {
    if v.segs.len() == 0 {
        0
    } else {
        v.segs.last().0
    }
}

/// Whether the next write opens a new segment: there is none yet, or the
/// active one has reached the rollover threshold.
pub open spec fn starts_new_segment(v: StoreView) -> bool {
    v.segs.len() == 0 || v.segs.last().1.len() >= v.threshold
}

/// The id of the segment the next write lands in.
pub open spec fn write_target(v: StoreView) -> int {
    if starts_new_segment(v) {
        active_id(v) + if v.segs.len() == 0 {
            0int
        } else {
            1int
        }
    } else {
        active_id(v) as int
    }
}

/// The next write's target id fits a u64. Only an engine whose active
/// segment already has the largest possible id can violate this.
pub open spec fn can_accept_write(v: StoreView) -> bool {
    write_target(v) <= u64::MAX
}

/// The byte offset the next record begins at inside its target segment.
pub open spec fn write_offset(v: StoreView) -> int {
    if starts_new_segment(v) {
        0
    } else {
        v.segs.last().1.len() as int
    }
}

/// The segments after appending one encoded record to the write target.
pub open spec fn append_record(v: StoreView, tx: TxView) -> Seq<(u64, Seq<u8>)> {
    let t = write_target(v) as u64;
    if starts_new_segment(v) {
        v.segs.push((t, spec_encode_tx(tx)))
    } else {
        v.segs.update(v.segs.len() - 1, (t, v.segs.last().1 + spec_encode_tx(tx)))
    }
}

/// The store after `set(k, val)`: a `Put` record appended to the write
/// target, the index entry for `k` moved there, the stale count of the
/// segment holding `k`'s previous record (if any) raised by one, and the
/// target id known to the stale counts.
pub open spec fn spec_put(v: StoreView, k: Seq<char>, val: Seq<char>) -> StoreView {
    let t = write_target(v) as u64;
    let known = know_seg(v.stale, t);
    StoreView {
        segs: append_record(v, TxView::Put { key: k, value: val }),
        index: v.index.insert(k, LocV { seg: t, off: write_offset(v) }),
        stale: if v.index.contains_key(k) {
            bump(known, v.index[k].seg)
        } else {
            known
        },
        threshold: v.threshold,
    }
}

/// The store after `remove(k)` of a present key: a `Remove` record appended
/// through the same target selection as `set`, the entry deleted, and the
/// stale count of the segment holding `k`'s record raised by one.
pub open spec fn spec_remove(v: StoreView, k: Seq<char>) -> StoreView {
    let t = write_target(v) as u64;
    StoreView {
        segs: append_record(v, TxView::Remove { key: k }),
        index: v.index.remove(k),
        stale: bump(know_seg(v.stale, t), v.index[k].seg),
        threshold: v.threshold,
    }
}

/// What `get(k)` returns: nothing for an absent key, else the value of the
/// `Put` record the index points at.
pub open spec fn spec_get(v: StoreView, k: Seq<char>) -> Option<Seq<char>> {
    if !v.index.contains_key(k) {
        None
    } else {
        match seg_at(v.segs, v.index[k].seg) {
            Some(data) => match decode_at(data, v.index[k].off) {
                DecodeV::Record { tx: TxView::Put { key, value }, next } => Some(value),
                _ => None,
            },
            None => None,
        }
    }
}

proof fn lemma_assoc_properties(e: Seq<IndexEntry>)
    requires
        unique_keys(e),
    ensures
        forall|i: int|
            0 <= i < e.len() ==> assoc_map(e).contains_key((#[trigger] e[i]).key@) && assoc_map(
                e,
            )[e[i].key@] == entry_loc(e[i]),
        forall|k: Seq<char>|
            #[trigger] assoc_map(e).contains_key(k) ==> exists|i: int|
                0 <= i < e.len() && (#[trigger] e[i]).key@ == k,
    decreases e.len(),
{
    if e.len() == 0 {
    } else {
        let n = e.len() as int;
        lemma_assoc_properties(e.drop_last());
        assert forall|i: int|
            0 <= i < e.len() implies assoc_map(e).contains_key((#[trigger] e[i]).key@)
            && assoc_map(e)[e[i].key@] == entry_loc(e[i]) by {
            if i < n - 1 {
                assert(e.drop_last()[i] == e[i]);
                assert(e[i].key@ != e.last().key@);
            }
        }
        assert forall|k: Seq<char>| #[trigger] assoc_map(e).contains_key(k) implies exists|i: int|
            0 <= i < e.len() && (#[trigger] e[i]).key@ == k by {
            if k == e.last().key@ {
                assert((e[n - 1]).key@ == k);
            } else {
                assert(assoc_map(e.drop_last()).contains_key(k));
                let i = choose|i: int|
                    0 <= i < e.drop_last().len() && (#[trigger] e.drop_last()[i]).key@ == k;
                assert((e[i]).key@ == k);
            }
        }
    }
}

proof fn lemma_assoc_update(e: Seq<IndexEntry>, i: int, x: IndexEntry)
    requires
        unique_keys(e),
        0 <= i < e.len(),
        x.key@ == e[i].key@,
    ensures
        assoc_map(e.update(i, x)) == assoc_map(e).insert(x.key@, entry_loc(x)),
        unique_keys(e.update(i, x)),
    decreases e.len(),
{
    let n = e.len() as int;
    if i == n - 1 {
        assert(e.update(i, x).drop_last() =~= e.drop_last());
        assert(e.update(i, x).last() == x);
        assert(assoc_map(e.update(i, x)) =~= assoc_map(e).insert(x.key@, entry_loc(x)));
    } else {
        lemma_assoc_update(e.drop_last(), i, x);
        assert(e.update(i, x).drop_last() =~= e.drop_last().update(i, x));
        assert(e.update(i, x).last() == e.last());
        assert(e.last().key@ != x.key@);
        assert(assoc_map(e.update(i, x)) =~= assoc_map(e).insert(x.key@, entry_loc(x)));
    }
    assert forall|a: int, b: int| 0 <= a < b < e.len() implies (#[trigger] e.update(i, x)[a]).key@
        != (#[trigger] e.update(i, x)[b]).key@ by {
        assert(e.update(i, x)[a].key@ == e[a].key@);
        assert(e.update(i, x)[b].key@ == e[b].key@);
    }
}

proof fn lemma_assoc_push(e: Seq<IndexEntry>, x: IndexEntry)
    requires
        unique_keys(e),
        forall|i: int| 0 <= i < e.len() ==> (#[trigger] e[i]).key@ != x.key@,
    ensures
        assoc_map(e.push(x)) == assoc_map(e).insert(x.key@, entry_loc(x)),
        unique_keys(e.push(x)),
{
    assert(e.push(x).drop_last() =~= e);
    assert(e.push(x).last() == x);
    assert forall|a: int, b: int| 0 <= a < b < e.push(x).len() implies (#[trigger] e.push(
        x,
    )[a]).key@ != (#[trigger] e.push(x)[b]).key@ by {
        if b < e.len() as int {
            assert(e.push(x)[a] == e[a] && e.push(x)[b] == e[b]);
        } else {
            assert(e.push(x)[a] == e[a] && e.push(x)[b] == x);
        }
    }
}

proof fn lemma_assoc_remove(e: Seq<IndexEntry>, i: int)
    requires
        unique_keys(e),
        0 <= i < e.len(),
    ensures
        assoc_map(e.remove(i)) == assoc_map(e).remove(e[i].key@),
        unique_keys(e.remove(i)),
    decreases e.len(),
{
    let n = e.len() as int;
    let k = e[i].key@;
    if i == n - 1 {
        assert(e.remove(i) =~= e.drop_last());
        lemma_assoc_properties(e.drop_last());
        if assoc_map(e.drop_last()).contains_key(k) {
            let j = choose|j: int|
                0 <= j < e.drop_last().len() && (#[trigger] e.drop_last()[j]).key@ == k;
            assert(e[j].key@ == e[i].key@);
            assert(false);
        }
        assert(assoc_map(e.drop_last()) =~= assoc_map(e).remove(k));
    } else {
        lemma_assoc_remove(e.drop_last(), i);
        assert(e.remove(i).drop_last() =~= e.drop_last().remove(i));
        assert(e.remove(i).last() == e.last());
        assert(e.last().key@ != k);
        assert(assoc_map(e.remove(i)) =~= assoc_map(e).remove(k));
    }
    assert forall|a: int, b: int| 0 <= a < b < e.remove(i).len() implies (#[trigger] e.remove(
        i,
    )[a]).key@ != (#[trigger] e.remove(i)[b]).key@ by {
        let a0 = if a < i {
            a
        } else {
            a + 1
        };
        let b0 = if b < i {
            b
        } else {
            b + 1
        };
        assert(e.remove(i)[a] == e[a0] && e.remove(i)[b] == e[b0]);
    }
}

proof fn lemma_count_nonneg(e: Seq<IndexEntry>, id: u64)
    ensures
        count_loc(e, id) >= 0,
    decreases e.len(),
{
    if e.len() > 0 {
        lemma_count_nonneg(e.drop_last(), id);
    }
}

proof fn lemma_count_update(e: Seq<IndexEntry>, i: int, x: IndexEntry, id: u64)
    requires
        0 <= i < e.len(),
    ensures
        count_loc(e.update(i, x), id) == count_loc(e, id) - (if e[i].seg == id {
            1int
        } else {
            0int
        }) + (if x.seg == id {
            1int
        } else {
            0int
        }),
    decreases e.len(),
{
    let n = e.len() as int;
    if i == n - 1 {
        assert(e.update(i, x).drop_last() =~= e.drop_last());
    } else {
        lemma_count_update(e.drop_last(), i, x, id);
        assert(e.update(i, x).drop_last() =~= e.drop_last().update(i, x));
        assert(e.update(i, x).last() == e.last());
    }
}

proof fn lemma_count_push(e: Seq<IndexEntry>, x: IndexEntry, id: u64)
    ensures
        count_loc(e.push(x), id) == count_loc(e, id) + (if x.seg == id {
            1int
        } else {
            0int
        }),
{
    assert(e.push(x).drop_last() =~= e);
}

proof fn lemma_count_remove(e: Seq<IndexEntry>, i: int, id: u64)
    requires
        0 <= i < e.len(),
    ensures
        count_loc(e.remove(i), id) == count_loc(e, id) - (if e[i].seg == id {
            1int
        } else {
            0int
        }),
    decreases e.len(),
{
    let n = e.len() as int;
    if i == n - 1 {
        assert(e.remove(i) =~= e.drop_last());
    } else {
        lemma_count_remove(e.drop_last(), i, id);
        assert(e.remove(i).drop_last() =~= e.drop_last().remove(i));
        assert(e.remove(i).last() == e.last());
    }
}

proof fn lemma_count_exists(e: Seq<IndexEntry>, id: u64)
    requires
        count_loc(e, id) > 0,
    ensures
        exists|i: int| 0 <= i < e.len() && (#[trigger] e[i]).seg == id,
    decreases e.len(),
{
    if e.len() > 0 {
        if e.last().seg == id {
            assert((e[e.len() - 1]).seg == id);
        } else {
            lemma_count_exists(e.drop_last(), id);
            let i = choose|i: int|
                0 <= i < e.drop_last().len() && (#[trigger] e.drop_last()[i]).seg == id;
            assert((e[i]).seg == id);
        }
    }
}

spec fn distinct_rec_ids(s: Seq<SegmentRec>) -> bool {
    forall|i: int, j: int| 0 <= i < j < s.len() ==> (#[trigger] s[i]).id != (#[trigger] s[j]).id
}

proof fn lemma_stale_map_props(s: Seq<SegmentRec>)
    requires
        distinct_rec_ids(s),
    ensures
        forall|i: int|
            0 <= i < s.len() ==> stale_map_of(s).contains_key((#[trigger] s[i]).id)
                && stale_map_of(s)[s[i].id] == s[i].stale as int,
        forall|q: u64|
            #[trigger] stale_map_of(s).contains_key(q) ==> exists|i: int|
                0 <= i < s.len() && (#[trigger] s[i]).id == q,
    decreases s.len(),
{
    if s.len() == 0 {
    } else {
        let n = s.len() as int;
        lemma_stale_map_props(s.drop_last());
        assert forall|i: int|
            0 <= i < s.len() implies stale_map_of(s).contains_key((#[trigger] s[i]).id)
            && stale_map_of(s)[s[i].id] == s[i].stale as int by {
            if i < n - 1 {
                assert(s.drop_last()[i] == s[i]);
                assert(s[i].id != s.last().id);
            }
        }
        assert forall|q: u64| #[trigger] stale_map_of(s).contains_key(q) implies exists|i: int|
            0 <= i < s.len() && (#[trigger] s[i]).id == q by {
            if q == s.last().id {
                assert((s[n - 1]).id == q);
            } else {
                let i = choose|i: int|
                    0 <= i < s.drop_last().len() && (#[trigger] s.drop_last()[i]).id == q;
                assert((s[i]).id == q);
            }
        }
    }
}

proof fn lemma_stale_map_update(s: Seq<SegmentRec>, i: int, r: SegmentRec)
    requires
        distinct_rec_ids(s),
        0 <= i < s.len(),
        r.id == s[i].id,
    ensures
        stale_map_of(s.update(i, r)) == stale_map_of(s).insert(r.id, r.stale as int),
    decreases s.len(),
{
    let n = s.len() as int;
    if i == n - 1 {
        assert(s.update(i, r).drop_last() =~= s.drop_last());
        assert(s.update(i, r).last() == r);
        assert(stale_map_of(s.update(i, r)) =~= stale_map_of(s).insert(r.id, r.stale as int));
    } else {
        lemma_stale_map_update(s.drop_last(), i, r);
        assert(s.update(i, r).drop_last() =~= s.drop_last().update(i, r));
        assert(s.update(i, r).last() == s.last());
        assert(s.last().id != r.id);
        assert(stale_map_of(s.update(i, r)) =~= stale_map_of(s).insert(r.id, r.stale as int));
    }
}

proof fn lemma_stale_map_push(s: Seq<SegmentRec>, r: SegmentRec)
    ensures
        stale_map_of(s.push(r)) == stale_map_of(s).insert(r.id, r.stale as int),
{
    assert(s.push(r).drop_last() =~= s);
    assert(s.push(r).last() == r);
}

proof fn lemma_seg_at_index(segs: Seq<(u64, Seq<u8>)>, i: int)
    requires
        0 <= i < segs.len(),
        forall|j: int| i < j < segs.len() ==> (#[trigger] segs[j]).0 != segs[i].0,
    ensures
        seg_at(segs, segs[i].0) == Some(segs[i].1),
    decreases segs.len(),
{
    let n = segs.len() as int;
    if i == n - 1 {
    } else {
        assert(segs.last().0 != segs[i].0);
        lemma_seg_at_index(segs.drop_last(), i);
        assert(segs.drop_last()[i] == segs[i]);
    }
}

proof fn lemma_seg_at_none(segs: Seq<(u64, Seq<u8>)>, q: u64)
    requires
        forall|i: int| 0 <= i < segs.len() ==> (#[trigger] segs[i]).0 != q,
    ensures
        seg_at(segs, q) is None,
    decreases segs.len(),
{
    if segs.len() > 0 {
        lemma_seg_at_none(segs.drop_last(), q);
    }
}

pub proof fn lemma_seg_at_exists(segs: Seq<(u64, Seq<u8>)>, q: u64)
    requires
        seg_at(segs, q) is Some,
    ensures
        exists|i: int|
            0 <= i < segs.len() && (#[trigger] segs[i]).0 == q && segs[i].1 == seg_at(
                segs,
                q,
            ).unwrap(),
    decreases segs.len(),
{
    let n = segs.len() as int;
    if segs.last().0 == q {
        assert((segs[n - 1]).0 == q && segs[n - 1].1 == seg_at(segs, q).unwrap());
    } else {
        lemma_seg_at_exists(segs.drop_last(), q);
        let i = choose|i: int|
            0 <= i < segs.drop_last().len() && (#[trigger] segs.drop_last()[i]).0 == q
                && segs.drop_last()[i].1 == seg_at(segs.drop_last(), q).unwrap();
        assert((segs[i]).0 == q && segs[i].1 == seg_at(segs, q).unwrap());
    }
}

pub proof fn lemma_seg_at_push(segs: Seq<(u64, Seq<u8>)>, x: (u64, Seq<u8>), q: u64)
    ensures
        seg_at(segs.push(x), q) == if q == x.0 {
            Some(x.1)
        } else {
            seg_at(segs, q)
        },
{
    assert(segs.push(x).drop_last() =~= segs);
    assert(segs.push(x).last() == x);
}

pub proof fn lemma_seg_at_update_last(segs: Seq<(u64, Seq<u8>)>, d2: Seq<u8>, q: u64)
    requires
        segs.len() > 0,
    ensures
        seg_at(segs.update(segs.len() - 1, (segs.last().0, d2)), q) == if q == segs.last().0 {
            Some(d2)
        } else {
            seg_at(segs, q)
        },
{
    let upd = segs.update(segs.len() - 1, (segs.last().0, d2));
    assert(upd.drop_last() =~= segs.drop_last());
    assert(upd.last() == (segs.last().0, d2));
}

/// Insert one segment into a run already in ascending id order.
pub open spec fn insert_sorted(x: (u64, Seq<u8>), s: Seq<(u64, Seq<u8>)>) -> Seq<(u64, Seq<u8>)>
    decreases s.len(),
{
    if s.len() == 0 {
        seq![x]
    } else if x.0 >= s.last().0 {
        s.push(x)
    } else {
        insert_sorted(x, s.drop_last()).push(s.last())
    }
}

/// A directory's segments in ascending id order.
pub open spec fn sort_segs(s: Seq<(u64, Seq<u8>)>) -> Seq<(u64, Seq<u8>)>
    decreases s.len(),
{
    if s.len() == 0 {
        s
    } else {
        insert_sorted(s.last(), sort_segs(s.drop_last()))
    }
}

/// The views of a run of segments.
pub open spec fn segment_views(s: Seq<Segment>) -> Seq<(u64, Seq<u8>)> {
    s.map_values(|x: Segment| x@)
}

/// Whether some segment of the run has this id.
pub open spec fn run_has_id(s: Seq<(u64, Seq<u8>)>, q: u64) -> bool {
    exists|i: int| 0 <= i < s.len() && (#[trigger] s[i]).0 == q
}

proof fn lemma_insert_sorted_props(x: (u64, Seq<u8>), s: Seq<(u64, Seq<u8>)>)
    requires
        ids_ascending(s),
        !run_has_id(s, x.0),
    ensures
        ids_ascending(insert_sorted(x, s)),
        insert_sorted(x, s).len() == s.len() + 1,
        forall|q: u64|
            #[trigger] run_has_id(insert_sorted(x, s), q) <==> run_has_id(s, q) || q == x.0,
    decreases s.len(),
{
    let out = insert_sorted(x, s);
    if s.len() == 0 {
        assert forall|q: u64| #[trigger] run_has_id(out, q) implies run_has_id(s, q) || q
            == x.0 by {
            let i = choose|i: int| 0 <= i < out.len() && (#[trigger] out[i]).0 == q;
            assert(out[i] == x);
        }
        assert(run_has_id(out, x.0)) by {
            assert(out[0].0 == x.0);
        }
    } else if x.0 >= s.last().0 {
        assert(x.0 > s.last().0) by {
            if x.0 == s.last().0 {
                assert((s[s.len() - 1]).0 == x.0);
            }
        }
        assert forall|i: int, j: int| 0 <= i < j < out.len() implies (#[trigger] out[i]).0
            < (#[trigger] out[j]).0 by {
            if j < s.len() as int {
                assert(out[i] == s[i] && out[j] == s[j]);
            } else {
                assert(out[i] == s[i] && out[j] == x);
                if i < s.len() - 1 {
                    assert(s[i].0 < s.last().0);
                }
            }
        }
        assert forall|q: u64| #[trigger] run_has_id(out, q) implies run_has_id(s, q) || q
            == x.0 by {
            let i = choose|i: int| 0 <= i < out.len() && (#[trigger] out[i]).0 == q;
            if i < s.len() as int {
                assert(s[i].0 == q);
            }
        }
        assert forall|q: u64| run_has_id(s, q) || q == x.0 implies #[trigger] run_has_id(
            out,
            q,
        ) by {
            if q == x.0 {
                assert(out[s.len() as int].0 == q);
            } else {
                let i = choose|i: int| 0 <= i < s.len() && (#[trigger] s[i]).0 == q;
                assert(out[i].0 == q);
            }
        }
    } else {
        assert(ids_ascending(s.drop_last())) by {
            assert forall|i: int, j: int|
                0 <= i < j < s.drop_last().len() implies (#[trigger] s.drop_last()[i]).0
                < (#[trigger] s.drop_last()[j]).0 by {
                assert(s.drop_last()[i] == s[i] && s.drop_last()[j] == s[j]);
            }
        }
        assert(!run_has_id(s.drop_last(), x.0)) by {
            if run_has_id(s.drop_last(), x.0) {
                let i = choose|i: int|
                    0 <= i < s.drop_last().len() && (#[trigger] s.drop_last()[i]).0 == x.0;
                assert((s[i]).0 == x.0);
            }
        }
        lemma_insert_sorted_props(x, s.drop_last());
        let inner = insert_sorted(x, s.drop_last());
        assert forall|i: int, j: int| 0 <= i < j < out.len() implies (#[trigger] out[i]).0
            < (#[trigger] out[j]).0 by {
            if j < inner.len() as int {
                assert(out[i] == inner[i] && out[j] == inner[j]);
            } else {
                assert(out[i] == inner[i] && out[j] == s.last());
                assert(run_has_id(inner, inner[i].0)) by {
                    assert((inner[i]).0 == inner[i].0);
                }
                if run_has_id(s.drop_last(), inner[i].0) {
                    let w = choose|w: int|
                        0 <= w < s.drop_last().len() && (#[trigger] s.drop_last()[w]).0
                            == inner[i].0;
                    assert(s[w].0 < s.last().0);
                } else {
                    assert(inner[i].0 == x.0);
                }
            }
        }
        assert forall|q: u64| #[trigger] run_has_id(out, q) implies run_has_id(s, q) || q
            == x.0 by {
            let i = choose|i: int| 0 <= i < out.len() && (#[trigger] out[i]).0 == q;
            if i < inner.len() as int {
                assert(run_has_id(inner, q)) by {
                    assert((inner[i]).0 == q);
                }
                if run_has_id(s.drop_last(), q) {
                    let w = choose|w: int|
                        0 <= w < s.drop_last().len() && (#[trigger] s.drop_last()[w]).0 == q;
                    assert((s[w]).0 == q);
                }
            } else {
                assert(out[i] == s.last());
                assert((s[s.len() - 1]).0 == q);
            }
        }
        assert forall|q: u64| run_has_id(s, q) || q == x.0 implies #[trigger] run_has_id(
            out,
            q,
        ) by {
            if q == x.0 || run_has_id(s.drop_last(), q) {
                assert(run_has_id(inner, q));
                let w = choose|w: int| 0 <= w < inner.len() && (#[trigger] inner[w]).0 == q;
                assert((out[w]).0 == q);
            } else {
                let i = choose|i: int| 0 <= i < s.len() && (#[trigger] s[i]).0 == q;
                if i < s.len() - 1 {
                    assert((s.drop_last()[i]).0 == q);
                    assert(false);
                }
                assert(out[out.len() - 1] == s.last());
                assert((out[out.len() - 1]).0 == q);
            }
        }
    }
}

proof fn lemma_sort_props(s: Seq<(u64, Seq<u8>)>)
    requires
        forall|i: int, j: int| 0 <= i < j < s.len() ==> (#[trigger] s[i]).0 != (#[trigger] s[j]).0,
    ensures
        ids_ascending(sort_segs(s)),
        sort_segs(s).len() == s.len(),
        forall|q: u64| #[trigger] run_has_id(sort_segs(s), q) <==> run_has_id(s, q),
    decreases s.len(),
{
    if s.len() == 0 {
        assert forall|q: u64| #[trigger] run_has_id(sort_segs(s), q) implies run_has_id(s, q) by {}
    } else {
        assert forall|i: int, j: int|
            0 <= i < j < s.drop_last().len() implies (#[trigger] s.drop_last()[i]).0 != (
            #[trigger] s.drop_last()[j]).0 by {
            assert(s.drop_last()[i] == s[i] && s.drop_last()[j] == s[j]);
        }
        lemma_sort_props(s.drop_last());
        let inner = sort_segs(s.drop_last());
        assert(!run_has_id(inner, s.last().0)) by {
            if run_has_id(inner, s.last().0) {
                assert(run_has_id(s.drop_last(), s.last().0));
                let i = choose|i: int|
                    0 <= i < s.drop_last().len() && (#[trigger] s.drop_last()[i]).0 == s.last().0;
                assert((s[i]).0 == (s[s.len() - 1]).0);
                assert(false);
            }
        }
        lemma_insert_sorted_props(s.last(), inner);
        assert forall|q: u64| #[trigger] run_has_id(sort_segs(s), q) implies run_has_id(s, q) by {
            if run_has_id(s.drop_last(), q) {
                let i = choose|i: int|
                    0 <= i < s.drop_last().len() && (#[trigger] s.drop_last()[i]).0 == q;
                assert((s[i]).0 == q);
            } else {
                assert(q == s.last().0);
                assert((s[s.len() - 1]).0 == q);
            }
        }
        assert forall|q: u64| run_has_id(s, q) implies #[trigger] run_has_id(sort_segs(s), q) by {
            let i = choose|i: int| 0 <= i < s.len() && (#[trigger] s[i]).0 == q;
            if i < s.len() - 1 {
                assert((s.drop_last()[i]).0 == q);
                assert(run_has_id(s.drop_last(), q));
            }
        }
    }
}

/// Sorting a run already in ascending id order changes nothing.
pub proof fn lemma_sort_sorted_identity(s: Seq<(u64, Seq<u8>)>)
    requires
        ids_ascending(s),
    ensures
        sort_segs(s) == s,
    decreases s.len(),
{
    if s.len() == 0 {
    } else {
        assert forall|i: int, j: int|
            0 <= i < j < s.drop_last().len() implies (#[trigger] s.drop_last()[i]).0
            < (#[trigger] s.drop_last()[j]).0 by {
            assert(s.drop_last()[i] == s[i] && s.drop_last()[j] == s[j]);
        }
        lemma_sort_sorted_identity(s.drop_last());
        if s.len() == 1 {
            assert(sort_segs(s) =~= s);
        } else {
            assert((s[s.len() - 2]).0 < (s[s.len() - 1]).0);
            assert(s.last().0 >= s.drop_last().last().0);
            assert(sort_segs(s) =~= s.drop_last().push(s.last()));
            assert(s.drop_last().push(s.last()) =~= s);
        }
    }
}

/// Insert one segment into a vector already in ascending id order.
fn insert_seg(v: &mut Vec<Segment>, x: Segment)
    ensures
        segment_views(final(v)@) == insert_sorted(x@, segment_views(old(v)@)),
    decreases old(v)@.len(),
{
    let n = v.len();
    if n == 0 {
        v.push(x);
        proof {
            assert(segment_views(v@) =~= insert_sorted(v@[0]@, segment_views(old(v)@)));
        }
    } else if x.id >= v[n - 1].id {
        proof {
            assert(segment_views(old(v)@).last() == old(v)@[n - 1]@);
        }
        v.push(x);
        proof {
            assert(segment_views(v@) =~= segment_views(old(v)@).push(v@[n as int]@));
        }
    } else {
        let last = match v.pop() {
            Some(s) => s,
            None => {
                proof {
                    assert(false);
                }
                return ;
            },
        };
        proof {
            assert(segment_views(v@) =~= segment_views(old(v)@).drop_last());
            assert(last@ == segment_views(old(v)@).last());
        }
        insert_seg(v, x);
        let ghost mid = v@;
        v.push(last);
        proof {
            assert(segment_views(v@) =~= segment_views(mid).push(last@));
        }
    }
}

/// Bring a directory's segments into ascending id order before replay.
fn sort_segments(input: Vec<Segment>) -> (r: Vec<Segment>)
    ensures
        segment_views(r@) == sort_segs(segment_views(input@)),
    decreases input@.len(),
{
    let ghost iv = segment_views(input@);
    let mut inp = input;
    if inp.len() == 0 {
        inp
    } else {
        let x = match inp.pop() {
            Some(s) => s,
            None => {
                proof {
                    assert(false);
                }
                return inp;
            },
        };
        proof {
            assert(segment_views(inp@) =~= iv.drop_last());
            assert(x@ == iv.last());
        }
        let mut r = sort_segments(inp);
        insert_seg(&mut r, x);
        r
    }
}

/// `set` preserves the shape invariant, its index entry resolves to the
/// value just written, and replaying the grown log yields exactly the new
/// index and stale counts.
pub proof fn lemma_spec_put_wf(v: StoreView, k: Seq<char>, val: Seq<char>)
    requires
        view_wf(v),
        can_accept_write(v),
        tx_encodable(TxView::Put { key: k, value: val }),
    ensures
        view_wf(spec_put(v, k, val)),
        spec_get(spec_put(v, k, val), k) == Some(val),
{
    let tx = TxView::Put { key: k, value: val };
    let t = write_target(v) as u64;
    let off = write_offset(v);
    let enc = spec_encode_tx(tx);
    let v2 = spec_put(v, k, val);
    let st = ReplayState { index: v.index, stale: v.stale };
    let newdata = if starts_new_segment(v) {
        enc
    } else {
        v.segs.last().1 + enc
    };
    if starts_new_segment(v) {
        assert forall|i: int, j: int| 0 <= i < j < v2.segs.len() implies (#[trigger] v2.segs[i]).0
            < (#[trigger] v2.segs[j]).0 by {
            if j == v.segs.len() as int {
                assert(v2.segs[i] == v.segs[i]);
                if i < v.segs.len() - 1 {
                    assert(v.segs[i].0 < v.segs.last().0);
                }
            } else {
                assert(v2.segs[i] == v.segs[i] && v2.segs[j] == v.segs[j]);
            }
        }
        lemma_replay_exact_push(v.segs, st, t, tx);
        assert(replay_exact(v2.segs) == Some(ReplayState { index: v2.index, stale: v2.stale }));
        lemma_seg_at_push(v.segs, (t, enc), t);
        crate::codec::lemma_decode_encode(Seq::empty(), tx);
        assert(Seq::<u8>::empty() + enc =~= enc);
        assert(decode_at(newdata, off) == (DecodeV::Record { tx, next: enc.len() as int }));
    } else {
        let li = v.segs.len() - 1;
        assert(t == v.segs.last().0);
        assert forall|i: int, j: int| 0 <= i < j < v2.segs.len() implies (#[trigger] v2.segs[i]).0
            < (#[trigger] v2.segs[j]).0 by {
            assert(v2.segs[i].0 == v.segs[i].0 && v2.segs[j].0 == v.segs[j].0);
        }
        lemma_replay_ids_known(v.segs, li);
        assert(v.stale.contains_key(t));
        assert(know_seg(v.stale, t) =~= v.stale);
        lemma_replay_exact_extend(v.segs, st, tx);
        assert(replay_exact(v2.segs) == Some(ReplayState { index: v2.index, stale: v2.stale }));
        lemma_seg_at_update_last(v.segs, newdata, t);
        crate::codec::lemma_decode_encode(v.segs.last().1, tx);
        assert(decode_at(newdata, off) == (DecodeV::Record {
            tx,
            next: v.segs.last().1.len() + enc.len() as int,
        }));
    }
    assert(seg_at(v2.segs, t) == Some(newdata));
    assert forall|k2: Seq<char>| #[trigger] v2.index.contains_key(k2) implies {
        let loc = v2.index[k2];
        &&& 0 <= loc.off
        &&& seg_at(v2.segs, loc.seg) is Some
        &&& (decode_at(seg_at(v2.segs, loc.seg).unwrap(), loc.off) matches DecodeV::Record {
            tx: TxView::Put { key, value },
            next,
        } && key == k2)
    } by {
        if k2 == k {
        } else {
            assert(v.index.contains_key(k2));
            let loc = v.index[k2];
            let olddata = seg_at(v.segs, loc.seg).unwrap();
            lemma_seg_at_exists(v.segs, loc.seg);
            let i = choose|i: int|
                0 <= i < v.segs.len() && (#[trigger] v.segs[i]).0 == loc.seg && v.segs[i].1
                    == olddata;
            if starts_new_segment(v) {
                if v.segs.len() > 0 && i < v.segs.len() - 1 {
                    assert(v.segs[i].0 < v.segs.last().0);
                }
                assert(loc.seg != t);
                lemma_seg_at_push(v.segs, (t, enc), loc.seg);
                assert(seg_at(v2.segs, loc.seg) == Some(olddata));
            } else {
                lemma_seg_at_update_last(v.segs, newdata, loc.seg);
                if loc.seg == t {
                    assert(olddata == v.segs.last().1);
                    crate::codec::lemma_decode_extend(olddata, enc, loc.off);
                    assert(seg_at(v2.segs, loc.seg) == Some(newdata));
                } else {
                    assert(seg_at(v2.segs, loc.seg) == Some(olddata));
                }
            }
        }
    }
    assert(spec_get(v2, k) == Some(val));
}

/// `remove` of a present key preserves the shape invariant: the tombstone
/// goes through the same target selection as `set`, the entry disappears,
/// and replaying the grown log yields exactly the new index and stale
/// counts.
pub proof fn lemma_spec_remove_wf(v: StoreView, k: Seq<char>)
    requires
        view_wf(v),
        can_accept_write(v),
        v.index.contains_key(k),
        tx_encodable(TxView::Remove { key: k }),
    ensures
        view_wf(spec_remove(v, k)),
        spec_get(spec_remove(v, k), k) is None,
{
    let tx = TxView::Remove { key: k };
    let t = write_target(v) as u64;
    let enc = spec_encode_tx(tx);
    let v2 = spec_remove(v, k);
    let st = ReplayState { index: v.index, stale: v.stale };
    let newdata = if starts_new_segment(v) {
        enc
    } else {
        v.segs.last().1 + enc
    };
    if starts_new_segment(v) {
        assert forall|i: int, j: int| 0 <= i < j < v2.segs.len() implies (#[trigger] v2.segs[i]).0
            < (#[trigger] v2.segs[j]).0 by {
            if j == v.segs.len() as int {
                assert(v2.segs[i] == v.segs[i]);
                if i < v.segs.len() - 1 {
                    assert(v.segs[i].0 < v.segs.last().0);
                }
            } else {
                assert(v2.segs[i] == v.segs[i] && v2.segs[j] == v.segs[j]);
            }
        }
        lemma_replay_exact_push(v.segs, st, t, tx);
        assert(replay_exact(v2.segs) == Some(ReplayState { index: v2.index, stale: v2.stale }));
    } else {
        let li = v.segs.len() - 1;
        assert(t == v.segs.last().0);
        assert forall|i: int, j: int| 0 <= i < j < v2.segs.len() implies (#[trigger] v2.segs[i]).0
            < (#[trigger] v2.segs[j]).0 by {
            assert(v2.segs[i].0 == v.segs[i].0 && v2.segs[j].0 == v.segs[j].0);
        }
        lemma_replay_ids_known(v.segs, li);
        assert(v.stale.contains_key(t));
        assert(know_seg(v.stale, t) =~= v.stale);
        lemma_replay_exact_extend(v.segs, st, tx);
        assert(replay_exact(v2.segs) == Some(ReplayState { index: v2.index, stale: v2.stale }));
    }
    assert forall|k2: Seq<char>| #[trigger] v2.index.contains_key(k2) implies {
        let loc = v2.index[k2];
        &&& 0 <= loc.off
        &&& seg_at(v2.segs, loc.seg) is Some
        &&& (decode_at(seg_at(v2.segs, loc.seg).unwrap(), loc.off) matches DecodeV::Record {
            tx: TxView::Put { key, value },
            next,
        } && key == k2)
    } by {
        assert(v.index.contains_key(k2));
        let loc = v.index[k2];
        let olddata = seg_at(v.segs, loc.seg).unwrap();
        lemma_seg_at_exists(v.segs, loc.seg);
        let i = choose|i: int|
            0 <= i < v.segs.len() && (#[trigger] v.segs[i]).0 == loc.seg && v.segs[i].1 == olddata;
        if starts_new_segment(v) {
            if v.segs.len() > 0 && i < v.segs.len() - 1 {
                assert(v.segs[i].0 < v.segs.last().0);
            }
            assert(loc.seg != t);
            lemma_seg_at_push(v.segs, (t, enc), loc.seg);
            assert(seg_at(v2.segs, loc.seg) == Some(olddata));
        } else {
            lemma_seg_at_update_last(v.segs, newdata, loc.seg);
            if loc.seg == t {
                assert(olddata == v.segs.last().1);
                crate::codec::lemma_decode_extend(olddata, enc, loc.off);
                assert(seg_at(v2.segs, loc.seg) == Some(newdata));
            } else {
                assert(seg_at(v2.segs, loc.seg) == Some(olddata));
            }
        }
    }
}

/// Apply one decoded record of the segment being replayed (id `cur_id`,
/// whose stale count is accumulated in `cur_stale`) to the index and the
/// already-replayed segments. The record sits at `pos` and ends at `next`.
fn apply_decoded(
    segs: &mut Vec<SegmentRec>,
    entries: &mut Vec<IndexEntry>,
    cur_stale: &mut u64,
    cur_id: u64,
    t: Transaction,
    pos: usize,
    next: usize,
)
    requires
        unique_keys(old(entries)@),
        stale_bounded(old(segs)@, old(entries)@),
        distinct_rec_ids(old(segs)@),
        forall|i: int| 0 <= i < old(segs)@.len() ==> (#[trigger] old(segs)@[i]).id != cur_id,
        forall|i: int|
            0 <= i < old(entries)@.len() ==> (#[trigger] old(entries)@[i]).seg == cur_id
                || stale_map_of(old(segs)@).contains_key(old(entries)@[i].seg),
        9 * (*old(cur_stale) + count_loc(old(entries)@, cur_id)) <= pos,
        pos + 9 <= next,
    ensures
        ({
            let st_in = ReplayState {
                index: assoc_map(old(entries)@),
                stale: stale_map_of(old(segs)@).insert(cur_id, *old(cur_stale) as int),
            };
            let st_out = apply_tx(st_in, cur_id, pos as int, t@);
            &&& assoc_map(final(entries)@) == st_out.index
            &&& stale_map_of(final(segs)@).insert(cur_id, *final(cur_stale) as int) == st_out.stale
        }),
        unique_keys(final(entries)@),
        stale_bounded(final(segs)@, final(entries)@),
        9 * (*final(cur_stale) + count_loc(final(entries)@, cur_id)) <= next,
        seg_pairs(final(segs)@) == seg_pairs(old(segs)@),
        final(segs)@.len() == old(segs)@.len(),
        forall|i: int|
            0 <= i < final(segs)@.len() ==> (#[trigger] final(segs)@[i]).id == old(segs)@[i].id,
        forall|k2: Seq<char>|
            #[trigger] assoc_map(final(entries)@).contains_key(k2) ==> (assoc_map(
                old(entries)@,
            ).contains_key(k2) && assoc_map(final(entries)@)[k2] == assoc_map(old(entries)@)[k2])
                || assoc_map(final(entries)@)[k2] == (LocV { seg: cur_id, off: pos as int }),
        forall|i: int|
            0 <= i < final(entries)@.len() ==> (#[trigger] final(entries)@[i]).seg == cur_id
                || exists|j: int|
                0 <= j < old(entries)@.len() && (#[trigger] old(entries)@[j])
                    == final(entries)@[i],
{
    let ghost e0 = entries@;
    let ghost segs0 = segs@;
    let ghost stale0 = *cur_stale;
    proof {
        lemma_stale_map_props(segs0);
        lemma_assoc_properties(e0);
    }
    let key_ref: &String = match &t {
        Transaction::Put(k, _) => k,
        Transaction::Remove(k) => k,
    };
    let found = find_entry_in(entries, key_ref);
    let is_put = matches!(t, Transaction::Put(_, _));
    match found {
        Some(ei) => {
            let old_seg = entries[ei].seg;
            // one more record of the old segment is superseded
            if old_seg == cur_id {
                proof {
                    lemma_count_remove(e0, ei as int, cur_id);
                    lemma_count_nonneg(e0.remove(ei as int), cur_id);
                }
                *cur_stale = *cur_stale + 1;
            } else {
                let j = match find_seg_in(segs, old_seg) {
                    Some(j) => j,
                    None => {
                        proof {
                            let w = choose|w: int|
                                0 <= w < segs0.len() && (#[trigger] segs0[w]).id == old_seg;
                            assert(false);
                        }
                        0
                    },
                };
                proof {
                    let jj = j as int;
                    lemma_count_remove(e0, ei as int, old_seg);
                    lemma_count_nonneg(e0.remove(ei as int), old_seg);
                    assert(count_loc(e0, old_seg) >= 1);
                    assert(9 * (segs0[jj].stale + count_loc(e0, old_seg)) <= segs0[jj].data@.len());
                    let ghost dv = segs0[jj].data;
                    vstd::std_specs::vec::axiom_spec_len(&dv);
                    assert(segs0[jj].stale < u64::MAX);
                }
                segs[j].stale = segs[j].stale + 1;
                proof {
                    let jj = j as int;
                    lemma_stale_map_update(segs0, jj, segs@[jj]);
                    assert(stale_map_of(segs@) == stale_map_of(segs0).insert(
                        old_seg,
                        stale_map_of(segs0)[old_seg] + 1,
                    ));
                    assert(seg_pairs(segs@) =~= seg_pairs(segs0));
                }
            }
            // then the index entry itself moves or goes away
            if is_put {
                let k = match t {
                    Transaction::Put(k, _) => k,
                    Transaction::Remove(k) => k,
                };
                entries[ei] = IndexEntry { key: k, seg: cur_id, off: pos };
                proof {
                    lemma_assoc_update(e0, ei as int, entries@[ei as int]);
                }
            } else {
                entries.remove(ei);
                proof {
                    lemma_assoc_remove(e0, ei as int);
                }
            }
        },
        None => {
            if is_put {
                let k = match t {
                    Transaction::Put(k, _) => k,
                    Transaction::Remove(k) => k,
                };
                entries.push(IndexEntry { key: k, seg: cur_id, off: pos });
                proof {
                    assert forall|i: int| 0 <= i < e0.len() implies (#[trigger] e0[i]).key@
                        != entries@.last().key@ by {}
                    lemma_assoc_push(e0, entries@.last());
                }
            }
        },
    }
    proof {
        let st_in = ReplayState {
            index: assoc_map(e0),
            stale: stale_map_of(segs0).insert(cur_id, stale0 as int),
        };
        let st_out = apply_tx(st_in, cur_id, pos as int, t@);
        assert(assoc_map(entries@) =~= st_out.index);
        assert(stale_map_of(segs@).insert(cur_id, *cur_stale as int) =~= st_out.stale);
        assert(seg_pairs(segs@) =~= seg_pairs(segs0));
        assert forall|i: int| 0 <= i < segs@.len() implies 9 * ((#[trigger] segs@[i]).stale
            + count_loc(entries@, segs@[i].id)) <= segs@[i].data@.len() by {
            let id = segs@[i].id;
            lemma_count_nonneg(e0, id);
            match found {
                Some(ei) => {
                    if is_put {
                        lemma_count_update(e0, ei as int, entries@[ei as int], id);
                    } else {
                        lemma_count_remove(e0, ei as int, id);
                    }
                },
                None => {
                    if is_put {
                        lemma_count_push(e0, entries@[entries@.len() - 1], id);
                    }
                },
            }
            assert(9 * (segs0[i].stale + count_loc(e0, segs0[i].id)) <= segs0[i].data@.len());
        }
        match found {
            Some(ei) => {
                if is_put {
                    lemma_count_update(e0, ei as int, entries@[ei as int], cur_id);
                } else {
                    lemma_count_remove(e0, ei as int, cur_id);
                }
            },
            None => {
                if is_put {
                    lemma_count_push(e0, entries@[entries@.len() - 1], cur_id);
                }
                lemma_count_nonneg(e0, cur_id);
            },
        }
        assert forall|i: int| 0 <= i < entries@.len() implies (#[trigger] entries@[i]).seg
            == cur_id || exists|j: int|
            0 <= j < e0.len() && (#[trigger] e0[j]) == entries@[i] by {
            match found {
                Some(ei) => {
                    if is_put {
                        if i != ei as int {
                            assert((e0[i]) == entries@[i]);
                        }
                    } else {
                        let j = if i < ei as int {
                            i
                        } else {
                            i + 1
                        };
                        assert((e0[j]) == entries@[i]);
                    }
                },
                None => {
                    if i < e0.len() as int {
                        assert((e0[i]) == entries@[i]);
                    }
                },
            }
        }
    }
}

/// Replay one segment's records over the store being rebuilt: apply each
/// record in order from offset 0, accumulating the segment's own stale
/// count. Yields the clean end position and that count, or `None` at a
/// corrupt record.
fn replay_segment(
    segs: &mut Vec<SegmentRec>,
    entries: &mut Vec<IndexEntry>,
    data: &Vec<u8>,
    cur_id: u64,
) -> (r: Option<(usize, u64)>)
    requires
        unique_keys(old(entries)@),
        stale_bounded(old(segs)@, old(entries)@),
        distinct_rec_ids(old(segs)@),
        forall|i: int| 0 <= i < old(segs)@.len() ==> (#[trigger] old(segs)@[i]).id != cur_id,
        forall|i: int|
            0 <= i < old(entries)@.len() ==> stale_map_of(old(segs)@).contains_key(
                (#[trigger] old(entries)@[i]).seg,
            ),
    ensures
        unique_keys(final(entries)@),
        stale_bounded(final(segs)@, final(entries)@),
        distinct_rec_ids(final(segs)@),
        seg_pairs(final(segs)@) == seg_pairs(old(segs)@),
        ({
            let st0 = ReplayState {
                index: assoc_map(old(entries)@),
                stale: stale_map_of(old(segs)@).insert(cur_id, 0),
            };
            match r {
                Some(p) => {
                    &&& scan_from(st0, cur_id, data@, 0) == Some(
                        (
                            ReplayState {
                                index: assoc_map(final(entries)@),
                                stale: stale_map_of(final(segs)@).insert(cur_id, p.1 as int),
                            },
                            p.0 as int,
                        ),
                    )
                    &&& p.0 <= data@.len()
                    &&& 9 * (p.1 + count_loc(final(entries)@, cur_id)) <= p.0
                },
                None => scan_from(st0, cur_id, data@, 0) is None,
            }
        }),
        forall|i: int|
            0 <= i < final(entries)@.len() ==> (#[trigger] final(entries)@[i]).seg == cur_id
                || stale_map_of(final(segs)@).contains_key(final(entries)@[i].seg),
        forall|k2: Seq<char>|
            #[trigger] assoc_map(final(entries)@).contains_key(k2) ==> (assoc_map(
                old(entries)@,
            ).contains_key(k2) && assoc_map(final(entries)@)[k2] == assoc_map(old(entries)@)[k2])
                || ({
                let loc = assoc_map(final(entries)@)[k2];
                &&& loc.seg == cur_id
                &&& 0 <= loc.off
                &&& (decode_at(data@, loc.off) matches DecodeV::Record {
                    tx: TxView::Put { key, value },
                    next,
                } && key == k2 && (r matches Some(p) ==> next <= p.0))
            }),
{
    let ghost segs_in = segs@;
    let ghost e_in = entries@;
    let ghost st0 = ReplayState {
        index: assoc_map(e_in),
        stale: stale_map_of(segs_in).insert(cur_id, 0),
    };
    proof {
        lemma_stale_map_props(segs_in);
        lemma_count_nonneg(e_in, cur_id);
        if count_loc(e_in, cur_id) > 0 {
            lemma_count_exists(e_in, cur_id);
            let w = choose|w: int| 0 <= w < e_in.len() && (#[trigger] e_in[w]).seg == cur_id;
            assert(stale_map_of(segs_in).contains_key(cur_id));
            let w2 = choose|w2: int| 0 <= w2 < segs_in.len() && (#[trigger] segs_in[w2]).id == cur_id;
            assert(false);
        }
    }
    let mut pos: usize = 0;
    let mut cur_stale: u64 = 0;
    loop
        invariant
            pos <= data@.len(),
            unique_keys(entries@),
            stale_bounded(segs@, entries@),
            distinct_rec_ids(segs@),
            seg_pairs(segs@) == seg_pairs(old(segs)@),
            forall|i: int| 0 <= i < segs@.len() ==> (#[trigger] segs@[i]).id != cur_id,
            forall|i: int|
                0 <= i < entries@.len() ==> (#[trigger] entries@[i]).seg == cur_id
                    || stale_map_of(segs@).contains_key(entries@[i].seg),
            9 * (cur_stale + count_loc(entries@, cur_id)) <= pos,
            scan_from(
                ReplayState {
                    index: assoc_map(old(entries)@),
                    stale: stale_map_of(old(segs)@).insert(cur_id, 0),
                },
                cur_id,
                data@,
                0,
            ) == scan_from(
                ReplayState {
                    index: assoc_map(entries@),
                    stale: stale_map_of(segs@).insert(cur_id, cur_stale as int),
                },
                cur_id,
                data@,
                pos as int,
            ),
            forall|k2: Seq<char>|
                #[trigger] assoc_map(entries@).contains_key(k2) ==> (assoc_map(
                    old(entries)@,
                ).contains_key(k2) && assoc_map(entries@)[k2] == assoc_map(old(entries)@)[k2]) || ({
                    let loc = assoc_map(entries@)[k2];
                    &&& loc.seg == cur_id
                    &&& 0 <= loc.off
                    &&& (decode_at(data@, loc.off) matches DecodeV::Record {
                        tx: TxView::Put { key, value },
                        next,
                    } && key == k2 && next <= pos)
                }),
        decreases data@.len() - pos,
    {
        let ghost e_before = entries@;
        let ghost segs_before = segs@;
        let ghost cur = ReplayState {
            index: assoc_map(entries@),
            stale: stale_map_of(segs@).insert(cur_id, cur_stale as int),
        };
        match decode_transaction(data, pos) {
            DecodeResult::Record(t, next) => {
                let ghost tv = t@;
                proof {
                    crate::codec::lemma_decode_bounds(data@, pos as int);
                }
                apply_decoded(segs, entries, &mut cur_stale, cur_id, t, pos, next);
                proof {
                    let cur2 = ReplayState {
                        index: assoc_map(entries@),
                        stale: stale_map_of(segs@).insert(cur_id, cur_stale as int),
                    };
                    assert(cur2 == apply_tx(cur, cur_id, pos as int, tv));
                    assert(scan_from(cur, cur_id, data@, pos as int) == scan_from(
                        cur2,
                        cur_id,
                        data@,
                        next as int,
                    ));
                    assert forall|k2: Seq<char>|
                        #[trigger] assoc_map(entries@).contains_key(k2) implies (assoc_map(
                        old(entries)@,
                    ).contains_key(k2) && assoc_map(entries@)[k2] == assoc_map(old(entries)@)[k2]) || ({
                        let loc = assoc_map(entries@)[k2];
                        &&& loc.seg == cur_id
                        &&& 0 <= loc.off
                        &&& (decode_at(data@, loc.off) matches DecodeV::Record {
                            tx: TxView::Put { key, value },
                            next: nx,
                        } && key == k2 && nx <= next)
                    }) by {
                        let loc = assoc_map(entries@)[k2];
                        if assoc_map(e_before).contains_key(k2) && loc == assoc_map(
                            e_before,
                        )[k2] {
                        } else {
                            assert(loc == (LocV { seg: cur_id, off: pos as int }));
                            match tv {
                                TxView::Put { key, value } => {
                                    if k2 != key {
                                        assert(assoc_map(entries@)[k2] == assoc_map(
                                            e_before,
                                        )[k2]);
                                        assert(decode_at(data@, assoc_map(e_before)[k2].off)
                                            is Record);
                                    }
                                },
                                TxView::Remove { key } => {
                                    assert(assoc_map(entries@)[k2] == assoc_map(e_before)[k2]);
                                    assert(decode_at(data@, assoc_map(e_before)[k2].off)
                                        is Record);
                                },
                            }
                        }
                    }
                    assert forall|i: int| 0 <= i < entries@.len() implies (
                    #[trigger] entries@[i]).seg == cur_id || stale_map_of(segs@).contains_key(
                        entries@[i].seg,
                    ) by {
                        if entries@[i].seg != cur_id {
                            let j = choose|j: int|
                                0 <= j < e_before.len() && (#[trigger] e_before[j]) == entries@[i];
                            lemma_stale_map_props(segs_before);
                            lemma_stale_map_props(segs@);
                            let w = choose|w: int|
                                0 <= w < segs_before.len() && (#[trigger] segs_before[w]).id
                                    == entries@[i].seg;
                            assert(seg_pairs(segs@)[w].0 == entries@[i].seg);
                            assert((segs@[w]).id == entries@[i].seg);
                        }
                    }
                }
                pos = next;
            },
            DecodeResult::End => {
                proof {
                    assert(scan_from(cur, cur_id, data@, pos as int) == Some((cur, pos as int)));
                }
                return Some((pos, cur_stale));
            },
            DecodeResult::Corrupt => {
                proof {
                    assert(scan_from(cur, cur_id, data@, pos as int) is None);
                }
                return None;
            },
        }
    }
}

/// The threshold a store created by `new` uses, in bytes.
pub const DEFAULT_THRESHOLD: usize = 1000;

impl KvStore {
    /// The engine's invariant: the shape invariant of the view, unique index
    /// keys, and bounded stale counts.
    pub closed spec fn wf(&self) -> bool {
        &&& view_wf(self@)
        &&& unique_keys(self.entries@)
        &&& stale_bounded(self.segs@, self.entries@)
    }

    /// Look the key up and read its value back from the log. An absent key
    /// is a normal result, not an error; a well-formed store never reports
    /// an error here.
    pub fn get(&self, key: String) -> (r: Result<Option<String>, Error>)
        requires
            self.wf(),
        ensures
            match r {
                Ok(o) => match o {
                    Some(s) => spec_get(self@, key@) == Some(s@),
                    None => spec_get(self@, key@) is None,
                },
                Err(_) => false,
            },
    {
        match find_entry_in(&self.entries, &key) {
            None => Ok(None),
            Some(i) => {
                let seg_id = self.entries[i].seg;
                let off = self.entries[i].off;
                proof {
                    lemma_assoc_properties(self.entries@);
                    assert(self@.index.contains_key(key@));
                    assert(self@.index[key@] == entry_loc(self.entries@[i as int]));
                }
                match find_seg_in(&self.segs, seg_id) {
                    None => {
                        proof {
                            lemma_seg_at_none(self@.segs, seg_id);
                            assert(false);
                        }
                        Err(Error::InternalInconsistency)
                    },
                    Some(j) => {
                        proof {
                            assert(seg_pairs(self.segs@)[j as int] == (
                                self.segs@[j as int].id,
                                self.segs@[j as int].data@,
                            ));
                            lemma_seg_at_index(self@.segs, j as int);
                            assert(seg_at(self@.segs, seg_id) == Some(self.segs@[j as int].data@));
                        }
                        match decode_transaction(&self.segs[j].data, off) {
                            DecodeResult::Record(t, _) => match t {
                                Transaction::Put(_, v) => Ok(Some(v)),
                                Transaction::Remove(_) => {
                                    proof {
                                        assert(false);
                                    }
                                    Err(Error::InternalInconsistency)
                                },
                            },
                            DecodeResult::End => {
                                proof {
                                    assert(false);
                                }
                                Err(Error::CorruptLog)
                            },
                            DecodeResult::Corrupt => {
                                proof {
                                    assert(false);
                                }
                                Err(Error::CorruptLog)
                            },
                        }
                    },
                }
            },
        }
    }

    /// Set a key to a value. The `Put` record goes to the write target —
    /// rolling over to a fresh segment once the active one has reached the
    /// threshold — the index entry for the key moves there, and if the key
    /// was already present the stale count of its previous record's segment
    /// rises by one. The returned [`Append`] is what the front end persists.
    pub fn set(&mut self, key: String, value: String) -> (r: Append)
        requires
            old(self).wf(),
            can_accept_write(old(self)@),
        ensures
            final(self).wf(),
            final(self)@ == spec_put(old(self)@, key@, value@),
            r.seg_id == write_target(old(self)@),
            r.new_segment == starts_new_segment(old(self)@),
            r.offset == write_offset(old(self)@),
            r.bytes@ == spec_encode_tx(TxView::Put { key: key@, value: value@ }),
            tx_encodable(TxView::Put { key: key@, value: value@ }),
    {
        let ghost v0 = self@;
        let ghost segs0 = self.segs@;
        let ghost e0 = self.entries@;
        let ghost txv = TxView::Put { key: key@, value: value@ };
        let tx = Transaction::Put(key.clone(), value);
        let bytes = encode_transaction(&tx);
        let mut seg_bytes = encode_transaction(&tx);
        proof {
            crate::codec::lemma_encode_len(txv);
            assert forall|i: int, j: int| 0 <= i < j < segs0.len() implies (#[trigger] segs0[i]).id
                != (#[trigger] segs0[j]).id by {
                assert(v0.segs[i].0 < v0.segs[j].0);
            }
            lemma_stale_map_props(segs0);
        }
        let n = self.segs.len();
        let target: u64;
        let is_new: bool;
        let off: usize;
        if n == 0 {
            target = 0;
            is_new = true;
            off = 0;
        } else {
            let llen = self.segs[n - 1].data.len();
            if llen >= self.threshold {
                target = self.segs[n - 1].id + 1;
                is_new = true;
                off = 0;
            } else {
                target = self.segs[n - 1].id;
                is_new = false;
                off = llen;
            }
        }
        if is_new {
            self.segs.push(SegmentRec { id: target, data: seg_bytes, stale: 0 });
        } else {
            self.segs[n - 1].data.append(&mut seg_bytes);
        }
        let ghost segs1 = self.segs@;
        proof {
            assert(seg_pairs(segs1) =~= append_record(v0, txv));
            assert forall|i: int, j: int| 0 <= i < j < segs1.len() implies (#[trigger] segs1[i]).id
                != (#[trigger] segs1[j]).id by {
                if j < segs0.len() as int {
                    assert(segs1[i].id == segs0[i].id && segs1[j].id == segs0[j].id);
                } else {
                    assert(segs1[i].id == segs0[i].id);
                    if i < segs0.len() - 1 {
                        assert(v0.segs[i].0 < v0.segs.last().0);
                    }
                }
            }
        }
        let old_pos = find_entry_in(&self.entries, &key);
        match old_pos {
            Some(ei) => {
                let old_seg = self.entries[ei].seg;
                proof {
                    lemma_assoc_properties(e0);
                    assert(v0.index.contains_key(key@));
                    assert(v0.index[key@] == entry_loc(e0[ei as int]));
                    lemma_seg_at_exists(v0.segs, old_seg);
                }
                match find_seg_in(&self.segs, old_seg) {
                    Some(j) => {
                        proof {
                            let jj = j as int;
                            assert(segs1[jj].id == old_seg);
                            if is_new && jj == segs0.len() as int {
                                let i0 = choose|i: int|
                                    0 <= i < v0.segs.len() && (#[trigger] v0.segs[i]).0 == old_seg
                                        && v0.segs[i].1 == seg_at(v0.segs, old_seg).unwrap();
                                if i0 < segs0.len() - 1 {
                                    assert(v0.segs[i0].0 < v0.segs.last().0);
                                }
                                assert(false);
                            }
                            assert(segs1[jj].stale == segs0[jj].stale);
                            lemma_count_remove(e0, ei as int, old_seg);
                            lemma_count_nonneg(e0.remove(ei as int), old_seg);
                            assert(count_loc(e0, old_seg) >= 1);
                            assert(9 * (segs0[jj].stale + count_loc(e0, old_seg))
                                <= segs0[jj].data@.len());
                            let ghost dv = segs0[jj].data;
                            vstd::std_specs::vec::axiom_spec_len(&dv);
                            assert(segs0[jj].data@.len() <= usize::MAX);
                            assert(segs1[jj].stale < u64::MAX);
                        }
                        self.segs[j].stale = self.segs[j].stale + 1;
                        proof {
                            let jj = j as int;
                            lemma_stale_map_update(segs1, jj, self.segs@[jj]);
                            assert(self.segs@[jj].id == old_seg && self.segs@[jj].stale
                                == segs1[jj].stale + 1);
                            assert(stale_map_of(segs0).contains_key(old_seg)
                                && stale_map_of(segs0)[old_seg] == segs0[jj].stale as int);
                            assert(stale_map_of(self.segs@) == stale_map_of(segs1).insert(
                                old_seg,
                                v0.stale[old_seg] + 1,
                            ));
                        }
                    },
                    None => {
                        proof {
                            lemma_seg_at_none(seg_pairs(segs1), old_seg);
                            let i0 = choose|i: int|
                                0 <= i < v0.segs.len() && (#[trigger] v0.segs[i]).0 == old_seg
                                    && v0.segs[i].1 == seg_at(v0.segs, old_seg).unwrap();
                            assert(seg_pairs(segs1)[i0].0 == old_seg);
                            assert(false);
                        }
                    },
                }
                self.entries[ei] = IndexEntry { key, seg: target, off };
                proof {
                    lemma_assoc_update(e0, ei as int, self.entries@[ei as int]);
                }
            },
            None => {
                self.entries.push(IndexEntry { key, seg: target, off });
                proof {
                    assert forall|i: int| 0 <= i < e0.len() implies (#[trigger] e0[i]).key@
                        != key@ by {
                        lemma_assoc_properties(e0);
                    }
                    lemma_assoc_push(e0, self.entries@.last());
                }
            },
        }
        proof {
            let v2 = spec_put(v0, key@, value@);
            let segs2 = self.segs@;
            let e2 = self.entries@;
            let enc = spec_encode_tx(txv);
            assert(seg_pairs(segs2) =~= seg_pairs(segs1));
            assert(assoc_map(e2) =~= v2.index);
            // the stale-count map after the write
            if v0.segs.len() > 0 {
                assert(v0.stale.contains_key(v0.segs.last().0)) by {
                    assert(segs0[segs0.len() - 1].id == v0.segs.last().0);
                }
            }
            if is_new {
                if stale_map_of(segs0).contains_key(target) {
                    let w = choose|w: int|
                        0 <= w < segs0.len() && (#[trigger] segs0[w]).id == target;
                    assert(v0.segs[w].0 == target);
                    if w < segs0.len() - 1 {
                        assert(v0.segs[w].0 < v0.segs.last().0);
                    }
                    assert(false);
                }
                lemma_stale_map_push(segs0, segs1[segs0.len() as int]);
                assert(stale_map_of(segs1) =~= know_seg(v0.stale, target));
            } else {
                lemma_stale_map_update(segs0, segs0.len() - 1, segs1[segs0.len() - 1]);
                assert(stale_map_of(segs1) =~= v0.stale);
                assert(know_seg(v0.stale, target) =~= v0.stale);
            }
            match old_pos {
                Some(ei) => {
                    let old_seg = e0[ei as int].seg;
                    assert(v0.stale.contains_key(old_seg));
                    if is_new {
                        assert(old_seg != target);
                    }
                    assert(know_seg(v0.stale, target).contains_key(old_seg) && know_seg(
                        v0.stale,
                        target,
                    )[old_seg] == v0.stale[old_seg]);
                    assert(stale_map_of(segs2) =~= bump(know_seg(v0.stale, target), old_seg));
                },
                None => {
                    assert(stale_map_of(segs2) =~= know_seg(v0.stale, target));
                },
            }
            assert(self@.segs == v2.segs && self@.index == v2.index && self@.stale == v2.stale
                && self@.threshold == v2.threshold);
            assert(self@ == v2);
            lemma_spec_put_wf(v0, key@, value@);
            // the stale counts stay bounded by the bytes behind them
            assert forall|i: int| 0 <= i < segs2.len() implies 9 * ((#[trigger] segs2[i]).stale
                + count_loc(e2, segs2[i].id)) <= segs2[i].data@.len() by {
                let id = segs2[i].id;
                lemma_count_nonneg(e0, id);
                match old_pos {
                    Some(ei) => {
                        lemma_count_update(e0, ei as int, e2[ei as int], id);
                    },
                    None => {
                        lemma_count_push(e0, e2[e2.len() - 1], id);
                    },
                }
                if i < segs0.len() {
                    assert(9 * (segs0[i].stale + count_loc(e0, segs0[i].id))
                        <= segs0[i].data@.len());
                }
                if is_new && i == segs0.len() as int {
                    assert(segs2[i].stale == 0 && segs2[i].data@ == enc && id == target);
                    if count_loc(e0, target) > 0 {
                        lemma_count_exists(e0, target);
                        lemma_assoc_properties(e0);
                        let w = choose|w: int|
                            0 <= w < e0.len() && (#[trigger] e0[w]).seg == target;
                        assert(v0.index.contains_key(e0[w].key@));
                        assert(v0.index[e0[w].key@] == entry_loc(e0[w]));
                        lemma_seg_at_exists(v0.segs, target);
                        let i0 = choose|i0: int|
                            0 <= i0 < v0.segs.len() && (#[trigger] v0.segs[i0]).0 == target
                                && v0.segs[i0].1 == seg_at(v0.segs, target).unwrap();
                        if i0 < segs0.len() - 1 {
                            assert(v0.segs[i0].0 < v0.segs.last().0);
                        }
                        assert(false);
                    }
                }
            }
        }
        Append { seg_id: target, new_segment: is_new, offset: off, bytes }
    }

    /// Remove a key. An absent key fails with `KeyNotFound` and changes
    /// nothing. A present key gets a `Remove` tombstone through the same
    /// target selection and rollover as `set`; the stale count of the
    /// segment holding its record rises by one and the index entry
    /// disappears. The returned [`Append`] is what the front end persists.
    pub fn remove(&mut self, key: String) -> (r: Result<Append, Error>)
        requires
            old(self).wf(),
            can_accept_write(old(self)@),
        ensures
            final(self).wf(),
            match r {
                Ok(ap) => {
                    &&& old(self)@.index.contains_key(key@)
                    &&& final(self)@ == spec_remove(old(self)@, key@)
                    &&& ap.seg_id == write_target(old(self)@)
                    &&& ap.new_segment == starts_new_segment(old(self)@)
                    &&& ap.offset == write_offset(old(self)@)
                    &&& ap.bytes@ == spec_encode_tx(TxView::Remove { key: key@ })
                    &&& tx_encodable(TxView::Remove { key: key@ })
                },
                Err(e) => {
                    &&& e == Error::KeyNotFound
                    &&& !old(self)@.index.contains_key(key@)
                    &&& final(self)@ == old(self)@
                },
            },
    {
        let ghost v0 = self@;
        let ghost segs0 = self.segs@;
        let ghost e0 = self.entries@;
        let ghost kv = key@;
        let ghost txv = TxView::Remove { key: kv };
        let ei: usize;
        match find_entry_in(&self.entries, &key) {
            None => {
                return Err(Error::KeyNotFound);
            },
            Some(i) => {
                ei = i;
            },
        }
        let old_seg = self.entries[ei].seg;
        proof {
            crate::codec::lemma_encode_len(txv);
            lemma_assoc_properties(e0);
            assert(v0.index.contains_key(kv));
            assert(v0.index[kv] == entry_loc(e0[ei as int]));
            lemma_seg_at_exists(v0.segs, old_seg);
            assert forall|i: int, j: int| 0 <= i < j < segs0.len() implies (#[trigger] segs0[i]).id
                != (#[trigger] segs0[j]).id by {
                assert(v0.segs[i].0 < v0.segs[j].0);
            }
            lemma_stale_map_props(segs0);
        }
        let tx = Transaction::Remove(key);
        let bytes = encode_transaction(&tx);
        let mut seg_bytes = encode_transaction(&tx);
        let n = self.segs.len();
        let target: u64;
        let is_new: bool;
        let off: usize;
        if n == 0 {
            target = 0;
            is_new = true;
            off = 0;
        } else {
            let llen = self.segs[n - 1].data.len();
            if llen >= self.threshold {
                target = self.segs[n - 1].id + 1;
                is_new = true;
                off = 0;
            } else {
                target = self.segs[n - 1].id;
                is_new = false;
                off = llen;
            }
        }
        if is_new {
            self.segs.push(SegmentRec { id: target, data: seg_bytes, stale: 0 });
        } else {
            self.segs[n - 1].data.append(&mut seg_bytes);
        }
        let ghost segs1 = self.segs@;
        proof {
            assert(seg_pairs(segs1) =~= append_record(v0, txv));
            assert forall|i: int, j: int| 0 <= i < j < segs1.len() implies (#[trigger] segs1[i]).id
                != (#[trigger] segs1[j]).id by {
                if j < segs0.len() as int {
                    assert(segs1[i].id == segs0[i].id && segs1[j].id == segs0[j].id);
                } else {
                    assert(segs1[i].id == segs0[i].id);
                    if i < segs0.len() - 1 {
                        assert(v0.segs[i].0 < v0.segs.last().0);
                    }
                }
            }
        }
        match find_seg_in(&self.segs, old_seg) {
            Some(j) => {
                proof {
                    let jj = j as int;
                    assert(segs1[jj].id == old_seg);
                    if is_new && jj == segs0.len() as int {
                        let i0 = choose|i: int|
                            0 <= i < v0.segs.len() && (#[trigger] v0.segs[i]).0 == old_seg
                                && v0.segs[i].1 == seg_at(v0.segs, old_seg).unwrap();
                        if i0 < segs0.len() - 1 {
                            assert(v0.segs[i0].0 < v0.segs.last().0);
                        }
                        assert(false);
                    }
                    assert(segs1[jj].stale == segs0[jj].stale);
                    lemma_count_remove(e0, ei as int, old_seg);
                    lemma_count_nonneg(e0.remove(ei as int), old_seg);
                    assert(count_loc(e0, old_seg) >= 1);
                    assert(9 * (segs0[jj].stale + count_loc(e0, old_seg)) <= segs0[jj].data@.len());
                    let ghost dv = segs0[jj].data;
                    vstd::std_specs::vec::axiom_spec_len(&dv);
                    assert(segs0[jj].data@.len() <= usize::MAX);
                    assert(segs1[jj].stale < u64::MAX);
                }
                self.segs[j].stale = self.segs[j].stale + 1;
                proof {
                    let jj = j as int;
                    lemma_stale_map_update(segs1, jj, self.segs@[jj]);
                    assert(self.segs@[jj].id == old_seg && self.segs@[jj].stale == segs1[jj].stale
                        + 1);
                    assert(stale_map_of(segs0).contains_key(old_seg) && stale_map_of(segs0)[old_seg]
                        == segs0[jj].stale as int);
                    assert(stale_map_of(self.segs@) == stale_map_of(segs1).insert(
                        old_seg,
                        v0.stale[old_seg] + 1,
                    ));
                }
            },
            None => {
                proof {
                    lemma_seg_at_none(seg_pairs(segs1), old_seg);
                    let i0 = choose|i: int|
                        0 <= i < v0.segs.len() && (#[trigger] v0.segs[i]).0 == old_seg && v0.segs[i].1
                            == seg_at(v0.segs, old_seg).unwrap();
                    assert(seg_pairs(segs1)[i0].0 == old_seg);
                    assert(false);
                }
            },
        }
        self.entries.remove(ei);
        proof {
            lemma_assoc_remove(e0, ei as int);
            let v2 = spec_remove(v0, kv);
            let segs2 = self.segs@;
            let e2 = self.entries@;
            let enc = spec_encode_tx(txv);
            assert(seg_pairs(segs2) =~= seg_pairs(segs1));
            assert(assoc_map(e2) =~= v2.index);
            if v0.segs.len() > 0 {
                assert(v0.stale.contains_key(v0.segs.last().0)) by {
                    assert(segs0[segs0.len() - 1].id == v0.segs.last().0);
                }
            }
            if is_new {
                if stale_map_of(segs0).contains_key(target) {
                    let w = choose|w: int| 0 <= w < segs0.len() && (#[trigger] segs0[w]).id == target;
                    assert(v0.segs[w].0 == target);
                    if w < segs0.len() - 1 {
                        assert(v0.segs[w].0 < v0.segs.last().0);
                    }
                    assert(false);
                }
                lemma_stale_map_push(segs0, segs1[segs0.len() as int]);
                assert(stale_map_of(segs1) =~= know_seg(v0.stale, target));
                assert(old_seg != target);
            } else {
                lemma_stale_map_update(segs0, segs0.len() - 1, segs1[segs0.len() - 1]);
                assert(stale_map_of(segs1) =~= v0.stale);
                assert(know_seg(v0.stale, target) =~= v0.stale);
            }
            assert(v0.stale.contains_key(old_seg));
            assert(know_seg(v0.stale, target).contains_key(old_seg) && know_seg(
                v0.stale,
                target,
            )[old_seg] == v0.stale[old_seg]);
            assert(stale_map_of(segs2) =~= bump(know_seg(v0.stale, target), old_seg));
            assert(self@.segs == v2.segs && self@.index == v2.index && self@.stale == v2.stale
                && self@.threshold == v2.threshold);
            assert(self@ == v2);
            lemma_spec_remove_wf(v0, kv);
            assert forall|i: int| 0 <= i < segs2.len() implies 9 * ((#[trigger] segs2[i]).stale
                + count_loc(e2, segs2[i].id)) <= segs2[i].data@.len() by {
                let id = segs2[i].id;
                lemma_count_nonneg(e0, id);
                lemma_count_remove(e0, ei as int, id);
                if i < segs0.len() {
                    assert(9 * (segs0[i].stale + count_loc(e0, segs0[i].id))
                        <= segs0[i].data@.len());
                }
                if is_new && i == segs0.len() as int {
                    assert(segs2[i].stale == 0 && segs2[i].data@ == enc && id == target);
                    if count_loc(e0, target) > 0 {
                        lemma_count_exists(e0, target);
                        let w = choose|w: int| 0 <= w < e0.len() && (#[trigger] e0[w]).seg == target;
                        assert(v0.index.contains_key(e0[w].key@));
                        assert(v0.index[e0[w].key@] == entry_loc(e0[w]));
                        lemma_seg_at_exists(v0.segs, target);
                        let i0 = choose|i0: int|
                            0 <= i0 < v0.segs.len() && (#[trigger] v0.segs[i0]).0 == target
                                && v0.segs[i0].1 == seg_at(v0.segs, target).unwrap();
                        if i0 < segs0.len() - 1 {
                            assert(v0.segs[i0].0 < v0.segs.last().0);
                        }
                        assert(false);
                    }
                }
            }
        }
        Ok(Append { seg_id: target, new_segment: is_new, offset: off, bytes })
    }

    /// Open a store from the segments read out of a directory, with the
    /// given rollover threshold in bytes. A directory names each segment id
    /// once; the segments are replayed in ascending id order whatever order
    /// they arrive in. A truncated trailing record is silently dropped; any
    /// other undecodable byte run aborts with `CorruptLog`.
    pub fn open(segments: Vec<Segment>, threshold: usize) -> (r: Result<KvStore, Error>)
        requires
            forall|i: int, j: int|
                0 <= i < j < segments@.len() ==> (#[trigger] segments@[i]).id != (
                #[trigger] segments@[j]).id,
        ensures
            match r {
                Ok(s) => {
                    &&& s.wf()
                    &&& s@.threshold == threshold
                    &&& (replay_dir(sort_segs(segment_views(segments@))) matches Some(p) && s@.segs
                        == p.0 && s@.index == p.1.index && s@.stale == p.1.stale)
                },
                Err(e) => {
                    &&& e == Error::CorruptLog
                    &&& replay_dir(sort_segs(segment_views(segments@))) is None
                },
            },
    {
        let ghost iv = segment_views(segments@);
        let ghost total = sort_segs(iv);
        proof {
            assert forall|i: int, j: int| 0 <= i < j < iv.len() implies (#[trigger] iv[i]).0 != (
            #[trigger] iv[j]).0 by {
                assert(iv[i] == segments@[i]@ && iv[j] == segments@[j]@);
            }
            lemma_sort_props(iv);
        }
        let mut sorted = sort_segments(segments);
        let mut store = KvStore { segs: Vec::new(), entries: Vec::new(), threshold };
        let ghost mut k: int = 0;
        proof {
            assert(segment_views(sorted@) =~= total.skip(0));
            assert(total.take(0) =~= Seq::<(u64, Seq<u8>)>::empty());
            assert(seg_pairs(store.segs@) =~= Seq::<(u64, Seq<u8>)>::empty());
            assert(assoc_map(store.entries@) =~= Map::<Seq<char>, LocV>::empty());
            assert(stale_map_of(store.segs@) =~= Map::<u64, int>::empty());
        }
        while sorted.len() > 0
            invariant
                0 <= k <= total.len(),
                total == sort_segs(segment_views(segments@)),
                ids_ascending(total),
                segment_views(sorted@) == total.skip(k),
                store.threshold == threshold,
                unique_keys(store.entries@),
                stale_bounded(store.segs@, store.entries@),
                seg_pairs(store.segs@).len() == k,
                forall|i: int| 0 <= i < k ==> (#[trigger] seg_pairs(store.segs@)[i]).0 == total[i].0,
                replay_dir(total.take(k)) == Some(
                    (
                        seg_pairs(store.segs@),
                        ReplayState {
                            index: assoc_map(store.entries@),
                            stale: stale_map_of(store.segs@),
                        },
                    ),
                ),
                index_ok(
                    StoreView {
                        segs: seg_pairs(store.segs@),
                        index: assoc_map(store.entries@),
                        stale: stale_map_of(store.segs@),
                        threshold: threshold as int,
                    },
                ),
            decreases sorted@.len(),
        {
            let ghost sorted_before = sorted@;
            let sg = sorted.remove(0);
            let id = sg.id;
            let data = sg.data;
            let ghost pairs_prev = seg_pairs(store.segs@);
            let ghost e_prev = store.entries@;
            let ghost segs_prev = store.segs@;
            let ghost st_prev = ReplayState {
                index: assoc_map(store.entries@),
                stale: stale_map_of(store.segs@),
            };
            proof {
                assert(segment_views(sorted_before).len() == sorted_before.len());
                assert(total.skip(k).len() == total.len() - k);
                assert(k < total.len());
                assert(segment_views(sorted_before)[0] == sorted_before[0]@);
                assert(segment_views(sorted_before)[0] == total.skip(k)[0]);
                assert(total.skip(k)[0] == total[k + 0]);
                assert(sg@ == sorted_before[0]@);
                assert((id, data@) == total[k]);
                assert forall|i: int| 0 <= i < segment_views(sorted@).len() implies (
                #[trigger] segment_views(sorted@)[i]) == total.skip(k + 1)[i] by {
                    assert(segment_views(sorted@)[i] == sorted@[i]@);
                    assert(sorted@[i] == sorted_before.remove(0)[i]);
                    assert(sorted_before.remove(0)[i] == sorted_before[i + 1]);
                    assert(sorted_before[i + 1]@ == segment_views(sorted_before)[i + 1]);
                    assert(segment_views(sorted_before)[i + 1] == total.skip(k)[i + 1]);
                    assert(total.skip(k)[i + 1] == total[k + i + 1]);
                    assert(total.skip(k + 1)[i] == total[k + 1 + i]);
                }
                assert(segment_views(sorted@) =~= total.skip(k + 1));
                assert forall|i: int, j: int|
                    0 <= i < j < segs_prev.len() implies (#[trigger] segs_prev[i]).id != (
                #[trigger] segs_prev[j]).id by {
                    assert(seg_pairs(segs_prev)[i].0 == total[i].0);
                    assert(seg_pairs(segs_prev)[j].0 == total[j].0);
                }
                assert forall|i: int| 0 <= i < segs_prev.len() implies (#[trigger] segs_prev[i]).id
                    != id by {
                    assert(seg_pairs(segs_prev)[i].0 == total[i].0);
                    assert(total[i].0 < total[k].0);
                }
                lemma_stale_map_props(segs_prev);
                lemma_assoc_properties(e_prev);
                assert forall|i: int| 0 <= i < e_prev.len() implies stale_map_of(
                    segs_prev,
                ).contains_key((#[trigger] e_prev[i]).seg) by {
                    assert(assoc_map(e_prev).contains_key(e_prev[i].key@));
                    assert(assoc_map(e_prev)[e_prev[i].key@] == entry_loc(e_prev[i]));
                    lemma_seg_at_exists(pairs_prev, e_prev[i].seg);
                    let w = choose|w: int|
                        0 <= w < pairs_prev.len() && (#[trigger] pairs_prev[w]).0 == e_prev[i].seg
                            && pairs_prev[w].1 == seg_at(pairs_prev, e_prev[i].seg).unwrap();
                    assert((segs_prev[w]).id == e_prev[i].seg);
                }
            }
            let res = replay_segment(&mut store.segs, &mut store.entries, &data, id);
            let ghost st0 = ReplayState {
                index: assoc_map(e_prev),
                stale: stale_map_of(segs_prev).insert(id, 0),
            };
            proof {
                if stale_map_of(segs_prev).contains_key(id) {
                    let w = choose|w: int|
                        0 <= w < segs_prev.len() && (#[trigger] segs_prev[w]).id == id;
                    assert(false);
                }
                assert(know_seg(st_prev.stale, id) =~= st0.stale);
                assert(scan_seg(st_prev, id, data@) == scan_from(st0, id, data@, 0));
                assert(total.take(k + 1).drop_last() =~= total.take(k));
                assert(total.take(k + 1).last() == total[k]);
            }
            match res {
                None => {
                    proof {
                        assert(replay_dir(total.take(k + 1)) is None);
                        crate::replay::lemma_replay_dir_prefix_none(total, k + 1);
                    }
                    return Err(Error::CorruptLog);
                },
                Some(pair) => {
                    let end = pair.0;
                    let fin_stale = pair.1;
                    let mut data2 = data;
                    data2.truncate(end);
                    let ghost segs_mid = store.segs@;
                    let ghost e_mid = store.entries@;
                    store.segs.push(SegmentRec { id, data: data2, stale: fin_stale });
                    proof {
                        let committed = data@.subrange(0, end as int);
                        assert(seg_pairs(store.segs@) =~= seg_pairs(segs_mid).push(
                            (id, committed),
                        ));
                        assert(seg_pairs(segs_mid) == pairs_prev);
                        lemma_stale_map_push(segs_mid, store.segs@[segs_mid.len() as int]);
                        let st2 = ReplayState {
                            index: assoc_map(e_mid),
                            stale: stale_map_of(segs_mid).insert(id, fin_stale as int),
                        };
                        assert(scan_seg(st_prev, id, data@) == Some((st2, end as int)));
                        assert(replay_dir(total.take(k + 1)) == Some(
                            (pairs_prev.push((id, committed)), st2),
                        ));
                        assert(stale_map_of(store.segs@) =~= st2.stale);
                        assert(assoc_map(store.entries@) == st2.index);
                        assert(seg_pairs(store.segs@) =~= pairs_prev.push((id, committed)));
                        // the stale bound covers the new segment too
                        assert forall|i: int| 0 <= i < store.segs@.len() implies 9 * ((
                        #[trigger] store.segs@[i]).stale + count_loc(e_mid, store.segs@[i].id))
                            <= store.segs@[i].data@.len() by {
                            if i < segs_mid.len() as int {
                                assert(store.segs@[i] == segs_mid[i]);
                                assert(9 * (segs_mid[i].stale + count_loc(e_mid, segs_mid[i].id))
                                    <= segs_mid[i].data@.len());
                            }
                        }
                        // every index entry still resolves to a live record
                        assert forall|k2: Seq<char>|
                            #[trigger] assoc_map(store.entries@).contains_key(k2) implies {
                            let loc = assoc_map(store.entries@)[k2];
                            &&& 0 <= loc.off
                            &&& seg_at(seg_pairs(store.segs@), loc.seg) is Some
                            &&& (decode_at(
                                seg_at(seg_pairs(store.segs@), loc.seg).unwrap(),
                                loc.off,
                            ) matches DecodeV::Record {
                                tx: TxView::Put { key, value },
                                next,
                            } && key == k2)
                        } by {
                            let loc = assoc_map(store.entries@)[k2];
                            if assoc_map(e_prev).contains_key(k2) && loc == assoc_map(
                                e_prev,
                            )[k2] {
                                assert(seg_at(pairs_prev, loc.seg) is Some);
                                lemma_seg_at_exists(pairs_prev, loc.seg);
                                let w = choose|w: int|
                                    0 <= w < pairs_prev.len() && (#[trigger] pairs_prev[w]).0
                                        == loc.seg && pairs_prev[w].1 == seg_at(
                                        pairs_prev,
                                        loc.seg,
                                    ).unwrap();
                                assert(total[w].0 < total[k].0);
                                lemma_seg_at_push(pairs_prev, (id, committed), loc.seg);
                            } else {
                                assert(loc.seg == id);
                                lemma_seg_at_push(pairs_prev, (id, committed), id);
                                let dec = decode_at(data@, loc.off);
                                crate::codec::lemma_decode_bounds(data@, loc.off);
                                crate::codec::lemma_decode_restrict(data@, loc.off, end as int);
                            }
                        }
                        k = k + 1;
                        assert(seg_pairs(store.segs@).len() == k);
                        assert forall|i: int| 0 <= i < k implies (#[trigger] seg_pairs(
                            store.segs@,
                        )[i]).0 == total[i].0 by {
                            if i < k - 1 {
                                assert(seg_pairs(store.segs@)[i] == pairs_prev[i]);
                            }
                        }
                    }
                },
            }
        }
        proof {
            assert(total.skip(k).len() == 0);
            assert(k == total.len());
            assert(total.take(k) =~= total);
            let pairs = seg_pairs(store.segs@);
            crate::replay::lemma_replay_dir_exact(total);
            assert forall|i: int, j: int| 0 <= i < j < pairs.len() implies (#[trigger] pairs[i]).0
                < (#[trigger] pairs[j]).0 by {
                assert(pairs[i].0 == total[i].0 && pairs[j].0 == total[j].0);
            }
            assert(index_ok(store@));
            assert(view_wf(store@));
        }
        Ok(store)
    }

    /// The number of superseded records accounted to this segment: the
    /// input a compactor would consume. `None` for an unknown segment id.
    pub fn stale_count(&self, seg_id: u64) -> (r: Option<u64>)
        requires
            self.wf(),
        ensures
            match r {
                Some(c) => self@.stale.contains_key(seg_id) && c as int == self@.stale[seg_id],
                None => !self@.stale.contains_key(seg_id),
            },
    {
        proof {
            assert forall|i: int, j: int| 0 <= i < j < self.segs@.len() implies (
            #[trigger] self.segs@[i]).id != (#[trigger] self.segs@[j]).id by {
                assert(self@.segs[i].0 < self@.segs[j].0);
            }
            lemma_stale_map_props(self.segs@);
        }
        match find_seg_in(&self.segs, seg_id) {
            Some(j) => Some(self.segs[j].stale),
            None => {
                proof {
                    if stale_map_of(self.segs@).contains_key(seg_id) {
                        let w = choose|w: int|
                            0 <= w < self.segs@.len() && (#[trigger] self.segs@[w]).id == seg_id;
                        assert(false);
                    }
                }
                None
            },
        }
    }

    /// The id of the segment the next append will target: the active
    /// segment, or the next id once the active one has reached the
    /// threshold.
    pub fn get_next_file_index(&self) -> (r: u64)
        requires
            self.wf(),
            can_accept_write(self@),
        ensures
            r == write_target(self@),
    {
        let n = self.segs.len();
        if n == 0 {
            0
        } else {
            let llen = self.segs[n - 1].data.len();
            if llen >= self.threshold {
                self.segs[n - 1].id + 1
            } else {
                self.segs[n - 1].id
            }
        }
    }

    /// Create a store over no segments, with the reference rollover
    /// threshold of 1000 bytes.
    pub fn new() -> (r: KvStore)
        ensures
            r.wf(),
            r@.segs == Seq::<(u64, Seq<u8>)>::empty(),
            r@.index == Map::<Seq<char>, LocV>::empty(),
            r@.stale == Map::<u64, int>::empty(),
            r@.threshold == DEFAULT_THRESHOLD,
    {
        let r = KvStore { segs: Vec::new(), entries: Vec::new(), threshold: DEFAULT_THRESHOLD };
        proof {
            assert(seg_pairs(r.segs@) =~= Seq::<(u64, Seq<u8>)>::empty());
            assert(r@.segs =~= Seq::<(u64, Seq<u8>)>::empty());
            assert(r@.index =~= Map::<Seq<char>, LocV>::empty());
            assert(r@.stale =~= Map::<u64, int>::empty());
            assert(replay_exact(r@.segs) == Some(ReplayState::empty()));
        }
        r
    }
}

/// A well-formed store's view satisfies the shape invariant.
pub proof fn lemma_wf_view(s: &KvStore)
    requires
        s.wf(),
    ensures
        view_wf(s@),
{
}

} // verus!
