//! The mathematical model of log replay: how a sequence of segments, each an
//! ordered run of encoded records, determines the in-memory index and the
//! per-segment stale-record counts. Opening a directory evaluates this model
//! over the bytes on disk; every later mutation is proved to keep the store
//! equal to a fresh replay of its own segments.

use crate::codec::{decode_at, spec_encode_tx, DecodeV, TxView};
use vstd::prelude::*;

verus! {

/// Where a key's most recent live `Put` record lives: a segment id and the
/// byte offset of the record inside that segment.
pub ghost struct LocV {
    pub seg: u64,
    pub off: int,
}

/// The state replay builds: the index, and the count of superseded records
/// per known segment id.
pub ghost struct ReplayState {
    pub index: Map<Seq<char>, LocV>,
    pub stale: Map<u64, int>,
}

impl ReplayState {
    /// The state before any segment has been seen.
    pub open spec fn empty() -> ReplayState {
        ReplayState { index: Map::empty(), stale: Map::empty() }
    }
}

/// One more record of segment `s` has been superseded.
pub open spec fn bump(stale: Map<u64, int>, s: u64) -> Map<u64, int> {
    stale.insert(
        s,
        if stale.contains_key(s) {
            stale[s] + 1
        } else {
            1
        },
    )
}

/// The segment id `s` is known, with no superseded records yet if it is new.
pub open spec fn know_seg(stale: Map<u64, int>, s: u64) -> Map<u64, int> {
    stale.insert(
        s,
        if stale.contains_key(s) {
            stale[s]
        } else {
            0
        },
    )
}

/// The effect of one record on the state, applied with the id of the segment
/// holding the record and the record's byte offset.
///
/// A `Put` that overwrites a key supersedes the record its old index entry
/// pointed at; a `Remove` of a present key supersedes that record and drops
/// the entry; a `Remove` of an absent key changes nothing. `Remove` records
/// themselves are never indexed.
pub open spec fn apply_tx(st: ReplayState, id: u64, off: int, tx: TxView) -> ReplayState {
    match tx {
        TxView::Put { key, value } => {
            let bumped = if st.index.contains_key(key) {
                bump(st.stale, st.index[key].seg)
            } else {
                st.stale
            };
            ReplayState { index: st.index.insert(key, LocV { seg: id, off }), stale: bumped }
        },
        TxView::Remove { key } => {
            if st.index.contains_key(key) {
                ReplayState { index: st.index.remove(key), stale: bump(st.stale, st.index[key].seg) }
            } else {
                st
            }
        },
    }
}

/// Replay the records of one segment's data from `pos` on. Yields the
/// resulting state and the clean-end position, or `None` on corruption.
pub open spec fn scan_from(st: ReplayState, id: u64, data: Seq<u8>, pos: int) -> Option<
    (ReplayState, int),
>
    decreases data.len() - pos,
{
    match decode_at(data, pos) {
        DecodeV::End => Some((st, pos)),
        DecodeV::Corrupt => None,
        DecodeV::Record { tx, next } => {
            if pos < next <= data.len() {
                scan_from(apply_tx(st, id, pos, tx), id, data, next)
            } else {
                None
            }
        },
    }
}

/// Replay one whole segment: its id becomes known, then its records apply in
/// order from offset 0.
pub open spec fn scan_seg(st: ReplayState, id: u64, data: Seq<u8>) -> Option<(ReplayState, int)> {
    scan_from(ReplayState { index: st.index, stale: know_seg(st.stale, id) }, id, data, 0)
}

/// Replay a run of segments, in the order given, where every segment's data
/// must decode exactly to its end: the committed form a store itself keeps.
pub open spec fn replay_exact(segs: Seq<(u64, Seq<u8>)>) -> Option<ReplayState>
    decreases segs.len(),
{
    if segs.len() == 0 {
        Some(ReplayState::empty())
    } else {
        match replay_exact(segs.drop_last()) {
            None => None,
            Some(st) => match scan_seg(st, segs.last().0, segs.last().1) {
                None => None,
                Some((st2, end)) => if end == segs.last().1.len() {
                    Some(st2)
                } else {
                    None
                },
            },
        }
    }
}

/// Replay a run of segments as read back from a directory, tolerating a
/// truncated trailing record in each: the committed prefix of each segment is
/// kept and the rest is dropped. Yields the committed segments and the state,
/// or `None` when some segment is corrupt.
pub open spec fn replay_dir(segs: Seq<(u64, Seq<u8>)>) -> Option<
    (Seq<(u64, Seq<u8>)>, ReplayState),
>
    decreases segs.len(),
{
    if segs.len() == 0 {
        Some((Seq::empty(), ReplayState::empty()))
    } else {
        match replay_dir(segs.drop_last()) {
            None => None,
            Some((done, st)) => match scan_seg(st, segs.last().0, segs.last().1) {
                None => None,
                Some((st2, end)) => Some(
                    (done.push((segs.last().0, segs.last().1.subrange(0, end))), st2),
                ),
            },
        }
    }
}

/// A scan that succeeds stops between its start and the end of the data.
pub proof fn lemma_scan_bounds(st: ReplayState, id: u64, data: Seq<u8>, pos: int)
    requires
        0 <= pos <= data.len(),
    ensures
        match scan_from(st, id, data, pos) {
            Some((st2, end)) => pos <= end <= data.len(),
            None => true,
        },
    decreases data.len() - pos,
{
    match decode_at(data, pos) {
        DecodeV::End => {},
        DecodeV::Corrupt => {},
        DecodeV::Record { tx, next } => {
            crate::codec::lemma_decode_bounds(data, pos);
            lemma_scan_bounds(apply_tx(st, id, pos, tx), id, data, next);
        },
    }
}

/// Appending one whole encoded record to a fully scanned segment extends the
/// scan by exactly that record: the new state is the old state with the
/// record applied at the old end of the data.
pub proof fn lemma_scan_snoc(
    st: ReplayState,
    st2: ReplayState,
    id: u64,
    data: Seq<u8>,
    pos: int,
    t: TxView,
)
    requires
        0 <= pos <= data.len(),
        crate::codec::tx_encodable(t),
        scan_from(st, id, data, pos) == Some((st2, data.len() as int)),
    ensures
        scan_from(st, id, data + spec_encode_tx(t), pos) == Some(
            (
                apply_tx(st2, id, data.len() as int, t),
                data.len() + spec_encode_tx(t).len() as int,
            ),
        ),
    decreases data.len() - pos,
{
    let full = data + spec_encode_tx(t);
    match decode_at(data, pos) {
        DecodeV::End => {
            crate::codec::lemma_decode_encode(data, t);
            let next = data.len() + spec_encode_tx(t).len() as int;
            let applied = apply_tx(st, id, pos, t);
            assert(pos == data.len() && st == st2);
            assert(decode_at(full, pos) == (DecodeV::Record { tx: t, next }));
            assert(next == full.len());
            assert(decode_at(full, next) == DecodeV::End);
            assert(scan_from(applied, id, full, next) == Some((applied, next)));
            assert(scan_from(st, id, full, pos) == Some((applied, next)));
        },
        DecodeV::Corrupt => {},
        DecodeV::Record { tx, next } => {
            crate::codec::lemma_decode_bounds(data, pos);
            crate::codec::lemma_decode_extend(data, spec_encode_tx(t), pos);
            lemma_scan_snoc(apply_tx(st, id, pos, tx), st2, id, data, next, t);
        },
    }
}

/// Appending a proper prefix of an encoded record to a fully scanned segment
/// leaves the scan unchanged: the truncated record is dropped.
pub proof fn lemma_scan_partial(
    st: ReplayState,
    st2: ReplayState,
    id: u64,
    data: Seq<u8>,
    pos: int,
    t: TxView,
    p: Seq<u8>,
)
    requires
        0 <= pos <= data.len(),
        crate::codec::tx_encodable(t),
        p.len() < spec_encode_tx(t).len(),
        p =~= spec_encode_tx(t).subrange(0, p.len() as int),
        scan_from(st, id, data, pos) == Some((st2, data.len() as int)),
    ensures
        scan_from(st, id, data + p, pos) == Some((st2, data.len() as int)),
    decreases data.len() - pos,
{
    match decode_at(data, pos) {
        DecodeV::End => {
            crate::codec::lemma_decode_prefix_clean(data, t, p);
        },
        DecodeV::Corrupt => {},
        DecodeV::Record { tx, next } => {
            crate::codec::lemma_decode_bounds(data, pos);
            crate::codec::lemma_decode_extend(data, p, pos);
            lemma_scan_partial(apply_tx(st, id, pos, tx), st2, id, data, next, t, p);
        },
    }
}

/// Cutting a segment's data at the clean end of a successful scan leaves the
/// scan unchanged, and the cut data scans exactly to its own end.
pub proof fn lemma_scan_restrict(
    st: ReplayState,
    st2: ReplayState,
    id: u64,
    data: Seq<u8>,
    pos: int,
    end: int,
)
    requires
        0 <= pos <= data.len(),
        scan_from(st, id, data, pos) == Some((st2, end)),
    ensures
        scan_from(st, id, data.take(end), pos) == Some((st2, end)),
    decreases data.len() - pos,
{
    lemma_scan_bounds(st, id, data, pos);
    match decode_at(data, pos) {
        DecodeV::End => {
            assert(data.take(end).len() == end);
        },
        DecodeV::Corrupt => {},
        DecodeV::Record { tx, next } => {
            crate::codec::lemma_decode_bounds(data, pos);
            lemma_scan_bounds(apply_tx(st, id, pos, tx), id, data, next);
            crate::codec::lemma_decode_restrict(data, pos, end);
            lemma_scan_restrict(apply_tx(st, id, pos, tx), st2, id, data, next, end);
        },
    }
}

/// A segment holding exactly one encoded record scans to that record.
pub proof fn lemma_scan_single(st: ReplayState, id: u64, t: TxView)
    requires
        crate::codec::tx_encodable(t),
    ensures
        scan_from(st, id, spec_encode_tx(t), 0) == Some(
            (apply_tx(st, id, 0, t), spec_encode_tx(t).len() as int),
        ),
{
    crate::codec::lemma_decode_encode(Seq::empty(), t);
    let enc = spec_encode_tx(t);
    assert(Seq::<u8>::empty() + enc =~= enc);
    assert(decode_at(enc, 0) == (DecodeV::Record { tx: t, next: enc.len() as int }));
    let applied = apply_tx(st, id, 0, t);
    assert(decode_at(enc, enc.len() as int) == DecodeV::End);
    assert(scan_from(applied, id, enc, enc.len() as int) == Some((applied, enc.len() as int)));
}

/// Scanning never forgets a known segment id.
pub proof fn lemma_scan_stale_dom(st: ReplayState, id: u64, data: Seq<u8>, pos: int, q: u64)
    requires
        scan_from(st, id, data, pos) is Some,
        st.stale.contains_key(q),
    ensures
        scan_from(st, id, data, pos).unwrap().0.stale.contains_key(q),
    decreases data.len() - pos,
{
    match decode_at(data, pos) {
        DecodeV::End => {},
        DecodeV::Corrupt => {},
        DecodeV::Record { tx, next } => {
            lemma_scan_stale_dom(apply_tx(st, id, pos, tx), id, data, next, q);
        },
    }
}

/// Every segment id that went into a successful exact replay is known to
/// the resulting stale counts.
pub proof fn lemma_replay_ids_known(segs: Seq<(u64, Seq<u8>)>, i: int)
    requires
        replay_exact(segs) is Some,
        0 <= i < segs.len(),
    ensures
        replay_exact(segs).unwrap().stale.contains_key(segs[i].0),
    decreases segs.len(),
{
    let st_prev = replay_exact(segs.drop_last()).unwrap();
    let id = segs.last().0;
    let st0 = ReplayState { index: st_prev.index, stale: know_seg(st_prev.stale, id) };
    if i == segs.len() - 1 {
        lemma_scan_stale_dom(st0, id, segs.last().1, 0, id);
    } else {
        lemma_replay_ids_known(segs.drop_last(), i);
        lemma_scan_stale_dom(st0, id, segs.last().1, 0, segs[i].0);
    }
}

/// Appending one whole encoded record to the last segment of an exactly
/// replayed run applies that record to the replayed state.
pub proof fn lemma_replay_exact_extend(segs: Seq<(u64, Seq<u8>)>, st: ReplayState, t: TxView)
    requires
        segs.len() > 0,
        replay_exact(segs) == Some(st),
        crate::codec::tx_encodable(t),
    ensures
        replay_exact(
            segs.update(segs.len() - 1, (segs.last().0, segs.last().1 + spec_encode_tx(t))),
        ) == Some(apply_tx(st, segs.last().0, segs.last().1.len() as int, t)),
{
    let id = segs.last().0;
    let data = segs.last().1;
    let upd = segs.update(segs.len() - 1, (id, data + spec_encode_tx(t)));
    assert(upd.drop_last() =~= segs.drop_last());
    assert(upd.last() == (id, data + spec_encode_tx(t)));
    let st_prev = replay_exact(segs.drop_last()).unwrap();
    let st0 = ReplayState { index: st_prev.index, stale: know_seg(st_prev.stale, id) };
    assert(scan_from(st0, id, data, 0) == Some((st, data.len() as int)));
    lemma_scan_snoc(st0, st, id, data, 0, t);
}

/// Pushing a fresh segment holding one encoded record onto an exactly
/// replayed run makes the new id known and applies the record at offset 0.
pub proof fn lemma_replay_exact_push(segs: Seq<(u64, Seq<u8>)>, st: ReplayState, nid: u64, t: TxView)
    requires
        replay_exact(segs) == Some(st),
        crate::codec::tx_encodable(t),
    ensures
        replay_exact(segs.push((nid, spec_encode_tx(t)))) == Some(
            apply_tx(ReplayState { index: st.index, stale: know_seg(st.stale, nid) }, nid, 0, t),
        ),
{
    let pushed = segs.push((nid, spec_encode_tx(t)));
    assert(pushed.drop_last() =~= segs);
    assert(pushed.last() == (nid, spec_encode_tx(t)));
    lemma_scan_single(
        ReplayState { index: st.index, stale: know_seg(st.stale, nid) },
        nid,
        t,
    );
}

/// A run whose segments replay exactly also replays as a directory, with
/// every byte committed.
pub proof fn lemma_replay_exact_dir(segs: Seq<(u64, Seq<u8>)>, st: ReplayState)
    requires
        replay_exact(segs) == Some(st),
    ensures
        replay_dir(segs) == Some((segs, st)),
    decreases segs.len(),
{
    if segs.len() == 0 {
        assert(replay_dir(segs) == Some((Seq::<(u64, Seq<u8>)>::empty(), ReplayState::empty())));
        assert(Seq::<(u64, Seq<u8>)>::empty() =~= segs);
    } else {
        let st_prev = replay_exact(segs.drop_last()).unwrap();
        lemma_replay_exact_dir(segs.drop_last(), st_prev);
        let id = segs.last().0;
        let data = segs.last().1;
        assert(data.subrange(0, data.len() as int) =~= data);
        assert(segs.drop_last().push((id, data)) =~= segs);
    }
}

/// Appending a proper prefix of one encoded record to the last segment of
/// an exactly replayed run leaves a directory replay unchanged: the partial
/// record is dropped and the same state comes back.
pub proof fn lemma_replay_dir_partial_tail(
    segs: Seq<(u64, Seq<u8>)>,
    st: ReplayState,
    t: TxView,
    p: Seq<u8>,
)
    requires
        segs.len() > 0,
        replay_exact(segs) == Some(st),
        crate::codec::tx_encodable(t),
        p.len() < spec_encode_tx(t).len(),
        p =~= spec_encode_tx(t).subrange(0, p.len() as int),
    ensures
        replay_dir(segs.update(segs.len() - 1, (segs.last().0, segs.last().1 + p))) == Some(
            (segs, st),
        ),
{
    let id = segs.last().0;
    let data = segs.last().1;
    let dirty = segs.update(segs.len() - 1, (id, data + p));
    assert(dirty.drop_last() =~= segs.drop_last());
    assert(dirty.last() == (id, data + p));
    let st_prev = replay_exact(segs.drop_last()).unwrap();
    lemma_replay_exact_dir(segs.drop_last(), st_prev);
    let st0 = ReplayState { index: st_prev.index, stale: know_seg(st_prev.stale, id) };
    assert(scan_from(st0, id, data, 0) == Some((st, data.len() as int)));
    lemma_scan_partial(st0, st, id, data, 0, t, p);
    assert((data + p).subrange(0, data.len() as int) =~= data);
    assert(segs.drop_last().push((id, data)) =~= segs);
}

/// A replay that fails on a prefix of the segments fails on the whole run.
pub proof fn lemma_replay_dir_prefix_none(segs: Seq<(u64, Seq<u8>)>, m: int)
    requires
        0 <= m <= segs.len(),
        replay_dir(segs.take(m)) is None,
    ensures
        replay_dir(segs) is None,
    decreases segs.len() - m,
{
    if m == segs.len() {
        assert(segs.take(m) =~= segs);
    } else {
        assert(segs.take(m + 1).drop_last() =~= segs.take(m));
        lemma_replay_dir_prefix_none(segs, m + 1);
    }
}

/// What a directory replay yields is a committed store: the kept segments
/// carry the same ids in the same order, each is the committed prefix of the
/// segment it came from, and replaying them exactly gives the same state.
pub proof fn lemma_replay_dir_exact(segs: Seq<(u64, Seq<u8>)>)
    requires
        replay_dir(segs) is Some,
    ensures
        ({
            let (done, st) = replay_dir(segs).unwrap();
            &&& replay_exact(done) == Some(st)
            &&& done.len() == segs.len()
            &&& forall|i: int|
                0 <= i < segs.len() ==> (#[trigger] done[i]).0 == segs[i].0 && done[i].1
                    == segs[i].1.take(done[i].1.len() as int)
        }),
    decreases segs.len(),
{
    if segs.len() == 0 {
    } else {
        lemma_replay_dir_exact(segs.drop_last());
        let (done0, st0) = replay_dir(segs.drop_last()).unwrap();
        let id = segs.last().0;
        let data = segs.last().1;
        let st_in = ReplayState { index: st0.index, stale: know_seg(st0.stale, id) };
        let (st2, end) = scan_from(st_in, id, data, 0).unwrap();
        lemma_scan_bounds(st_in, id, data, 0);
        lemma_scan_restrict(st_in, st2, id, data, 0, end);
        assert(data.take(end).len() == end);
        assert(replay_exact(done0.push((id, data.take(end)))).is_some()) by {
            assert(done0.push((id, data.take(end))).drop_last() =~= done0);
        }
        assert(done0.push((id, data.take(end))).drop_last() =~= done0);
    }
}

} // verus!
