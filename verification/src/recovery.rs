//! Recovery: the index and the reclaim counter are rebuilt by replaying
//! every segment, in rising order of id, from its first record to the first
//! place where no whole record lies.

use crate::error::KvError;
use crate::index::{Entry, Index};
use crate::record::{
    decode_header, has_record_at, header_at, key_at, lemma_record_at_end,
    lemma_record_at_stable, record_bytes, value_at, RecordType, HEADER_LEN, MAX_FIELD_LEN,
    TAG_PUT,
};
use crate::wal::{
    ascending, lemma_segment_data_at, lemma_with_appended, segment_data, segment_size,
    with_appended, Directory, SegmentView,
};
use vstd::prelude::*;
use vstd::slice::slice_subrange;

verus! {

/// What a replay builds: the index and the reclaim counter.
pub struct ReplayState {
    pub index: Map<Seq<u8>, Entry>,
    pub reclaimable: u64,
}

/// `a + b`, held at the greatest 64-bit value.
pub open spec fn sat_add(a: u64, b: int) -> u64 {
    if a + b > u64::MAX {
        u64::MAX
    } else {
        (a + b) as u64
    }
}

/// The state before any record: no key, nothing to reclaim.
pub open spec fn empty_state() -> ReplayState {
    ReplayState { index: Map::empty(), reclaimable: 0 }
}

/// The state after a put of `key` whose record lies at `entry`: the key
/// maps to the entry, and the record that it mapped to before, if any, has
/// become reclaimable.
pub open spec fn after_put(st: ReplayState, key: Seq<u8>, entry: Entry) -> ReplayState {
    ReplayState {
        index: st.index.insert(key, entry),
        reclaimable: if st.index.contains_key(key) {
            sat_add(st.reclaimable, st.index[key].record_len as int)
        } else {
            st.reclaimable
        },
    }
}

/// The state after a delete of `key` whose record is `record_len` bytes
/// long: where the key was live it is gone, and both its old record and the
/// delete record have become reclaimable; where it was not, nothing changes.
pub open spec fn after_delete(st: ReplayState, key: Seq<u8>, record_len: int) -> ReplayState {
    if st.index.contains_key(key) {
        ReplayState {
            index: st.index.remove(key),
            reclaimable: sat_add(st.reclaimable, st.index[key].record_len + record_len),
        }
    } else {
        st
    }
}

/// The state after the record that lies at `offset` in the segment
/// `segment_id` with the bytes `bytes`.
pub open spec fn apply_record(
    st: ReplayState,
    segment_id: u64,
    bytes: Seq<u8>,
    offset: int,
) -> ReplayState
    recommends
        has_record_at(bytes, offset),
{
    let h = header_at(bytes, offset);
    if h.record_type == TAG_PUT {
        after_put(
            st,
            key_at(bytes, offset),
            Entry { segment_id, offset: offset as u64, record_len: h.record_len() as u64 },
        )
    } else {
        after_delete(st, key_at(bytes, offset), h.record_len())
    }
}

/// The state after the records of one segment from `offset` on. The replay
/// of a segment ends, without error, at the first offset where no whole
/// record lies: a truncated tail. A whole record whose type byte names no
/// record type makes the replay fail.
pub open spec fn replay_segment(
    st: ReplayState,
    segment_id: u64,
    bytes: Seq<u8>,
    offset: int,
) -> Option<ReplayState>
    decreases bytes.len() - offset,
{
    if !has_record_at(bytes, offset) {
        Some(st)
    } else if RecordType::of_tag(header_at(bytes, offset).record_type) is None {
        None
    } else {
        replay_segment(
            apply_record(st, segment_id, bytes, offset),
            segment_id,
            bytes,
            offset + header_at(bytes, offset).record_len(),
        )
    }
}

/// The state after the replay of `segs` in their order, begun in `st`.
pub open spec fn replay_all(st: ReplayState, segs: Seq<SegmentView>) -> Option<ReplayState>
    decreases segs.len(),
{
    if segs.len() == 0 {
        Some(st)
    } else {
        match replay_all(st, segs.drop_last()) {
            Some(mid) => replay_segment(mid, segs.last().id, segs.last().data, 0),
            None => None,
        }
    }
}

/// What recovery makes of the segments `segs`: `None` where a record is
/// corrupt.
pub open spec fn recover(segs: Seq<SegmentView>) -> Option<ReplayState> {
    replay_all(empty_state(), segs)
}

/// The replay of segments one after the other can be cut in two.
pub proof fn lemma_replay_all_split(st: ReplayState, first: Seq<SegmentView>, rest: Seq<SegmentView>)
    ensures
        replay_all(st, first + rest) == (match replay_all(st, first) {
            Some(mid) => replay_all(mid, rest),
            None => None,
        }),
    decreases rest.len(),
{
    if rest.len() == 0 {
        assert(first + rest =~= first);
    } else {
        assert((first + rest).drop_last() =~= first + rest.drop_last());
        assert((first + rest).last() == rest.last());
        lemma_replay_all_split(st, first, rest.drop_last());
    }
}

/// Where recovery succeeds on some segments it succeeds on the first `n`
/// of them.
pub proof fn lemma_prefix_recovers(st: ReplayState, segs: Seq<SegmentView>, n: int)
    requires
        0 <= n <= segs.len(),
        replay_all(st, segs) is Some,
    ensures
        replay_all(st, segs.take(n)) is Some,
{
    assert(segs.take(n) + segs.skip(n) =~= segs);
    lemma_replay_all_split(st, segs.take(n), segs.skip(n));
}

/// From `offset` on, `bytes` are whole records up to the last byte: no
/// truncated tail.
pub open spec fn well_framed(bytes: Seq<u8>, offset: int) -> bool
    decreases bytes.len() - offset,
{
    if offset >= bytes.len() {
        offset == bytes.len()
    } else {
        has_record_at(bytes, offset) && well_framed(
            bytes,
            offset + header_at(bytes, offset).record_len(),
        )
    }
}

/// The entry `entry` of `key` points at a whole put record of `key`, of the
/// entry's length, in a segment of `segs`.
pub open spec fn entry_valid(segs: Seq<SegmentView>, key: Seq<u8>, entry: Entry) -> bool {
    match segment_data(segs, entry.segment_id) {
        Some(data) => {
            &&& has_record_at(data, entry.offset as int)
            &&& header_at(data, entry.offset as int).record_type == TAG_PUT
            &&& header_at(data, entry.offset as int).record_len() == entry.record_len
            &&& key_at(data, entry.offset as int) == key
        },
        None => false,
    }
}

/// Every entry of `index` is valid in `segs`.
pub open spec fn index_sound(index: Map<Seq<u8>, Entry>, segs: Seq<SegmentView>) -> bool {
    forall|key: Seq<u8>| #[trigger]
        index.contains_key(key) ==> entry_valid(segs, key, index[key])
}

/// The value that `index` and `segs` give for each live key: the value of
/// the record at the key's entry.
pub open spec fn contents(index: Map<Seq<u8>, Entry>, segs: Seq<SegmentView>) -> Map<
    Seq<u8>,
    Seq<u8>,
> {
    Map::new(
        |key: Seq<u8>| index.contains_key(key),
        |key: Seq<u8>|
            value_at(segment_data(segs, index[key].segment_id)->0, index[key].offset as int),
    )
}

/// Replaying one segment of `segs` keeps the index sound.
pub proof fn lemma_replay_segment_sound(
    st: ReplayState,
    segs: Seq<SegmentView>,
    segment_id: u64,
    bytes: Seq<u8>,
    offset: int,
)
    requires
        index_sound(st.index, segs),
        segment_data(segs, segment_id) == Some(bytes),
        0 <= offset,
        bytes.len() <= u64::MAX,
    ensures
        replay_segment(st, segment_id, bytes, offset) matches Some(out) ==> index_sound(
            out.index,
            segs,
        ),
    decreases bytes.len() - offset,
{
    if has_record_at(bytes, offset) && RecordType::of_tag(header_at(bytes, offset).record_type)
        is Some {
        let next = apply_record(st, segment_id, bytes, offset);
        let h = header_at(bytes, offset);
        assert forall|key: Seq<u8>| #[trigger] next.index.contains_key(key) implies entry_valid(
            segs,
            key,
            next.index[key],
        ) by {
            if h.record_type == TAG_PUT && key == key_at(bytes, offset) {
            } else {
                assert(st.index.contains_key(key));
            }
        }
        lemma_replay_segment_sound(next, segs, segment_id, bytes, offset + h.record_len());
    }
}

/// An entry that is valid in some segments is valid in those segments with
/// one more behind them.
pub proof fn lemma_sound_extend(index: Map<Seq<u8>, Entry>, segs: Seq<SegmentView>)
    requires
        ascending(segs),
        segs.len() > 0,
        index_sound(index, segs.drop_last()),
    ensures
        index_sound(index, segs),
{
    let front = segs.drop_last();
    assert forall|key: Seq<u8>| #[trigger] index.contains_key(key) implies entry_valid(
        segs,
        key,
        index[key],
    ) by {
        let e = index[key];
        assert(entry_valid(front, key, e));
        crate::wal::lemma_segment_data_some(front, e.segment_id);
        let i = choose|i: int| 0 <= i < front.len() && #[trigger] front[i].id == e.segment_id;
        assert(segs[i].id < segs[segs.len() - 1].id);
    }
}

/// What recovery builds from segments with rising ids is sound in them.
pub proof fn lemma_replay_all_sound(segs: Seq<SegmentView>)
    requires
        ascending(segs),
        forall|i: int| 0 <= i < segs.len() ==> (#[trigger] segs[i]).data.len() <= u64::MAX,
    ensures
        recover(segs) matches Some(out) ==> index_sound(out.index, segs),
    decreases segs.len(),
{
    if segs.len() > 0 {
        let front = segs.drop_last();
        assert forall|i: int| 0 <= i < front.len() implies (#[trigger] front[i]).data.len()
            <= u64::MAX by {
            assert(front[i] == segs[i]);
        }
        lemma_replay_all_sound(front);
        if recover(front) is Some {
            let mid = recover(front)->0;
            lemma_sound_extend(mid.index, segs);
            lemma_segment_data_at(segs, segs.len() - 1);
            assert(segs[segs.len() - 1].data.len() <= u64::MAX);
            lemma_replay_segment_sound(mid, segs, segs.last().id, segs.last().data, 0);
        }
    }
}

/// A record appended to a segment without a truncated tail is replayed
/// after the records that the segment held, and leaves the segment without
/// a truncated tail.
pub proof fn lemma_replay_append(
    st: ReplayState,
    segment_id: u64,
    bytes: Seq<u8>,
    offset: int,
    record_type: RecordType,
    timestamp: i64,
    key: Seq<u8>,
    value: Seq<u8>,
)
    requires
        0 <= offset <= bytes.len(),
        well_framed(bytes, offset),
        key.len() <= MAX_FIELD_LEN,
        value.len() <= MAX_FIELD_LEN,
    ensures
        ({
            let longer = bytes + record_bytes(record_type, timestamp, key, value);
            &&& well_framed(longer, offset)
            &&& replay_segment(st, segment_id, longer, offset) == (match replay_segment(
                st,
                segment_id,
                bytes,
                offset,
            ) {
                Some(mid) => Some(apply_record(mid, segment_id, longer, bytes.len() as int)),
                None => None,
            })
        }),
    decreases bytes.len() - offset,
{
    let rec = record_bytes(record_type, timestamp, key, value);
    let longer = bytes + rec;
    let end = bytes.len() as int;
    lemma_record_at_end(bytes, record_type, timestamp, key, value, Seq::<u8>::empty());
    assert(bytes + rec + Seq::<u8>::empty() =~= longer);
    lemma_record_well_framed(record_type, timestamp, key, value);
    lemma_well_framed_append(bytes, offset, rec);
    if offset == end {
        let h = header_at(longer, end);
        assert(!has_record_at(bytes, offset));
        assert(end + h.record_len() == longer.len());
        assert(!has_record_at(longer, longer.len() as int));
        let next = apply_record(st, segment_id, longer, end);
        assert(replay_segment(next, segment_id, longer, longer.len() as int) == Some(next));
    } else {
        lemma_record_at_stable(bytes, rec, offset);
        let h = header_at(bytes, offset);
        assert(apply_record(st, segment_id, longer, offset) == apply_record(
            st,
            segment_id,
            bytes,
            offset,
        ));
        if RecordType::of_tag(h.record_type) is Some {
            lemma_replay_append(
                apply_record(st, segment_id, bytes, offset),
                segment_id,
                bytes,
                offset + h.record_len(),
                record_type,
                timestamp,
                key,
                value,
            );
        }
    }
}

/// The bytes of one record are whole records up to the last byte.
pub proof fn lemma_record_well_framed(
    record_type: RecordType,
    timestamp: i64,
    key: Seq<u8>,
    value: Seq<u8>,
)
    requires
        key.len() <= MAX_FIELD_LEN,
        value.len() <= MAX_FIELD_LEN,
    ensures
        well_framed(record_bytes(record_type, timestamp, key, value), 0),
{
    let rec = record_bytes(record_type, timestamp, key, value);
    let none = Seq::<u8>::empty();
    lemma_record_at_end(none, record_type, timestamp, key, value, none);
    assert(none + rec + none =~= rec);
    assert(well_framed(rec, rec.len() as int));
}

/// Whole records appended to a segment without a truncated tail leave it
/// without one.
pub proof fn lemma_well_framed_append(bytes: Seq<u8>, offset: int, rec: Seq<u8>)
    requires
        0 <= offset <= bytes.len(),
        well_framed(bytes, offset),
        well_framed(rec, 0),
    ensures
        well_framed(bytes + rec, offset),
    decreases bytes.len() - offset,
{
    let longer = bytes + rec;
    if offset == bytes.len() {
        lemma_well_framed_shift(bytes, rec, 0);
    } else {
        lemma_record_at_stable(bytes, rec, offset);
        lemma_well_framed_append(bytes, offset + header_at(bytes, offset).record_len(), rec);
    }
}

/// Whole records stay whole records behind a prefix.
pub proof fn lemma_well_framed_shift(prefix: Seq<u8>, rec: Seq<u8>, offset: int)
    requires
        0 <= offset <= rec.len(),
        well_framed(rec, offset),
    ensures
        well_framed(prefix + rec, prefix.len() + offset),
    decreases rec.len() - offset,
{
    let longer = prefix + rec;
    let at = prefix.len() + offset;
    if offset < rec.len() {
        assert(longer.subrange(at, at + HEADER_LEN) =~= rec.subrange(offset, offset + HEADER_LEN));
        lemma_well_framed_shift(prefix, rec, offset + header_at(rec, offset).record_len());
    }
}

/// A log that recovery reads back as it was written: recovery succeeds,
/// and the newest segment has no truncated tail, so that the next record
/// appended to it will be found.
pub open spec fn recoverable(segs: Seq<SegmentView>) -> bool {
    &&& recover(segs) is Some
    &&& segs.len() > 0 ==> well_framed(segs.last().data, 0)
}

/// What appending one record to the newest segment, or to a new segment
/// behind it, does: entries that were valid stay valid and keep their
/// values, the record is found whole at the old end of its segment, and a
/// recoverable log stays recoverable, with the record replayed last.
pub proof fn lemma_append_record(
    segs: Seq<SegmentView>,
    index: Map<Seq<u8>, Entry>,
    id: u64,
    record_type: RecordType,
    timestamp: i64,
    key: Seq<u8>,
    value: Seq<u8>,
)
    requires
        ascending(segs),
        segs.len() > 0 ==> segs.last().id <= id,
        index_sound(index, segs),
        key.len() <= MAX_FIELD_LEN,
        value.len() <= MAX_FIELD_LEN,
    ensures
        ({
            let rec = record_bytes(record_type, timestamp, key, value);
            let longer = with_appended(segs, id, rec);
            let at = segment_size(segs, id) as int;
            &&& ascending(longer)
            &&& longer.len() > 0 && longer.last().id == id
            &&& index_sound(index, longer)
            &&& contents(index, longer) == contents(index, segs)
            &&& segment_data(longer, id) is Some
            &&& segment_data(longer, id)->0.len() == at + HEADER_LEN + key.len() + value.len()
            &&& has_record_at(segment_data(longer, id)->0, at)
            &&& header_at(segment_data(longer, id)->0, at).record_type == record_type.tag()
            &&& header_at(segment_data(longer, id)->0, at).timestamp == timestamp
            &&& header_at(segment_data(longer, id)->0, at).record_len() == HEADER_LEN + key.len()
                + value.len()
            &&& key_at(segment_data(longer, id)->0, at) == key
            &&& value_at(segment_data(longer, id)->0, at) == value
            &&& recoverable(segs) ==> recoverable(longer) && recover(longer) == Some(
                apply_record(recover(segs)->0, id, segment_data(longer, id)->0, at),
            )
        }),
{
    let rec = record_bytes(record_type, timestamp, key, value);
    let longer = with_appended(segs, id, rec);
    let at = segment_size(segs, id) as int;
    let none = Seq::<u8>::empty();
    let before = match segment_data(segs, id) {
        Some(data) => data,
        None => none,
    };
    lemma_with_appended(segs, id, rec);
    lemma_record_at_end(before, record_type, timestamp, key, value, none);
    assert(before + rec + none =~= before + rec);
    assert forall|k: Seq<u8>| #[trigger] index.contains_key(k) implies entry_valid(
        longer,
        k,
        index[k],
    ) && contents(index, longer)[k] == contents(index, segs)[k] by {
        let e = index[k];
        assert(entry_valid(segs, k, e));
        if e.segment_id == id {
            lemma_record_at_stable(before, rec, e.offset as int);
        }
    }
    assert(contents(index, longer) =~= contents(index, segs));
    if recoverable(segs) {
        if segs.len() > 0 && segs.last().id == id {
            let front = segs.drop_last();
            assert(longer.drop_last() =~= front);
            lemma_segment_data_at(segs, segs.len() - 1);
            assert(before == segs.last().data);
            let mid = replay_all(empty_state(), front)->0;
            lemma_replay_append(mid, id, before, 0, record_type, timestamp, key, value);
        } else {
            assert(longer.drop_last() =~= segs);
            assert(before == none);
            assert(none + rec =~= rec);
            lemma_replay_append(recover(segs)->0, id, none, 0, record_type, timestamp, key, value);
        }
    }
}

/// The offset at which the whole records that follow one another from
/// `offset` on end: the first offset where no whole record lies.
pub open spec fn frame_end(bytes: Seq<u8>, offset: int) -> int
    decreases bytes.len() - offset,
{
    if !has_record_at(bytes, offset) {
        offset
    } else {
        frame_end(bytes, offset + header_at(bytes, offset).record_len())
    }
}

/// `segs` with the truncated tail of the newest segment cut off.
pub open spec fn trimmed(segs: Seq<SegmentView>) -> Seq<SegmentView> {
    if segs.len() == 0 {
        segs
    } else {
        segs.drop_last().push(
            SegmentView {
                id: segs.last().id,
                data: segs.last().data.take(frame_end(segs.last().data, 0)),
            },
        )
    }
}

/// The whole records end inside the bytes.
pub proof fn lemma_frame_end_bounds(bytes: Seq<u8>, offset: int)
    requires
        0 <= offset <= bytes.len(),
    ensures
        offset <= frame_end(bytes, offset) <= bytes.len(),
        well_framed(bytes, offset) <==> frame_end(bytes, offset) == bytes.len(),
    decreases bytes.len() - offset,
{
    if has_record_at(bytes, offset) {
        lemma_frame_end_bounds(bytes, offset + header_at(bytes, offset).record_len());
    }
}

/// Cutting the truncated tail off a segment leaves a segment without one,
/// and leaves what a replay of the segment finds.
pub proof fn lemma_trim_segment(st: ReplayState, segment_id: u64, bytes: Seq<u8>, offset: int)
    requires
        0 <= offset <= bytes.len(),
    ensures
        well_framed(bytes.take(frame_end(bytes, offset)), offset),
        replay_segment(st, segment_id, bytes.take(frame_end(bytes, offset)), offset)
            == replay_segment(st, segment_id, bytes, offset),
    decreases bytes.len() - offset,
{
    let end = frame_end(bytes, offset);
    let cut = bytes.take(end);
    lemma_frame_end_bounds(bytes, offset);
    if has_record_at(bytes, offset) {
        let next = offset + header_at(bytes, offset).record_len();
        lemma_frame_end_bounds(bytes, next);
        assert(cut + bytes.skip(end) =~= bytes);
        lemma_record_at_stable(cut, bytes.skip(end), offset);
        assert(apply_record(st, segment_id, cut, offset) == apply_record(
            st,
            segment_id,
            bytes,
            offset,
        ));
        lemma_trim_segment(apply_record(st, segment_id, bytes, offset), segment_id, bytes, next);
    }
}

/// Cutting the truncated tail off the newest segment leaves what recovery
/// finds, and leaves a log in which the next record appended will be found.
pub proof fn lemma_trim_keeps_recovery(segs: Seq<SegmentView>)
    ensures
        recover(trimmed(segs)) == recover(segs),
        recover(segs) is Some ==> recoverable(trimmed(segs)),
{
    if segs.len() > 0 {
        let cut = trimmed(segs);
        assert(cut.drop_last() =~= segs.drop_last());
        if recover(segs.drop_last()) is Some {
            lemma_trim_segment(recover(segs.drop_last())->0, segs.last().id, segs.last().data, 0);
        }
    }
}

/// Cutting the truncated tail off the newest segment leaves the value of
/// every key that recovery finds.
pub proof fn lemma_trim_keeps_contents(segs: Seq<SegmentView>)
    requires
        ascending(segs),
        forall|i: int| 0 <= i < segs.len() ==> (#[trigger] segs[i]).data.len() <= u64::MAX,
        recover(segs) is Some,
    ensures
        ascending(trimmed(segs)),
        index_sound(recover(segs)->0.index, trimmed(segs)),
        contents(recover(segs)->0.index, trimmed(segs)) == contents(recover(segs)->0.index, segs),
{
    let cut = trimmed(segs);
    let index = recover(segs)->0.index;
    lemma_trim_keeps_recovery(segs);
    lemma_replay_all_sound(segs);
    if segs.len() > 0 {
        let last = segs.last();
        let end = frame_end(last.data, 0);
        lemma_frame_end_bounds(last.data, 0);
        assert(cut.drop_last() =~= segs.drop_last());
        assert forall|i: int, j: int| 0 <= i < j < cut.len() implies cut[i].id < cut[j].id by {
            assert(cut[i].id == segs[i].id && cut[j].id == segs[j].id);
        }
        assert forall|i: int| 0 <= i < cut.len() implies (#[trigger] cut[i]).data.len()
            <= u64::MAX by {
            assert(cut[i].data.len() <= segs[i].data.len());
        }
        lemma_replay_all_sound(cut);
        assert forall|key: Seq<u8>| #[trigger] index.contains_key(key) implies contents(
            index,
            cut,
        )[key] == contents(index, segs)[key] by {
            let e = index[key];
            assert(entry_valid(cut, key, e));
            assert(entry_valid(segs, key, e));
            if e.segment_id == last.id {
                assert(last.data.take(end) + last.data.skip(end) =~= last.data);
                lemma_record_at_stable(last.data.take(end), last.data.skip(end), e.offset as int);
            }
        }
        assert(contents(index, cut) =~= contents(index, segs));
    }
}

/// The length of the whole records that `bytes` begin with, one after the
/// other: what is behind them is a truncated tail.
pub fn whole_records_len(bytes: &[u8]) -> (end: usize)
    ensures
        end == frame_end(bytes@, 0),
{
    let len = bytes.len();
    let mut offset: usize = 0;
    loop
        invariant
            len == bytes@.len(),
            offset <= len,
            frame_end(bytes@, 0) == frame_end(bytes@, offset as int),
        ensures
            frame_end(bytes@, 0) == offset,
        decreases len - offset,
    {
        if len - offset < HEADER_LEN {
            break ;
        }
        let header = match decode_header(slice_subrange(bytes, offset, offset + HEADER_LEN)) {
            Ok(h) => h,
            Err(_) => {
                break ;
            },
        };
        assert(header == header_at(bytes@, offset as int));
        let total = header.total_len();
        if total > (len - offset) as u64 {
            break ;
        }
        offset = offset + total as usize;
    }
    offset
}

/// Cuts the truncated tail off the newest segment, so that records
/// appended to it will be found by recovery. Returns the id of that segment
/// and its new length if anything was cut off.
pub fn trim_torn_tail(dir: &mut Directory) -> (cut: Option<(u64, u64)>)
    requires
        old(dir).wf(),
    ensures
        final(dir).wf(),
        final(dir)@ == trimmed(old(dir)@),
        match cut {
            Some((id, len)) => old(dir)@.len() > 0 && id == old(dir)@.last().id && len
                == frame_end(old(dir)@.last().data, 0) && len < old(dir)@.last().data.len(),
            None => final(dir)@ == old(dir)@,
        },
{
    let count = dir.len();
    if count == 0 {
        return None;
    }
    let ghost before = dir@;
    let newest = dir.segment_at(count - 1);
    let id = newest.id;
    let size = newest.data.len();
    let end = whole_records_len(newest.data.as_slice());
    proof {
        lemma_frame_end_bounds(before.last().data, 0);
    }
    if end == size {
        assert(before.last().data.take(end as int) =~= before.last().data);
        assert(trimmed(before) =~= before);
        return None;
    }
    dir.truncate_segment(id, end);
    proof {
        assert forall|i: int| 0 <= i < before.len() - 1 implies before[i].id != id by {
            assert(before[i].id < before[before.len() - 1].id);
        }
        assert(dir@ =~= trimmed(before));
    }
    Some((id, end as u64))
}

/// Replays the records of one segment into `index` and `reclaimable`, up
/// to the first offset where no whole record lies.
pub fn replay_segment_into(
    index: &mut Index,
    reclaimable: &mut u64,
    segment_id: u64,
    bytes: &[u8],
) -> (out: Result<(), KvError>)
    requires
        old(index).wf(),
    ensures
        final(index).wf(),
        match replay_segment(
            ReplayState { index: old(index)@, reclaimable: *old(reclaimable) },
            segment_id,
            bytes@,
            0,
        ) {
            Some(st) => out is Ok && final(index)@ == st.index && *final(reclaimable)
                == st.reclaimable,
            None => out matches Err(KvError::Corrupt),
        },
{
    let ghost start = ReplayState { index: index@, reclaimable: *reclaimable };
    let len = bytes.len();
    let mut offset: usize = 0;
    loop
        invariant
            start == (ReplayState { index: old(index)@, reclaimable: *old(reclaimable) }),
            len == bytes@.len(),
            offset <= len,
            index.wf(),
            replay_segment(start, segment_id, bytes@, 0) == replay_segment(
                ReplayState { index: index@, reclaimable: *reclaimable },
                segment_id,
                bytes@,
                offset as int,
            ),
        ensures
            index.wf(),
            replay_segment(start, segment_id, bytes@, 0) == Some(
                ReplayState { index: index@, reclaimable: *reclaimable },
            ),
        decreases len - offset,
    {
        if len - offset < HEADER_LEN {
            break ;
        }
        let header = match decode_header(slice_subrange(bytes, offset, offset + HEADER_LEN)) {
            Ok(h) => h,
            Err(_) => {
                return Err(KvError::Corrupt);
            },
        };
        let total = header.total_len();
        if total > (len - offset) as u64 {
            break ;
        }
        let ghost before = ReplayState { index: index@, reclaimable: *reclaimable };
        assert(header == header_at(bytes@, offset as int));
        assert(has_record_at(bytes@, offset as int));
        let record_type = match RecordType::from_byte(header.record_type) {
            Some(t) => t,
            None => {
                return Err(KvError::Corrupt);
            },
        };
        let key_start = offset + HEADER_LEN;
        let key = slice_subrange(bytes, key_start, key_start + header.key_len as usize);
        assert(key@ == key_at(bytes@, offset as int));
        match record_type {
            RecordType::Put => {
                let entry = Entry { segment_id, offset: offset as u64, record_len: total };
                let previous = index.insert(key, entry);
                if let Some(old_entry) = previous {
                    *reclaimable = reclaimable.saturating_add(old_entry.record_len);
                }
            },
            RecordType::Delete => {
                let previous = index.remove(key);
                if let Some(old_entry) = previous {
                    *reclaimable = reclaimable.saturating_add(old_entry.record_len).saturating_add(
                        total,
                    );
                }
            },
        }
        assert(index@ =~= apply_record(before, segment_id, bytes@, offset as int).index);
        assert(ReplayState { index: index@, reclaimable: *reclaimable } == apply_record(
            before,
            segment_id,
            bytes@,
            offset as int,
        ));
        offset = offset + total as usize;
    }
    Ok(())
}

} // verus!
