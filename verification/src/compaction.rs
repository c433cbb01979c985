//! Compaction: the live records of the sealed segments are written anew
//! into one segment, and the index is pointed at the new places.
//!
//! A cycle has two steps, so that writes can go on between them. The plan
//! copies the records and stages the new index entries; it changes
//! nothing. The commit applies each staged entry whose key still points at
//! the record that was copied, and puts the new segment in place of the
//! sealed ones.

use crate::helper::append_bytes;
use crate::index::{
    distinct_keys, lemma_slots_map_at, lemma_slots_map_dom, slots_map, Entry, Index, SlotView,
};
use crate::record::{
    has_record_at, header_at, key_at, lemma_record_at_stable, value_at, RecordType, HEADER_LEN,
    TAG_PUT,
};
use crate::recovery::{
    apply_record, contents, empty_state, entry_valid, index_sound, lemma_prefix_recovers,
    lemma_replay_all_sound, lemma_replay_all_split, recover, recoverable, replay_all,
    replay_segment, well_framed, ReplayState,
};
use crate::wal::{
    ascending, lemma_segment_data_at, lemma_segment_data_some, lemma_with_appended,
    segment_data, with_appended, Directory, SegmentView,
};
use vstd::prelude::*;
use vstd::slice::slice_subrange;

verus! {

/// The entry of `key` in `index`, if the key is there.
pub open spec fn entry_of(index: Map<Seq<u8>, Entry>, key: Seq<u8>) -> Option<Entry> {
    if index.contains_key(key) {
        Some(index[key])
    } else {
        None
    }
}

/// Among the whole records that follow one another from `offset` on, one
/// is a record of `key`.
pub open spec fn touched(bytes: Seq<u8>, offset: int, key: Seq<u8>) -> bool
    decreases bytes.len() - offset,
{
    has_record_at(bytes, offset) && (key_at(bytes, offset) == key || touched(
        bytes,
        offset + header_at(bytes, offset).record_len(),
        key,
    ))
}

/// Every whole record that follows from `offset` on in the segment `id` is
/// a put record, and `index` points its key at it: the segment holds no
/// record that is not live.
pub open spec fn records_live(
    bytes: Seq<u8>,
    offset: int,
    index: Map<Seq<u8>, Entry>,
    id: u64,
) -> bool
    decreases bytes.len() - offset,
{
    has_record_at(bytes, offset) ==> {
        let h = header_at(bytes, offset);
        &&& h.record_type == TAG_PUT
        &&& entry_of(index, key_at(bytes, offset)) == Some(
            Entry { segment_id: id, offset: offset as u64, record_len: h.record_len() as u64 },
        )
        &&& records_live(bytes, offset + h.record_len(), index, id)
    }
}

/// The record at `offset` in `src`, copied behind `prefix`, is a whole
/// record there with the same header, key and value.
pub proof fn lemma_record_copy(src: Seq<u8>, offset: int, prefix: Seq<u8>)
    requires
        has_record_at(src, offset),
    ensures
        ({
            let len = header_at(src, offset).record_len();
            let dst = prefix + src.subrange(offset, offset + len);
            let at = prefix.len() as int;
            &&& has_record_at(dst, at)
            &&& at + len == dst.len()
            &&& header_at(dst, at) == header_at(src, offset)
            &&& key_at(dst, at) == key_at(src, offset)
            &&& value_at(dst, at) == value_at(src, offset)
        }),
{
    let len = header_at(src, offset).record_len();
    let dst = prefix + src.subrange(offset, offset + len);
    let at = prefix.len() as int;
    assert(dst.subrange(at, at + HEADER_LEN) =~= src.subrange(offset, offset + HEADER_LEN));
    assert(key_at(dst, at) =~= key_at(src, offset));
    assert(value_at(dst, at) =~= value_at(src, offset));
}

/// The outcome of a replay of one segment at one key does not depend on
/// the state in which the replay began, but where no record of the segment
/// bears the key: there the key is left as it was. Whether the replay
/// fails does not depend on that state at all.
pub proof fn lemma_replay_local(
    first: ReplayState,
    second: ReplayState,
    id: u64,
    bytes: Seq<u8>,
    offset: int,
    key: Seq<u8>,
)
    requires
        0 <= offset,
    ensures
        replay_segment(first, id, bytes, offset) is Some <==> replay_segment(
            second,
            id,
            bytes,
            offset,
        ) is Some,
        replay_segment(first, id, bytes, offset) is Some ==> ({
            let a = replay_segment(first, id, bytes, offset)->0.index;
            let b = replay_segment(second, id, bytes, offset)->0.index;
            if touched(bytes, offset, key) {
                entry_of(a, key) == entry_of(b, key) && (a.contains_key(key) ==> a[key].segment_id
                    == id)
            } else {
                entry_of(a, key) == entry_of(first.index, key) && entry_of(b, key) == entry_of(
                    second.index,
                    key,
                )
            }
        }),
    decreases bytes.len() - offset,
{
    if has_record_at(bytes, offset) && RecordType::of_tag(header_at(bytes, offset).record_type)
        is Some {
        let next = offset + header_at(bytes, offset).record_len();
        lemma_replay_local(
            apply_record(first, id, bytes, offset),
            apply_record(second, id, bytes, offset),
            id,
            bytes,
            next,
            key,
        );
    }
}

/// The replay of a segment that holds live records only succeeds, and
/// leaves each key of a record where `index` has it and every other key as
/// it was.
pub proof fn lemma_replay_live(
    st: ReplayState,
    id: u64,
    bytes: Seq<u8>,
    offset: int,
    index: Map<Seq<u8>, Entry>,
    key: Seq<u8>,
)
    requires
        0 <= offset,
        records_live(bytes, offset, index, id),
    ensures
        replay_segment(st, id, bytes, offset) is Some,
        entry_of(replay_segment(st, id, bytes, offset)->0.index, key) == (if touched(
            bytes,
            offset,
            key,
        ) {
            entry_of(index, key)
        } else {
            entry_of(st.index, key)
        }),
    decreases bytes.len() - offset,
{
    if has_record_at(bytes, offset) {
        let next = offset + header_at(bytes, offset).record_len();
        lemma_replay_live(apply_record(st, id, bytes, offset), id, bytes, next, index, key);
    }
}

/// A live record of a new key, appended to a segment of live records
/// without a truncated tail, leaves such a segment: the index with the new
/// key pointed at the record.
pub proof fn lemma_live_append(
    bytes: Seq<u8>,
    offset: int,
    index: Map<Seq<u8>, Entry>,
    id: u64,
    rec: Seq<u8>,
)
    requires
        0 <= offset <= bytes.len(),
        well_framed(bytes, offset),
        records_live(bytes, offset, index, id),
        has_record_at(rec, 0),
        header_at(rec, 0).record_len() == rec.len(),
        header_at(rec, 0).record_type == TAG_PUT,
        !touched(bytes, offset, key_at(rec, 0)),
    ensures
        ({
            let longer = bytes + rec;
            let key = key_at(rec, 0);
            let entry = Entry {
                segment_id: id,
                offset: bytes.len() as u64,
                record_len: rec.len() as u64,
            };
            &&& well_framed(longer, offset)
            &&& records_live(longer, offset, index.insert(key, entry), id)
            &&& forall|k: Seq<u8>|
                touched(longer, offset, k) <==> (k == key || touched(bytes, offset, k))
        }),
    decreases bytes.len() - offset,
{
    let longer = bytes + rec;
    let key = key_at(rec, 0);
    let entry = Entry { segment_id: id, offset: bytes.len() as u64, record_len: rec.len() as u64 };
    let end = bytes.len() as int;
    if offset == end {
        lemma_record_copy(rec, 0, bytes);
        assert(rec.subrange(0, rec.len() as int) =~= rec);
        assert(!has_record_at(bytes, offset));
        assert(!has_record_at(longer, longer.len() as int));
        assert(well_framed(longer, longer.len() as int));
        assert(records_live(longer, longer.len() as int, index.insert(key, entry), id));
        assert forall|k: Seq<u8>| touched(longer, offset, k) <==> (k == key || touched(
            bytes,
            offset,
            k,
        )) by {
            assert(!touched(longer, longer.len() as int, k));
        }
    } else {
        lemma_record_at_stable(bytes, rec, offset);
        let next = offset + header_at(bytes, offset).record_len();
        lemma_live_append(bytes, next, index, id, rec);
        assert forall|k: Seq<u8>| touched(longer, offset, k) <==> (k == key || touched(
            bytes,
            offset,
            k,
        )) by {
            assert(touched(longer, next, k) <==> (k == key || touched(bytes, next, k)));
        }
    }
}

/// One staged index update: the key, the entry that the key had when its
/// record was copied, and the entry of the copy.
#[derive(Debug)]
pub struct Staged {
    pub key: Vec<u8>,
    pub from: Entry,
    pub to: Entry,
}

/// A staged index update as a mathematical value.
pub struct StagedView {
    pub key: Seq<u8>,
    pub from: Entry,
    pub to: Entry,
}

impl View for Staged {
    type V = StagedView;

    open spec fn view(&self) -> StagedView {
        StagedView { key: self.key@, from: self.from, to: self.to }
    }
}

/// What a compaction cycle has prepared: the id of the segment that was
/// active when the cycle began, the number of segments that were sealed
/// then, the bytes of the compacted segment, and the staged index updates.
#[derive(Debug)]
pub struct Plan {
    pub active_id: u64,
    pub sealed: usize,
    pub data: Vec<u8>,
    pub staged: Vec<Staged>,
}

/// A plan as a mathematical value.
pub struct PlanView {
    pub active_id: u64,
    pub sealed: int,
    pub data: Seq<u8>,
    pub staged: Seq<StagedView>,
}

impl View for Plan {
    type V = PlanView;

    open spec fn view(&self) -> PlanView {
        PlanView {
            active_id: self.active_id,
            sealed: self.sealed as int,
            data: self.data@,
            staged: Seq::new(self.staged@.len(), |i: int| self.staged@[i]@),
        }
    }
}

/// The staged updates as slots: each key with the entry of its copy.
pub open spec fn targets(staged: Seq<StagedView>) -> Seq<SlotView> {
    Seq::new(staged.len(), |i: int| SlotView { key: staged[i].key, entry: staged[i].to })
}

/// The staged update `s` stands for a copy: its old entry points at a whole
/// put record of its key in a segment that was sealed when the cycle began,
/// and its new entry points at a whole record in the segment 0 with the
/// bytes `data` that has the same header, key and value.
pub open spec fn copied(
    segs: Seq<SegmentView>,
    s: StagedView,
    active_id: u64,
    data: Seq<u8>,
) -> bool {
    let src = segment_data(segs, s.from.segment_id)->0;
    &&& s.from.segment_id < active_id
    &&& entry_valid(segs, s.key, s.from)
    &&& s.to.segment_id == 0
    &&& s.to.record_len == s.from.record_len
    &&& has_record_at(data, s.to.offset as int)
    &&& header_at(data, s.to.offset as int) == header_at(src, s.from.offset as int)
    &&& key_at(data, s.to.offset as int) == key_at(src, s.from.offset as int)
    &&& value_at(data, s.to.offset as int) == value_at(src, s.from.offset as int)
}

/// One of the staged updates is for `key`, from the entry `entry`.
pub open spec fn staged_from(staged: Seq<StagedView>, key: Seq<u8>, entry: Entry) -> bool {
    exists|i: int| 0 <= i < staged.len() && (#[trigger] staged[i]).key == key && staged[i].from == entry
}

/// The plan fits the segments and the index of a store: the segments that
/// were sealed when the cycle began are still there, the compacted bytes
/// hold one whole copy for each staged update and nothing else, and every
/// index entry that still points into a sealed segment has its update
/// staged.
pub open spec fn plan_valid(
    plan: PlanView,
    segs: Seq<SegmentView>,
    index: Map<Seq<u8>, Entry>,
) -> bool {
    &&& 1 <= plan.sealed < segs.len()
    &&& segs[plan.sealed].id == plan.active_id
    &&& distinct_keys(targets(plan.staged))
    &&& well_framed(plan.data, 0)
    &&& records_live(plan.data, 0, slots_map(targets(plan.staged)), 0)
    &&& forall|key: Seq<u8>|
        touched(plan.data, 0, key) <==> #[trigger] slots_map(targets(plan.staged)).contains_key(
            key,
        )
    &&& forall|i: int|
        0 <= i < plan.staged.len() ==> copied(
            segs,
            #[trigger] plan.staged[i],
            plan.active_id,
            plan.data,
        )
    &&& forall|key: Seq<u8>| #[trigger]
        index.contains_key(key) && index[key].segment_id < plan.active_id ==> staged_from(
            plan.staged,
            key,
            index[key],
        )
}

/// The plan was made from what recovery finds in the sealed segments:
/// there each staged key has the entry that its update is from.
pub open spec fn plan_based(plan: PlanView, segs: Seq<SegmentView>) -> bool {
    forall|i: int|
        0 <= i < plan.staged.len() ==> entry_of(
            recover(segs.take(plan.sealed))->0.index,
            (#[trigger] plan.staged[i]).key,
        ) == Some(plan.staged[i].from)
}

/// The index after the staged updates were applied: a key is pointed at
/// the copy of its record if it still points at the record that was
/// copied, and is left as it is otherwise.
pub open spec fn committed(index: Map<Seq<u8>, Entry>, staged: Seq<StagedView>) -> Map<
    Seq<u8>,
    Entry,
>
    decreases staged.len(),
{
    if staged.len() == 0 {
        index
    } else {
        let before = committed(index, staged.drop_last());
        let s = staged.last();
        if entry_of(before, s.key) == Some(s.from) {
            before.insert(s.key, s.to)
        } else {
            before
        }
    }
}

/// The segments after a commit: the compacted segment under id 0, and the
/// segments that were not sealed when the cycle began.
pub open spec fn compacted_segments(segs: Seq<SegmentView>, plan: PlanView) -> Seq<SegmentView> {
    seq![SegmentView { id: 0, data: plan.data }] + segs.skip(plan.sealed)
}

/// One of `segs` holds a record of `key`.
pub open spec fn touched_any(segs: Seq<SegmentView>, key: Seq<u8>) -> bool
    decreases segs.len(),
{
    segs.len() > 0 && (touched(segs.last().data, 0, key) || touched_any(segs.drop_last(), key))
}

/// One of `segs` bears the id `id`.
pub open spec fn has_id(segs: Seq<SegmentView>, id: u64) -> bool {
    exists|i: int| 0 <= i < segs.len() && (#[trigger] segs[i]).id == id
}

/// What a commit does to one key.
pub proof fn lemma_committed_at(
    index: Map<Seq<u8>, Entry>,
    staged: Seq<StagedView>,
    key: Seq<u8>,
)
    requires
        distinct_keys(targets(staged)),
    ensures
        forall|i: int|
            0 <= i < staged.len() && (#[trigger] staged[i]).key == key && entry_of(index, key)
                == Some(staged[i].from) ==> entry_of(committed(index, staged), key) == Some(
                staged[i].to,
            ),
        (forall|i: int|
            0 <= i < staged.len() && (#[trigger] staged[i]).key == key ==> entry_of(index, key)
                != Some(staged[i].from)) ==> entry_of(committed(index, staged), key) == entry_of(
            index,
            key,
        ),
    decreases staged.len(),
{
    if staged.len() > 0 {
        let front = staged.drop_last();
        let s = staged.last();
        let n = staged.len() - 1;
        assert forall|x: int, y: int| 0 <= x < y < targets(front).len() implies targets(
            front,
        )[x].key != targets(front)[y].key by {
            assert(targets(staged)[x].key != targets(staged)[y].key);
        }
        lemma_committed_at(index, front, key);
        let before = committed(index, front);
        if s.key == key {
            assert forall|i: int| 0 <= i < front.len() implies (#[trigger] front[i]).key
                != key by {
                assert(targets(staged)[i].key != targets(staged)[n].key);
            }
            assert(entry_of(before, key) == entry_of(index, key));
            assert forall|i: int|
                0 <= i < staged.len() && (#[trigger] staged[i]).key == key && entry_of(
                    index,
                    key,
                ) == Some(staged[i].from) implies entry_of(committed(index, staged), key)
                == Some(staged[i].to) by {
                if i < n {
                    assert(front[i].key != key);
                }
            }
            if forall|i: int|
                0 <= i < staged.len() && (#[trigger] staged[i]).key == key ==> entry_of(
                    index,
                    key,
                ) != Some(staged[i].from) {
                assert(staged[n].key == key);
            }
        } else {
            assert forall|i: int|
                0 <= i < staged.len() && (#[trigger] staged[i]).key == key && entry_of(
                    index,
                    key,
                ) == Some(staged[i].from) implies entry_of(committed(index, staged), key)
                == Some(staged[i].to) by {
                assert(i < n);
                assert(front[i] == staged[i]);
            }
            if forall|i: int|
                0 <= i < staged.len() && (#[trigger] staged[i]).key == key ==> entry_of(
                    index,
                    key,
                ) != Some(staged[i].from) {
                assert forall|i: int|
                    0 <= i < front.len() && (#[trigger] front[i]).key == key implies entry_of(
                    index,
                    key,
                ) != Some(front[i].from) by {
                    assert(front[i] == staged[i]);
                }
            }
        }
    }
}

/// The outcome of a replay of some segments at one key does not depend on
/// the state in which the replay began, but where no record of the
/// segments bears the key: there the key is left as it was. Where a record
/// bears the key, the key ends in one of these segments or is gone.
pub proof fn lemma_replay_all_local(
    first: ReplayState,
    second: ReplayState,
    segs: Seq<SegmentView>,
    key: Seq<u8>,
)
    ensures
        replay_all(first, segs) is Some <==> replay_all(second, segs) is Some,
        replay_all(first, segs) is Some ==> ({
            let a = replay_all(first, segs)->0.index;
            let b = replay_all(second, segs)->0.index;
            if touched_any(segs, key) {
                entry_of(a, key) == entry_of(b, key) && (a.contains_key(key) ==> has_id(
                    segs,
                    a[key].segment_id,
                ))
            } else {
                entry_of(a, key) == entry_of(first.index, key) && entry_of(b, key) == entry_of(
                    second.index,
                    key,
                )
            }
        }),
    decreases segs.len(),
{
    if segs.len() > 0 {
        let front = segs.drop_last();
        let last = segs.last();
        lemma_replay_all_local(first, second, front, key);
        if replay_all(first, front) is Some {
            let x = replay_all(first, front)->0;
            let y = replay_all(second, front)->0;
            lemma_replay_local(x, y, last.id, last.data, 0, key);
            if replay_all(first, segs) is Some {
                let a = replay_all(first, segs)->0.index;
                if touched(last.data, 0, key) {
                    if a.contains_key(key) {
                        assert(segs[segs.len() - 1].id == a[key].segment_id);
                    }
                } else if touched_any(front, key) {
                    if a.contains_key(key) {
                        let i = choose|i: int|
                            0 <= i < front.len() && (#[trigger] front[i]).id == a[key].segment_id;
                        assert(segs[i].id == a[key].segment_id);
                    }
                }
            }
        }
    }
}

/// A plan that fits a store fits it after an append to the newest segment
/// or behind it, if no index entry was pointed into a sealed segment.
pub proof fn lemma_plan_survives(
    plan: PlanView,
    segs: Seq<SegmentView>,
    index: Map<Seq<u8>, Entry>,
    id: u64,
    bytes: Seq<u8>,
    after: Map<Seq<u8>, Entry>,
)
    requires
        ascending(segs),
        segs.len() > 0,
        segs.last().id <= id,
        plan_valid(plan, segs, index),
        forall|key: Seq<u8>| #[trigger]
            after.contains_key(key) && after[key].segment_id < plan.active_id
                ==> index.contains_key(key) && index[key] == after[key],
    ensures
        plan_valid(plan, with_appended(segs, id, bytes), after),
        with_appended(segs, id, bytes).take(plan.sealed) == segs.take(plan.sealed),
{
    let longer = with_appended(segs, id, bytes);
    lemma_with_appended(segs, id, bytes);
    assert(longer.take(plan.sealed) =~= segs.take(plan.sealed));
    assert(longer[plan.sealed].id == segs[plan.sealed].id);
    assert(segs[plan.sealed].id <= segs[segs.len() - 1].id);
    assert forall|i: int| 0 <= i < plan.staged.len() implies copied(
        longer,
        #[trigger] plan.staged[i],
        plan.active_id,
        plan.data,
    ) by {
        let s = plan.staged[i];
        assert(copied(segs, s, plan.active_id, plan.data));
        assert(s.from.segment_id != id);
        assert(segment_data(longer, s.from.segment_id) == segment_data(segs, s.from.segment_id));
    }
    assert forall|key: Seq<u8>| #[trigger]
        after.contains_key(key) && after[key].segment_id < plan.active_id implies staged_from(
        plan.staged,
        key,
        after[key],
    ) by {
        assert(index.contains_key(key));
    }
}

/// A plan that was just made is based on what recovery finds in the sealed
/// segments.
pub proof fn lemma_fresh_plan_based(
    plan: PlanView,
    segs: Seq<SegmentView>,
    index: Map<Seq<u8>, Entry>,
)
    requires
        ascending(segs),
        recoverable(segs),
        recover(segs)->0.index == index,
        plan.sealed == segs.len() - 1,
        plan_valid(plan, segs, index),
        forall|i: int|
            0 <= i < plan.staged.len() ==> entry_of(index, (#[trigger] plan.staged[i]).key)
                == Some(plan.staged[i].from),
    ensures
        plan_based(plan, segs),
{
    let sealed = segs.take(plan.sealed);
    assert(sealed =~= segs.drop_last());
    let base = recover(sealed)->0;
    let last = segs.last();
    assert forall|i: int| 0 <= i < plan.staged.len() implies entry_of(
        base.index,
        (#[trigger] plan.staged[i]).key,
    ) == Some(plan.staged[i].from) by {
        let s = plan.staged[i];
        assert(copied(segs, s, plan.active_id, plan.data));
        lemma_replay_local(base, base, last.id, last.data, 0, s.key);
    }
}

/// A commit keeps every live key and its value, and leaves the index sound
/// in the segments that remain.
pub proof fn lemma_commit_sound(
    plan: PlanView,
    segs: Seq<SegmentView>,
    index: Map<Seq<u8>, Entry>,
)
    requires
        ascending(segs),
        index_sound(index, segs),
        plan_valid(plan, segs, index),
    ensures
        ascending(compacted_segments(segs, plan)),
        compacted_segments(segs, plan).last() == segs.last(),
        index_sound(committed(index, plan.staged), compacted_segments(segs, plan)),
        contents(committed(index, plan.staged), compacted_segments(segs, plan)) == contents(
            index,
            segs,
        ),
{
    let out = compacted_segments(segs, plan);
    let after = committed(index, plan.staged);
    let r = plan.sealed;
    assert(segs[0].id < segs[r].id);
    assert forall|i: int, j: int| 0 <= i < j < out.len() implies out[i].id < out[j].id by {
        assert(out[j] == segs[r + j - 1]);
        if i > 0 {
            assert(out[i] == segs[r + i - 1]);
        } else {
            assert(segs[r].id <= segs[r + j - 1].id);
        }
    }
    lemma_segment_data_at(out, 0);
    assert forall|key: Seq<u8>|
        after.contains_key(key) == index.contains_key(key) && (#[trigger] after.contains_key(key)
            ==> entry_valid(out, key, after[key]) && contents(after, out)[key] == contents(
            index,
            segs,
        )[key]) by {
        lemma_committed_at(index, plan.staged, key);
        if exists|i: int|
            0 <= i < plan.staged.len() && (#[trigger] plan.staged[i]).key == key && entry_of(
                index,
                key,
            ) == Some(plan.staged[i].from) {
            let i = choose|i: int|
                0 <= i < plan.staged.len() && (#[trigger] plan.staged[i]).key == key && entry_of(
                    index,
                    key,
                ) == Some(plan.staged[i].from);
            assert(copied(segs, plan.staged[i], plan.active_id, plan.data));
        } else if index.contains_key(key) {
            let e = index[key];
            assert(entry_valid(segs, key, e));
            if e.segment_id < plan.active_id {
                assert(staged_from(plan.staged, key, e));
                let i = choose|i: int|
                    0 <= i < plan.staged.len() && (#[trigger] plan.staged[i]).key == key
                        && plan.staged[i].from == e;
                assert(false);
            }
            lemma_segment_data_some(segs, e.segment_id);
            let i = choose|i: int| 0 <= i < segs.len() && #[trigger] segs[i].id == e.segment_id;
            if i < r {
                assert(segs[i].id < segs[r].id);
            }
            assert(out[i - r + 1] == segs[i]);
            lemma_segment_data_at(out, i - r + 1);
            lemma_segment_data_at(segs, i);
        }
    }
    assert(contents(after, out) =~= contents(index, segs));
}

/// A commit keeps a recoverable log recoverable: recovery from the
/// compacted segment and the segments that were not sealed rebuilds the
/// committed index.
pub proof fn lemma_commit_recoverable(
    plan: PlanView,
    segs: Seq<SegmentView>,
    index: Map<Seq<u8>, Entry>,
)
    requires
        ascending(segs),
        forall|i: int| 0 <= i < segs.len() ==> (#[trigger] segs[i]).data.len() <= u64::MAX,
        recoverable(segs),
        recover(segs)->0.index == index,
        plan_valid(plan, segs, index),
        plan_based(plan, segs),
    ensures
        recoverable(compacted_segments(segs, plan)),
        recover(compacted_segments(segs, plan))->0.index == committed(index, plan.staged),
{
    let r = plan.sealed;
    let sealed = segs.take(r);
    let later = segs.skip(r);
    let first = seq![SegmentView { id: 0, data: plan.data }];
    let out = compacted_segments(segs, plan);
    let after = committed(index, plan.staged);
    let live = slots_map(targets(plan.staged));
    let none = Seq::<u8>::empty();
    assert(sealed + later =~= segs);
    lemma_replay_all_split(empty_state(), sealed, later);
    lemma_replay_all_split(empty_state(), first, later);
    lemma_prefix_recovers(empty_state(), segs, r);
    let base = recover(sealed)->0;
    assert(first.drop_last() =~= Seq::<SegmentView>::empty());
    assert(replay_all(empty_state(), first.drop_last()) == Some(empty_state()));
    lemma_replay_live(empty_state(), 0, plan.data, 0, live, none);
    let fresh = replay_segment(empty_state(), 0, plan.data, 0)->0;
    assert(recover(first) == Some(fresh));
    lemma_replay_all_local(base, fresh, later, none);
    assert(recover(out) == replay_all(fresh, later));
    assert(recover(segs) == replay_all(base, later));
    assert(out.last() == segs.last());
    let result = recover(out)->0.index;
    assert forall|i: int| 0 <= i < sealed.len() implies (#[trigger] sealed[i]).data.len()
        <= u64::MAX by {
        assert(sealed[i] == segs[i]);
    }
    assert forall|i: int, j: int| 0 <= i < j < sealed.len() implies sealed[i].id
        < sealed[j].id by {
        assert(sealed[i] == segs[i] && sealed[j] == segs[j]);
    }
    lemma_replay_all_sound(sealed);
    assert forall|key: Seq<u8>| entry_of(result, key) == entry_of(after, key) by {
        lemma_replay_all_local(base, fresh, later, key);
        lemma_replay_live(empty_state(), 0, plan.data, 0, live, key);
        lemma_committed_at(index, plan.staged, key);
        lemma_slots_map_dom(targets(plan.staged), key);
        if touched_any(later, key) {
            if index.contains_key(key) {
                let w = choose|w: int|
                    0 <= w < later.len() && (#[trigger] later[w]).id == index[key].segment_id;
                assert(later[w] == segs[r + w]);
                assert(segs[r].id <= segs[r + w].id);
            }
            assert forall|i: int|
                0 <= i < plan.staged.len() && (#[trigger] plan.staged[i]).key
                    == key implies entry_of(index, key) != Some(plan.staged[i].from) by {
                assert(copied(segs, plan.staged[i], plan.active_id, plan.data));
            }
        } else {
            if live.contains_key(key) {
                let i = choose|i: int|
                    0 <= i < targets(plan.staged).len() && #[trigger] targets(plan.staged)[i].key
                        == key;
                lemma_slots_map_at(targets(plan.staged), i);
                assert(plan.staged[i].key == key);
                assert(entry_of(base.index, plan.staged[i].key) == Some(plan.staged[i].from));
            } else {
                assert forall|i: int|
                    0 <= i < plan.staged.len() implies (#[trigger] plan.staged[i]).key
                    != key by {
                    assert(targets(plan.staged)[i].key == plan.staged[i].key);
                }
                if index.contains_key(key) {
                    let e = index[key];
                    assert(entry_valid(sealed, key, e));
                    lemma_segment_data_some(sealed, e.segment_id);
                    let w = choose|w: int|
                        0 <= w < sealed.len() && #[trigger] sealed[w].id == e.segment_id;
                    assert(sealed[w] == segs[w]);
                    assert(segs[w].id < segs[r].id);
                    assert(staged_from(plan.staged, key, e));
                }
            }
        }
    }
    assert forall|key: Seq<u8>| #[trigger]
        result.dom().contains(key) == after.dom().contains(key) by {
        assert(entry_of(result, key) == entry_of(after, key));
    }
    assert forall|key: Seq<u8>| #[trigger] result.dom().contains(key) implies result[key]
        == after[key] by {
        assert(entry_of(result, key) == entry_of(after, key));
    }
    assert(result =~= after);
}

/// The staged updates of a plan as mathematical values.
pub open spec fn staged_view(staged: Seq<Staged>) -> Seq<StagedView> {
    Seq::new(staged.len(), |i: int| staged[i]@)
}

/// One of the first `n` of `slots` bears `key` with the entry `entry`, and
/// lies outside the segment `active_id`.
pub open spec fn sealed_slot(
    slots: Seq<SlotView>,
    n: int,
    active_id: u64,
    key: Seq<u8>,
    entry: Entry,
) -> bool {
    exists|j: int|
        0 <= j < n && (#[trigger] slots[j]).key == key && slots[j].entry == entry
            && entry.segment_id != active_id
}

/// The first step of a compaction cycle: copies the record of every index
/// entry that lies in a sealed segment into a new run of bytes, one whole
/// record after the other, and stages for each the entry of its copy in
/// the segment 0. Each record is copied as it is, so it keeps its
/// timestamp. Neither the index nor the segments change.
pub fn plan_compaction(index: &Index, dir: &Directory) -> (plan: Plan)
    requires
        index.wf(),
        dir.wf(),
        dir@.len() >= 2,
        index_sound(index@, dir@),
    ensures
        plan@.active_id == dir@.last().id,
        plan@.sealed == dir@.len() - 1,
        plan_valid(plan@, dir@, index@),
        forall|i: int|
            0 <= i < plan@.staged.len() ==> entry_of(index@, (#[trigger] plan@.staged[i]).key)
                == Some(plan@.staged[i].from),
{
    let ghost start = index.slots();
    let count = dir.len();
    let active_id = dir.segment_at(count - 1).id;
    let mut data: Vec<u8> = Vec::new();
    let mut staged: Vec<Staged> = Vec::new();
    let n = index.len();
    let mut i: usize = 0;
    proof {
        assert forall|j: int| 0 <= j < start.len() implies entry_valid(
            dir@,
            (#[trigger] start[j]).key,
            start[j].entry,
        ) by {
            lemma_slots_map_at(start, j);
        }
        assert(targets(staged_view(staged@)) =~= Seq::<SlotView>::empty());
    }
    while i < n
        invariant
            dir.wf(),
            index.wf(),
            index.slots() == start,
            distinct_keys(start),
            n == start.len(),
            i <= n,
            dir@.len() >= 2,
            active_id == dir@.last().id,
            forall|j: int|
                0 <= j < n ==> entry_valid(dir@, (#[trigger] start[j]).key, start[j].entry),
            distinct_keys(targets(staged_view(staged@))),
            forall|t: int|
                0 <= t < staged@.len() ==> sealed_slot(
                    start,
                    i as int,
                    active_id,
                    (#[trigger] staged_view(staged@)[t]).key,
                    staged_view(staged@)[t].from,
                ),
            forall|j: int|
                0 <= j < i && (#[trigger] start[j]).entry.segment_id != active_id ==> staged_from(
                    staged_view(staged@),
                    start[j].key,
                    start[j].entry,
                ),
            forall|t: int|
                0 <= t < staged@.len() ==> copied(
                    dir@,
                    #[trigger] staged_view(staged@)[t],
                    active_id,
                    data@,
                ),
            well_framed(data@, 0),
            records_live(data@, 0, slots_map(targets(staged_view(staged@))), 0),
            forall|k: Seq<u8>|
                touched(data@, 0, k) <==> #[trigger] slots_map(
                    targets(staged_view(staged@)),
                ).contains_key(k),
        decreases n - i,
    {
        let entry = index.entry_at(i);
        let ghost key = start[i as int].key;
        let ghost before = data@;
        let ghost earlier = staged_view(staged@);
        assert(entry == start[i as int].entry);
        assert(entry_valid(dir@, key, entry));
        if entry.segment_id != active_id {
            match dir.data(entry.segment_id) {
                Some(source) => {
                    assert(source@.len() <= usize::MAX) by {
                        assert(source.len() == source@.len());
                    }
                    let from = entry.offset as usize;
                    let to = from + entry.record_len as usize;
                    let at = data.len();
                    let ghost rec = source@.subrange(from as int, to as int);
                    proof {
                        lemma_record_copy(source@, from as int, Seq::<u8>::empty());
                        assert(Seq::<u8>::empty() + rec =~= rec);
                        lemma_record_copy(source@, from as int, before);
                        lemma_slots_map_dom(targets(earlier), key);
                        assert(!slots_map(targets(earlier)).contains_key(key)) by {
                            if slots_map(targets(earlier)).contains_key(key) {
                                let t = choose|t: int|
                                    0 <= t < targets(earlier).len() && #[trigger] targets(
                                        earlier,
                                    )[t].key == key;
                                assert(earlier[t].key == key);
                                let j = choose|j: int|
                                    0 <= j < i && (#[trigger] start[j]).key == earlier[t].key
                                        && start[j].entry == earlier[t].from
                                        && earlier[t].from.segment_id != active_id;
                                assert(start[j].key != start[i as int].key);
                            }
                        }
                        lemma_live_append(before, 0, slots_map(targets(earlier)), 0, rec);
                        lemma_segment_data_some(dir@, entry.segment_id);
                        let p = choose|p: int|
                            0 <= p < dir@.len() && #[trigger] dir@[p].id == entry.segment_id;
                        assert(dir@[p].id <= dir@[dir@.len() - 1].id);
                    }
                    append_bytes(&mut data, slice_subrange(source.as_slice(), from, to));
                    let moved_to = Entry {
                        segment_id: 0,
                        offset: at as u64,
                        record_len: entry.record_len,
                    };
                    let copy = Staged {
                        key: index.key_at(i).clone(),
                        from: entry,
                        to: moved_to,
                    };
                    assert(copy.key@ == key);
                    staged.push(copy);
                    proof {
                        let now = staged_view(staged@);
                        let fresh = StagedView { key, from: entry, to: moved_to };
                        assert(now =~= earlier.push(fresh));
                        assert(targets(now) =~= targets(earlier).push(
                            SlotView { key, entry: moved_to },
                        ));
                        assert(targets(now).drop_last() =~= targets(earlier));
                        assert(slots_map(targets(now)) == slots_map(targets(earlier)).insert(
                            key,
                            moved_to,
                        ));
                        assert forall|x: int, y: int|
                            0 <= x < y < targets(now).len() implies targets(now)[x].key
                            != targets(now)[y].key by {
                            if y == earlier.len() {
                                lemma_slots_map_dom(targets(earlier), key);
                                assert(targets(earlier)[x].key == targets(now)[x].key);
                            } else {
                                assert(targets(earlier)[x].key == targets(now)[x].key);
                                assert(targets(earlier)[y].key == targets(now)[y].key);
                            }
                        }
                        assert forall|t: int| 0 <= t < now.len() implies sealed_slot(
                            start,
                            i + 1,
                            active_id,
                            (#[trigger] now[t]).key,
                            now[t].from,
                        ) by {
                            if t < earlier.len() {
                                assert(now[t] == earlier[t]);
                                let j = choose|j: int|
                                    0 <= j < i && (#[trigger] start[j]).key == earlier[t].key
                                        && start[j].entry == earlier[t].from
                                        && earlier[t].from.segment_id != active_id;
                                assert(start[j].key == now[t].key);
                            } else {
                                assert(start[i as int].key == now[t].key);
                            }
                        }
                        assert forall|j: int|
                            0 <= j < i + 1 && (#[trigger] start[j]).entry.segment_id
                                != active_id implies staged_from(
                            now,
                            start[j].key,
                            start[j].entry,
                        ) by {
                            if j < i {
                                let t = choose|t: int|
                                    0 <= t < earlier.len() && (#[trigger] earlier[t]).key
                                        == start[j].key && earlier[t].from == start[j].entry;
                                assert(now[t] == earlier[t]);
                            } else {
                                assert(now[earlier.len() as int] == fresh);
                            }
                        }
                        assert forall|t: int| 0 <= t < now.len() implies copied(
                            dir@,
                            #[trigger] now[t],
                            active_id,
                            data@,
                        ) by {
                            if t < earlier.len() {
                                assert(now[t] == earlier[t]);
                                assert(copied(dir@, earlier[t], active_id, before));
                                lemma_record_at_stable(before, rec, now[t].to.offset as int);
                            }
                        }
                    }
                },
                None => {
                    assert(false);
                },
            }
        } else {
            proof {
                assert forall|t: int| 0 <= t < staged@.len() implies sealed_slot(
                    start,
                    i + 1,
                    active_id,
                    (#[trigger] earlier[t]).key,
                    earlier[t].from,
                ) by {
                    let j = choose|j: int|
                        0 <= j < i && (#[trigger] start[j]).key == earlier[t].key
                            && start[j].entry == earlier[t].from && earlier[t].from.segment_id
                            != active_id;
                    assert(start[j].key == earlier[t].key);
                }
            }
        }
        i += 1;
    }
    let plan = Plan { active_id, sealed: count - 1, data, staged };
    proof {
        let sv = plan@.staged;
        assert(sv =~= staged_view(plan.staged@));
        assert forall|key: Seq<u8>| #[trigger]
            index@.contains_key(key) && index@[key].segment_id < active_id implies staged_from(
            sv,
            key,
            index@[key],
        ) by {
            lemma_slots_map_dom(start, key);
            let j = choose|j: int| 0 <= j < start.len() && #[trigger] start[j].key == key;
            lemma_slots_map_at(start, j);
        }
        assert forall|t: int| 0 <= t < sv.len() implies entry_of(index@, (#[trigger] sv[t]).key)
            == Some(sv[t].from) by {
            let j = choose|j: int|
                0 <= j < n && (#[trigger] start[j]).key == sv[t].key && start[j].entry
                    == sv[t].from && sv[t].from.segment_id != active_id;
            lemma_slots_map_at(start, j);
        }
    }
    plan
}

/// The second step of a compaction cycle, on the index: points each
/// staged key at the copy of its record if the key still points at the
/// record that was copied.
pub fn apply_staged(index: &mut Index, staged: &Vec<Staged>)
    requires
        old(index).wf(),
    ensures
        final(index).wf(),
        final(index)@ == committed(old(index)@, staged_view(staged@)),
{
    let ghost all = staged_view(staged@);
    let mut i: usize = 0;
    while i < staged.len()
        invariant
            i <= staged@.len(),
            all == staged_view(staged@),
            index.wf(),
            index@ == committed(old(index)@, all.take(i as int)),
        decreases staged.len() - i,
    {
        let s = &staged[i];
        proof {
            assert(all.take(i + 1).drop_last() =~= all.take(i as int));
            assert(all.take(i + 1).last() == s@);
        }
        match index.get(s.key.as_slice()) {
            Some(entry) => {
                if entry == s.from {
                    index.insert(s.key.as_slice(), s.to);
                }
            },
            None => {},
        }
        i += 1;
    }
    assert(all.take(i as int) =~= all);
}

} // verus!
