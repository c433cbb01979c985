//! The segmented log: each segment is an append-only run of records, and
//! the segment with the greatest id is the one that takes appends.

use crate::error::KvError;
use crate::helper::{append_bytes, copy_range};
use crate::record::{
    decode_header, encode, has_header_at, has_record_at, header_at, value_at, Record,
    RecordType, HEADER_LEN, TAG_DELETE,
};
use crate::segment_name::{parse_file_name, segment_id_of};
use vstd::prelude::*;
use vstd::slice::slice_subrange;

verus! {

/// Whether a segment of `current_size` bytes is full: its size strictly
/// exceeds `max_segment_bytes`.
pub fn should_rotate(current_size: u64, max_segment_bytes: u64) -> (full: bool)
    ensures
        full == (current_size > max_segment_bytes),
{
    current_size > max_segment_bytes
}

/// Appends the encoding of `record` to `segment`, and returns the number of
/// bytes written and the offset at which the record begins.
pub fn append(record: &Record, segment: &mut Vec<u8>) -> (written: (usize, u64))
    requires
        record.wf(),
    ensures
        final(segment)@ == old(segment)@ + record.to_bytes(),
        written.0 == record.encoded_len(),
        written.1 == old(segment)@.len(),
{
    let offset = segment.len() as u64;
    let bytes = encode(record);
    append_bytes(segment, bytes.as_slice());
    (bytes.len(), offset)
}

/// What a read of the record at `offset` in a segment gives: the value of a
/// put, nothing for a delete, and `Corrupt` where no whole record with a
/// known type byte lies there.
pub open spec fn read_result(segment: Seq<u8>, offset: int) -> Result<Option<Seq<u8>>, KvError> {
    if !has_header_at(segment, offset) {
        Err(KvError::Corrupt)
    } else if RecordType::of_tag(header_at(segment, offset).record_type) is None {
        Err(KvError::Corrupt)
    } else if !has_record_at(segment, offset) {
        Err(KvError::Corrupt)
    } else if header_at(segment, offset).record_type == TAG_DELETE {
        Ok(None)
    } else {
        Ok(Some(value_at(segment, offset)))
    }
}

/// The outcome of a lookup with the bytes of the value, if any, as a
/// sequence.
pub open spec fn lookup_view(out: Result<Option<Vec<u8>>, KvError>) -> Result<
    Option<Seq<u8>>,
    KvError,
> {
    match out {
        Ok(Some(value)) => Ok(Some(value@)),
        Ok(None) => Ok(None),
        Err(e) => Err(e),
    }
}

/// Reads the value of the record that begins at `offset` in `segment`:
/// decodes the header, skips the key and copies the value.
pub fn read(segment: &[u8], offset: u64) -> (out: Result<Option<Vec<u8>>, KvError>)
    ensures
        lookup_view(out) == read_result(segment@, offset as int),
{
    let len = segment.len();
    if offset > len as u64 || len - (offset as usize) < HEADER_LEN {
        return Err(KvError::Corrupt);
    }
    let at = offset as usize;
    let header = match decode_header(slice_subrange(segment, at, at + HEADER_LEN)) {
        Ok(h) => h,
        Err(e) => {
            return Err(e);
        },
    };
    let record_type = match RecordType::from_byte(header.record_type) {
        Some(t) => t,
        None => {
            return Err(KvError::Corrupt);
        },
    };
    if header.total_len() > (len - at) as u64 {
        return Err(KvError::Corrupt);
    }
    match record_type {
        RecordType::Delete => Ok(None),
        RecordType::Put => {
            let value_start = at + HEADER_LEN + header.key_len as usize;
            let value_end = value_start + header.value_len as usize;
            Ok(Some(copy_range(segment, value_start, value_end)))
        },
    }
}

/// One segment of the log: its id and its bytes.
#[derive(Debug)]
pub struct Segment {
    pub id: u64,
    pub data: Vec<u8>,
}

/// A segment as a mathematical value.
pub struct SegmentView {
    pub id: u64,
    pub data: Seq<u8>,
}

impl View for Segment {
    type V = SegmentView;

    open spec fn view(&self) -> SegmentView {
        SegmentView { id: self.id, data: self.data@ }
    }
}

impl Clone for Segment {
    fn clone(&self) -> (out: Segment)
        ensures
            out@ == self@,
    {
        Segment { id: self.id, data: self.data.clone() }
    }
}

/// The ids of `segs` rise strictly from each segment to the next.
pub open spec fn ascending(segs: Seq<SegmentView>) -> bool {
    forall|i: int, j: int| 0 <= i < j < segs.len() ==> segs[i].id < segs[j].id
}

/// The ids of `segs`, in the order of `segs`.
pub open spec fn segment_ids(segs: Seq<SegmentView>) -> Seq<u64> {
    Seq::new(segs.len(), |i: int| segs[i].id)
}

/// The bytes of the segment `id` among `segs`, if there is one.
pub open spec fn segment_data(segs: Seq<SegmentView>, id: u64) -> Option<Seq<u8>>
    decreases segs.len(),
{
    if segs.len() == 0 {
        None
    } else if segs.last().id == id {
        Some(segs.last().data)
    } else {
        segment_data(segs.drop_last(), id)
    }
}

/// The size of the segment `id` among `segs`; zero where there is none.
pub open spec fn segment_size(segs: Seq<SegmentView>, id: u64) -> nat {
    match segment_data(segs, id) {
        Some(data) => data.len(),
        None => 0,
    }
}

/// Among segments with distinct ids, the segment at a position is the one
/// that its id finds.
pub proof fn lemma_segment_data_at(segs: Seq<SegmentView>, i: int)
    requires
        ascending(segs),
        0 <= i < segs.len(),
    ensures
        segment_data(segs, segs[i].id) == Some(segs[i].data),
    decreases segs.len(),
{
    if i < segs.len() - 1 {
        assert(segs.last().id != segs[i].id);
        lemma_segment_data_at(segs.drop_last(), i);
    }
}

/// An id that no segment bears finds nothing, and an id that finds
/// something is borne by a segment with those bytes.
pub proof fn lemma_segment_data_some(segs: Seq<SegmentView>, id: u64)
    ensures
        segment_data(segs, id) is Some <==> exists|i: int|
            0 <= i < segs.len() && #[trigger] segs[i].id == id,
        segment_data(segs, id) is Some ==> exists|i: int|
            0 <= i < segs.len() && #[trigger] segs[i].id == id && segs[i].data == segment_data(
                segs,
                id,
            )->0,
    decreases segs.len(),
{
    if segs.len() > 0 {
        let front = segs.drop_last();
        lemma_segment_data_some(front, id);
        if segs.last().id == id {
            assert(segs[segs.len() - 1].id == id);
        } else if segment_data(front, id) is Some {
            let i = choose|i: int|
                0 <= i < front.len() && #[trigger] front[i].id == id && front[i].data
                    == segment_data(front, id)->0;
            assert(segs[i].id == id);
        } else {
            assert forall|i: int| 0 <= i < segs.len() implies #[trigger] segs[i].id != id by {
                if i < front.len() {
                    assert(front[i].id != id);
                }
            }
        }
    }
}

/// `segs` after `bytes` were appended to the segment `id`, which is the
/// last segment or comes new behind it.
pub open spec fn with_appended(segs: Seq<SegmentView>, id: u64, bytes: Seq<u8>) -> Seq<
    SegmentView,
> {
    if segs.len() > 0 && segs.last().id == id {
        segs.drop_last().push(SegmentView { id, data: segs.last().data + bytes })
    } else {
        segs.push(SegmentView { id, data: bytes })
    }
}

/// `segs` after the segment `id` was written with `data`: in place of the
/// segment with that id where there is one, else at the place that keeps
/// the ids rising.
pub open spec fn with_segment(segs: Seq<SegmentView>, id: u64, data: Seq<u8>) -> Seq<SegmentView>
    decreases segs.len(),
{
    if segs.len() == 0 || segs.last().id < id {
        segs.push(SegmentView { id, data })
    } else if segs.last().id == id {
        segs.drop_last().push(SegmentView { id, data })
    } else {
        with_segment(segs.drop_last(), id, data).push(segs.last())
    }
}

/// Writing a segment at the first position whose id is not below `id`
/// is what `with_segment` describes.
pub proof fn lemma_with_segment_at(segs: Seq<SegmentView>, id: u64, data: Seq<u8>, pos: int)
    requires
        ascending(segs),
        0 <= pos <= segs.len(),
        forall|k: int| 0 <= k < pos ==> segs[k].id < id,
        forall|k: int| pos <= k < segs.len() ==> segs[k].id >= id,
    ensures
        with_segment(segs, id, data) == (if pos < segs.len() && segs[pos].id == id {
            segs.update(pos, SegmentView { id, data })
        } else {
            segs.insert(pos, SegmentView { id, data })
        }),
    decreases segs.len(),
{
    let new = SegmentView { id, data };
    if segs.len() == 0 || segs.last().id < id {
        assert(pos == segs.len());
        assert(segs.insert(pos, new) =~= segs.push(new));
    } else if segs.last().id == id {
        assert(segs[segs.len() - 1].id == id);
        if pos < segs.len() - 1 {
            assert(segs[pos].id < segs[segs.len() - 1].id);
        }
        assert(pos == segs.len() - 1);
        assert(segs.update(pos, new) =~= segs.drop_last().push(new));
    } else {
        let front = segs.drop_last();
        assert(pos < segs.len());
        lemma_with_segment_at(front, id, data, pos);
        if pos < front.len() && front[pos].id == id {
            assert(segs.update(pos, new) =~= front.update(pos, new).push(segs.last()));
        } else {
            assert(segs[pos].id != id);
            assert(segs.insert(pos, new) =~= front.insert(pos, new).push(segs.last()));
        }
    }
}

/// Writing a segment keeps the ids rising.
pub proof fn lemma_with_segment_ascending(segs: Seq<SegmentView>, id: u64, data: Seq<u8>)
    requires
        ascending(segs),
    ensures
        ascending(with_segment(segs, id, data)),
    decreases segs.len(),
{
    let new = SegmentView { id, data };
    let out = with_segment(segs, id, data);
    if segs.len() == 0 || segs.last().id < id {
        assert forall|i: int, j: int| 0 <= i < j < out.len() implies out[i].id < out[j].id by {
            if j == segs.len() {
                assert(segs[i].id <= segs.last().id);
            }
        }
    } else if segs.last().id == id {
        assert forall|i: int, j: int| 0 <= i < j < out.len() implies out[i].id < out[j].id by {
            assert(out[i] == segs[i]);
            assert(out[j].id == segs[j].id);
        }
    } else {
        let front = segs.drop_last();
        let inner = with_segment(front, id, data);
        lemma_with_segment_ascending(front, id, data);
        lemma_with_segment_last(front, id, data);
        assert forall|i: int, j: int| 0 <= i < j < out.len() implies out[i].id < out[j].id by {
            if j == out.len() - 1 {
                assert(out[i] == inner[i]);
                assert(inner[i].id <= inner.last().id);
                if front.len() > 0 {
                    assert(front.last() == segs[segs.len() - 2]);
                }
            } else {
                assert(out[i] == inner[i] && out[j] == inner[j]);
            }
        }
    }
}

/// After a segment was written, the last segment bears `id` or is the one
/// that was last before.
pub proof fn lemma_with_segment_last(segs: Seq<SegmentView>, id: u64, data: Seq<u8>)
    ensures
        with_segment(segs, id, data).len() > 0,
        with_segment(segs, id, data).last().id == id || (segs.len() > 0 && with_segment(
            segs,
            id,
            data,
        ).last() == segs.last()),
    decreases segs.len(),
{
}

/// Appending to the newest segment, or behind it, keeps the ids rising,
/// makes `id` find the longer bytes and leaves what every other id finds.
pub proof fn lemma_with_appended(segs: Seq<SegmentView>, id: u64, bytes: Seq<u8>)
    requires
        ascending(segs),
        segs.len() > 0 ==> segs.last().id <= id,
    ensures
        ascending(with_appended(segs, id, bytes)),
        with_appended(segs, id, bytes).len() > 0,
        with_appended(segs, id, bytes).last().id == id,
        segment_data(with_appended(segs, id, bytes), id) == Some(
            (match segment_data(segs, id) {
                Some(data) => data,
                None => Seq::<u8>::empty(),
            }) + bytes,
        ),
        forall|other: u64|
            other != id ==> #[trigger] segment_data(with_appended(segs, id, bytes), other)
                == segment_data(segs, other),
{
    let out = with_appended(segs, id, bytes);
    if segs.len() > 0 && segs.last().id == id {
        let front = segs.drop_last();
        assert(out.drop_last() =~= front);
        assert forall|i: int, j: int| 0 <= i < j < out.len() implies out[i].id < out[j].id by {
            assert(out[i] == segs[i]);
            assert(out[j].id == segs[j].id);
        }
    } else {
        assert(out.drop_last() =~= segs);
        lemma_segment_data_some(segs, id);
        assert(segment_data(segs, id) is None) by {
            if segment_data(segs, id) is Some {
                let i = choose|i: int| 0 <= i < segs.len() && #[trigger] segs[i].id == id;
                assert(segs[i].id <= segs[segs.len() - 1].id);
            }
        }
        assert(Seq::<u8>::empty() + bytes =~= bytes);
        assert forall|i: int, j: int| 0 <= i < j < out.len() implies out[i].id < out[j].id by {
            if j == segs.len() {
                assert(segs[i].id <= segs[segs.len() - 1].id);
            }
        }
    }
}

/// The segment files of a store, kept in rising order of id.
#[derive(Debug)]
pub struct Directory {
    segments: Vec<Segment>,
}

impl View for Directory {
    type V = Seq<SegmentView>;

    closed spec fn view(&self) -> Seq<SegmentView> {
        Seq::new(self.segments@.len(), |i: int| self.segments@[i]@)
    }
}

impl Clone for Directory {
    fn clone(&self) -> (out: Directory)
        ensures
            out@ == self@,
    {
        let mut segments: Vec<Segment> = Vec::new();
        let mut i: usize = 0;
        while i < self.segments.len()
            invariant
                i <= self.segments.len(),
                segments@.len() == i,
                forall|k: int| 0 <= k < i ==> segments@[k]@ == self.segments@[k]@,
            decreases self.segments.len() - i,
        {
            segments.push(self.segments[i].clone());
            i += 1;
        }
        let out = Directory { segments };
        assert(out@ =~= self@);
        out
    }
}

impl Directory {
    /// The ids rise strictly, so that no id occurs twice.
    pub open spec fn wf(&self) -> bool {
        ascending(self@)
    }

    /// A directory without segments.
    pub fn new() -> (dir: Directory)
        ensures
            dir@ == Seq::<SegmentView>::empty(),
            dir.wf(),
    {
        let dir = Directory { segments: Vec::new() };
        assert(dir@ =~= Seq::<SegmentView>::empty());
        dir
    }

    /// The number of segments.
    pub fn len(&self) -> (n: usize)
        ensures
            n == self@.len(),
    {
        self.segments.len()
    }

    /// The segment at position `i` in rising order of id.
    pub fn segment_at(&self, i: usize) -> (segment: &Segment)
        requires
            i < self@.len(),
        ensures
            segment@ == self@[i as int],
    {
        &self.segments[i]
    }

    /// Every segment of a directory has a size that a machine word holds.
    pub proof fn lemma_sizes(&self)
        ensures
            forall|i: int| 0 <= i < self@.len() ==> (#[trigger] self@[i]).data.len() <= usize::MAX,
    {
        assert forall|i: int| 0 <= i < self@.len() implies (#[trigger] self@[i]).data.len()
            <= usize::MAX by {
            assert(self@[i].data == self.segments@[i].data@);
            assert(self.segments@[i].data.len() <= usize::MAX);
        }
    }

    /// The ids of the segments, in rising order.
    pub fn list_segments(&self) -> (ids: Vec<u64>)
        requires
            self.wf(),
        ensures
            ids@ == segment_ids(self@),
            forall|i: int, j: int| 0 <= i < j < ids@.len() ==> ids@[i] < ids@[j],
    {
        let mut ids: Vec<u64> = Vec::new();
        let mut i: usize = 0;
        while i < self.segments.len()
            invariant
                i <= self.segments.len(),
                ids@.len() == i,
                forall|k: int| 0 <= k < i ==> ids@[k] == self@[k].id,
            decreases self.segments.len() - i,
        {
            ids.push(self.segments[i].id);
            i += 1;
        }
        assert(ids@ =~= segment_ids(self@));
        ids
    }

    /// The position of the segment `id`, if there is one.
    pub fn find(&self, id: u64) -> (at: Option<usize>)
        requires
            self.wf(),
        ensures
            match at {
                Some(i) => i < self@.len() && self@[i as int].id == id && segment_data(self@, id)
                    == Some(self@[i as int].data),
                None => segment_data(self@, id) is None,
            },
    {
        let mut i: usize = 0;
        while i < self.segments.len()
            invariant
                self.wf(),
                i <= self.segments.len(),
                forall|k: int| 0 <= k < i ==> self@[k].id != id,
            decreases self.segments.len() - i,
        {
            if self.segments[i].id == id {
                proof {
                    lemma_segment_data_at(self@, i as int);
                }
                return Some(i);
            }
            i += 1;
        }
        proof {
            lemma_segment_data_some(self@, id);
        }
        None
    }

    /// The bytes of the segment `id`, if there is one.
    pub fn data(&self, id: u64) -> (out: Option<&Vec<u8>>)
        requires
            self.wf(),
        ensures
            match out {
                Some(bytes) => segment_data(self@, id) == Some(bytes@),
                None => segment_data(self@, id) is None,
            },
    {
        match self.find(id) {
            Some(i) => Some(&self.segments[i].data),
            None => None,
        }
    }

    /// Appends `record` to the segment `id`, which must not lie before the
    /// newest segment: sealed segments take no appends. The segment is
    /// created where it is missing. Returns the number of bytes written and
    /// the offset of the record in its segment.
    pub fn append_record(&mut self, id: u64, record: &Record) -> (written: (usize, u64))
        requires
            old(self).wf(),
            record.wf(),
            old(self)@.len() > 0 ==> old(self)@.last().id <= id,
        ensures
            final(self).wf(),
            final(self)@ == with_appended(old(self)@, id, record.to_bytes()),
            written.0 == record.encoded_len(),
            written.1 == segment_size(old(self)@, id),
    {
        let n = self.segments.len();
        if n > 0 && self.segments[n - 1].id == id {
            let ghost before = self@;
            let mut last = self.segments.pop().unwrap();
            let written = append(record, &mut last.data);
            self.segments.push(last);
            assert(self@ =~= with_appended(before, id, record.to_bytes()));
            written
        } else {
            let ghost before = self@;
            proof {
                lemma_segment_data_some(before, id);
            }
            let mut data: Vec<u8> = Vec::new();
            let written = append(record, &mut data);
            assert(data@ =~= record.to_bytes());
            self.segments.push(Segment { id, data });
            assert(self@ =~= with_appended(before, id, record.to_bytes()));
            written
        }
    }

    /// Writes the segment `id` with `data`, in place of the segment with
    /// that id where there is one.
    pub fn put_segment(&mut self, id: u64, data: Vec<u8>)
        requires
            old(self).wf(),
        ensures
            final(self).wf(),
            final(self)@ == with_segment(old(self)@, id, data@),
    {
        let ghost before = self@;
        let mut pos: usize = 0;
        while pos < self.segments.len() && self.segments[pos].id < id
            invariant
                self@ == before,
                ascending(before),
                pos <= self.segments.len(),
                forall|k: int| 0 <= k < pos ==> before[k].id < id,
            decreases self.segments.len() - pos,
        {
            pos += 1;
        }
        proof {
            assert forall|k: int| pos <= k < before.len() implies before[k].id >= id by {
                assert(before[pos as int].id >= id);
            }
            lemma_with_segment_at(before, id, data@, pos as int);
            lemma_with_segment_ascending(before, id, data@);
        }
        if pos < self.segments.len() && self.segments[pos].id == id {
            self.segments.set(pos, Segment { id, data });
            assert(self@ =~= before.update(pos as int, SegmentView { id, data: data@ }));
        } else {
            self.segments.insert(pos, Segment { id, data });
            assert(self@ =~= before.insert(pos as int, SegmentView { id, data: data@ }));
        }
    }

    /// Takes in the file `name` with the bytes `data` if the name is that
    /// of a segment file, `<id>.log` with the id in decimal and unpadded,
    /// and says whether it was taken in. Any other file is passed over.
    pub fn add_file(&mut self, name: &[u8], data: Vec<u8>) -> (stored: bool)
        requires
            old(self).wf(),
        ensures
            final(self).wf(),
            match segment_id_of(name@) {
                Some(id) => stored && final(self)@ == with_segment(old(self)@, id, data@),
                None => !stored && final(self)@ == old(self)@,
            },
    {
        match parse_file_name(name) {
            Some(id) => {
                self.put_segment(id, data);
                true
            },
            None => false,
        }
    }

    /// Shortens the segment `id` to its first `len` bytes.
    pub fn truncate_segment(&mut self, id: u64, len: usize)
        requires
            old(self).wf(),
        ensures
            final(self).wf(),
            final(self)@.len() == old(self)@.len(),
            forall|i: int|
                0 <= i < old(self)@.len() ==> (#[trigger] final(self)@[i]) == (if old(self)@[i].id
                    == id && len <= old(self)@[i].data.len() {
                    SegmentView { id, data: old(self)@[i].data.take(len as int) }
                } else {
                    old(self)@[i]
                }),
    {
        let ghost before = self@;
        match self.find(id) {
            Some(i) => {
                self.segments[i].data.truncate(len);
                proof {
                    assert forall|k: int| 0 <= k < before.len() && k != i implies before[k].id
                        != id by {
                        if k < i {
                            assert(before[k].id < before[i as int].id);
                        } else {
                            assert(before[i as int].id < before[k].id);
                        }
                    }
                    assert(before[i as int].data.subrange(0, len as int) =~= before[i as int].data.take(
                        len as int,
                    ));
                    assert forall|x: int, y: int| 0 <= x < y < self@.len() implies self@[x].id
                        < self@[y].id by {
                        assert(self@[x].id == before[x].id && self@[y].id == before[y].id);
                    }
                }
            },
            None => {
                proof {
                    lemma_segment_data_some(before, id);
                }
            },
        }
    }

    /// Puts one segment with id 0 and the bytes `data` in place of the
    /// first `count` segments, and returns the ids of the segments that
    /// went.
    pub fn replace_prefix(&mut self, count: usize, data: Vec<u8>) -> (removed: Vec<u64>)
        requires
            old(self).wf(),
            1 <= count < old(self)@.len(),
        ensures
            final(self).wf(),
            final(self)@ == seq![SegmentView { id: 0, data: data@ }] + old(self)@.skip(
                count as int,
            ),
            removed@ == segment_ids(old(self)@.take(count as int)),
    {
        let ghost before = self@;
        let mut later = self.segments.split_off(count);
        assert(self@ =~= before.take(count as int));
        assert forall|i: int, j: int| 0 <= i < j < self@.len() implies self@[i].id
            < self@[j].id by {
            assert(self@[i] == before[i] && self@[j] == before[j]);
        }
        let removed = self.list_segments();
        let mut segments: Vec<Segment> = Vec::new();
        segments.push(Segment { id: 0, data });
        segments.append(&mut later);
        self.segments = segments;
        proof {
            let after = seq![SegmentView { id: 0, data: data@ }] + before.skip(count as int);
            assert(self@ =~= after);
            assert(before[0].id < before[count as int].id);
            assert forall|i: int, j: int| 0 <= i < j < after.len() implies after[i].id
                < after[j].id by {
                assert(after[j] == before[count + j - 1]);
                if i > 0 {
                    assert(after[i] == before[count + i - 1]);
                } else {
                    assert(before[count as int].id <= before[count + j - 1].id);
                }
            }
        }
        removed
    }

    /// The size in bytes of the segment `id`; zero where there is none.
    pub fn size_of(&self, id: u64) -> (size: u64)
        requires
            self.wf(),
        ensures
            size == segment_size(self@, id),
    {
        match self.find(id) {
            Some(i) => self.segments[i].data.len() as u64,
            None => 0,
        }
    }
}

} // verus!
