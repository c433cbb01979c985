//! The storage engine: puts, gets and deletes over the segmented log and
//! the index, with rotation of the active segment and the count of bytes
//! that a later compaction can reclaim.

use crate::compaction::{
    apply_staged, committed, compacted_segments, entry_of, lemma_commit_recoverable,
    lemma_commit_sound, lemma_fresh_plan_based, lemma_plan_survives, plan_based,
    plan_compaction, plan_valid, Plan, PlanView,
};
use crate::error::KvError;
use crate::index::{Entry, Index};
use crate::model::{apply, lookup, Op};
use crate::record::{record_bytes, Record, RecordType, HEADER_LEN, MAX_FIELD_LEN};
use crate::recovery::{
    after_delete, after_put, contents, empty_state, entry_valid, index_sound,
    lemma_append_record, lemma_prefix_recovers, lemma_replay_all_sound, recover, recoverable,
    replay_all, replay_segment_into, well_framed, ReplayState,
};
use crate::wal::{
    ascending, lookup_view, read, segment_ids, segment_size, should_rotate, with_appended,
    Directory, SegmentView,
};
use vstd::prelude::*;

verus! {

/// The segment size beyond which the active segment is sealed: 64 MiB.
pub const DEFAULT_MAX_SEGMENT_BYTES: u64 = 67_108_864;

/// The count of reclaimable bytes beyond which compaction is due: 128 MiB.
pub const DEFAULT_MAX_RECLAIMABLE_BYTES: u64 = 134_217_728;

/// The settings of a store.
#[derive(Clone, Copy, Debug, PartialEq, Eq, Structural)]
pub struct Config {
    /// The active segment is sealed once its size strictly exceeds this.
    pub max_segment_bytes: u64,
    /// Compaction is due once the reclaimable bytes strictly exceed this.
    pub max_reclaimable_bytes: u64,
    /// Whether each append is to be flushed to stable storage.
    pub fsync_on_write: bool,
}

/// The default settings.
pub open spec fn default_config() -> Config {
    Config {
        max_segment_bytes: DEFAULT_MAX_SEGMENT_BYTES,
        max_reclaimable_bytes: DEFAULT_MAX_RECLAIMABLE_BYTES,
        fsync_on_write: true,
    }
}

impl Default for Config {
    fn default() -> (config: Config)
        ensures
            config == default_config(),
    {
        Config {
            max_segment_bytes: DEFAULT_MAX_SEGMENT_BYTES,
            max_reclaimable_bytes: DEFAULT_MAX_RECLAIMABLE_BYTES,
            fsync_on_write: true,
        }
    }
}

/// What opening a store has to do about its path, before it reads any
/// segment: a path that is not there is to be created as a directory, and a
/// path that is there and is no directory is refused.
pub fn check_dir(exists: bool, is_dir: bool) -> (out: Result<bool, KvError>)
    ensures
        exists && !is_dir ==> out matches Err(KvError::InvalidDir),
        !exists ==> (out matches Ok(create) && create),
        exists && is_dir ==> (out matches Ok(create) && !create),
{
    if !exists {
        Ok(true)
    } else if is_dir {
        Ok(false)
    } else {
        Err(KvError::InvalidDir)
    }
}

/// The id of the newest of `segs`; zero where there is none.
pub open spec fn newest_id(segs: Seq<SegmentView>) -> u64 {
    if segs.len() == 0 {
        0
    } else {
        segs.last().id
    }
}

/// A key-value store: the segments of its log, the index of the live keys,
/// the id of the active segment, the count of reclaimable bytes, and what
/// a compaction cycle that has begun has prepared.
#[derive(Debug)]
pub struct KvStore {
    dir: Directory,
    index: Index,
    current_id: u64,
    reclaimable_bytes: u64,
    config: Config,
    pending: Option<Plan>,
}

impl View for KvStore {
    type V = Map<Seq<u8>, Seq<u8>>;

    /// The value of each live key.
    open spec fn view(&self) -> Map<Seq<u8>, Seq<u8>> {
        contents(self.index(), self.segments())
    }
}

impl KvStore {
    /// The segments of the log, in rising order of id.
    pub closed spec fn segments(&self) -> Seq<SegmentView> {
        self.dir@
    }

    /// The entry of each live key.
    pub closed spec fn index(&self) -> Map<Seq<u8>, Entry> {
        self.index@
    }

    /// The id of the active segment.
    pub closed spec fn active_id(&self) -> u64 {
        self.current_id
    }

    /// The count of reclaimable bytes.
    pub closed spec fn reclaimable(&self) -> u64 {
        self.reclaimable_bytes
    }

    /// The settings that the store was opened with.
    pub closed spec fn settings(&self) -> Config {
        self.config
    }

    /// The index holds no key twice.
    pub closed spec fn index_wf(&self) -> bool {
        self.index.wf()
    }

    /// What the compaction cycle that has begun has prepared, if one has
    /// begun and is not yet committed.
    pub closed spec fn plan(&self) -> Option<PlanView> {
        match self.pending {
            Some(plan) => Some(plan@),
            None => None,
        }
    }

    /// The index and the reclaim counter together.
    pub open spec fn state(&self) -> ReplayState {
        ReplayState { index: self.index(), reclaimable: self.reclaimable() }
    }

    /// The invariant of the store: the segment ids rise, the active segment
    /// is the newest, every index entry points at a whole put record of
    /// its key, and the plan of a compaction cycle that has begun fits.
    pub open spec fn wf(&self) -> bool {
        &&& ascending(self.segments())
        &&& self.index_wf()
        &&& index_sound(self.index(), self.segments())
        &&& self.segments().len() > 0 ==> self.segments().last().id == self.active_id()
        &&& match self.plan() {
            Some(plan) => plan_valid(plan, self.segments(), self.index()),
            None => true,
        }
    }

    /// Recovery from the segments of this store would rebuild its index,
    /// and the next append will be found by recovery too; and so it will
    /// be after the compaction cycle that has begun is committed.
    pub open spec fn durable(&self) -> bool {
        &&& recoverable(self.segments())
        &&& recover(self.segments())->0.index == self.index()
        &&& match self.plan() {
            Some(plan) => plan_based(plan, self.segments()),
            None => true,
        }
    }

    /// The active segment is full, so the next write goes to a new one.
    pub open spec fn rotates(&self) -> bool {
        segment_size(self.segments(), self.active_id()) > self.settings().max_segment_bytes
    }

    /// The id of the segment that the next write goes to.
    pub open spec fn write_target(&self) -> int {
        if self.rotates() {
            self.active_id() + 1
        } else {
            self.active_id() as int
        }
    }

    /// Where the next record will lie if it is `record_len` bytes long.
    pub open spec fn next_entry(&self, record_len: int) -> Entry {
        Entry {
            segment_id: self.write_target() as u64,
            offset: segment_size(self.segments(), self.write_target() as u64) as u64,
            record_len: record_len as u64,
        }
    }

    /// Nothing of the store has changed from `before`.
    pub open spec fn same_as(&self, before: &KvStore) -> bool {
        &&& self.segments() == before.segments()
        &&& self.state() == before.state()
        &&& self.active_id() == before.active_id()
        &&& self.settings() == before.settings()
        &&& self.plan() == before.plan()
    }

    /// Opens a store on the segments of `dir` with the default settings.
    pub fn open(dir: Directory) -> (out: Result<KvStore, KvError>)
        requires
            dir.wf(),
        ensures
            match recover(dir@) {
                Some(st) => out matches Ok(store) && store.wf() && store.segments() == dir@
                    && store.state() == st && store.active_id() == newest_id(dir@)
                    && store.settings() == default_config() && store.plan() is None
                    && store.durable() == (dir@.len() > 0 ==> well_framed(dir@.last().data, 0)),
                None => out matches Err(KvError::Corrupt),
            },
    {
        KvStore::open_with(dir, Config::default())
    }

    /// Opens a store on the segments of `dir`: replays every segment in
    /// rising order of id to rebuild the index and the reclaim counter, and
    /// makes the newest segment the active one. A truncated tail of a
    /// segment is passed over; a whole record with an unknown type byte is
    /// `Corrupt`.
    pub fn open_with(dir: Directory, config: Config) -> (out: Result<KvStore, KvError>)
        requires
            dir.wf(),
        ensures
            match recover(dir@) {
                Some(st) => out matches Ok(store) && store.wf() && store.segments() == dir@
                    && store.state() == st && store.active_id() == newest_id(dir@)
                    && store.settings() == config && store.plan() is None && store.durable()
                    == (dir@.len() > 0 ==> well_framed(dir@.last().data, 0)),
                None => out matches Err(KvError::Corrupt),
            },
    {
        let mut index = Index::new();
        let mut reclaimable: u64 = 0;
        let count = dir.len();
        let mut i: usize = 0;
        while i < count
            invariant
                dir.wf(),
                count == dir@.len(),
                i <= count,
                index.wf(),
                replay_all(empty_state(), dir@.take(i as int)) == Some(
                    ReplayState { index: index@, reclaimable },
                ),
            decreases count - i,
        {
            let segment = dir.segment_at(i);
            proof {
                assert(dir@.take(i + 1).drop_last() =~= dir@.take(i as int));
                assert(dir@.take(i + 1).last() == dir@[i as int]);
            }
            match replay_segment_into(
                &mut index,
                &mut reclaimable,
                segment.id,
                segment.data.as_slice(),
            ) {
                Ok(()) => {},
                Err(e) => {
                    proof {
                        if recover(dir@) is Some {
                            lemma_prefix_recovers(empty_state(), dir@, i + 1);
                        }
                    }
                    return Err(e);
                },
            }
            i += 1;
        }
        proof {
            assert(dir@.take(count as int) =~= dir@);
            dir.lemma_sizes();
            lemma_replay_all_sound(dir@);
        }
        let current_id = if count == 0 {
            0
        } else {
            dir.segment_at(count - 1).id
        };
        Ok(KvStore { dir, index, current_id, reclaimable_bytes: reclaimable, config, pending: None })
    }

    /// The id of the active segment.
    pub fn current_id(&self) -> (id: u64)
        ensures
            id == self.active_id(),
    {
        self.current_id
    }

    /// The count of reclaimable bytes.
    pub fn reclaimable_bytes(&self) -> (n: u64)
        ensures
            n == self.reclaimable(),
    {
        self.reclaimable_bytes
    }

    /// The settings of the store.
    pub fn config(&self) -> (config: Config)
        ensures
            config == self.settings(),
    {
        self.config
    }

    /// The segments of the store.
    pub fn directory(&self) -> (dir: &Directory)
        ensures
            dir@ == self.segments(),
            self.wf() ==> dir.wf(),
    {
        &self.dir
    }

    /// The place of the newest put record of `key`, if the key is live.
    pub fn locate(&self, key: &[u8]) -> (out: Option<Entry>)
        requires
            self.wf(),
        ensures
            out == (if self.index().contains_key(key@) {
                Some(self.index()[key@])
            } else {
                None
            }),
    {
        self.index.get(key)
    }

    /// Moves on to a new active segment if the active one is full: its size
    /// strictly exceeds `max_segment_bytes`. Fails with `Internal`, and
    /// changes nothing, where the ids are used up.
    fn rotate_if_full(&self) -> (out: Result<u64, KvError>)
        requires
            self.wf(),
        ensures
            match out {
                Ok(id) => id == self.write_target(),
                Err(e) => e matches KvError::Internal && self.write_target() > u64::MAX,
            },
    {
        let size = self.dir.size_of(self.current_id);
        if should_rotate(size, self.config.max_segment_bytes) {
            if self.current_id == u64::MAX {
                return Err(KvError::Internal);
            }
            Ok(self.current_id + 1)
        } else {
            Ok(self.current_id)
        }
    }

    /// Writes `value` under `key`: appends a put record to the active
    /// segment, after moving on to a new segment if the active one is full,
    /// and points the index at the record. The record that the key pointed
    /// at before, if any, becomes reclaimable. Returns the place of the new
    /// record.
    pub fn put(&mut self, key: &[u8], value: &[u8], timestamp: i64) -> (out: Result<
        Entry,
        KvError,
    >)
        requires
            old(self).wf(),
            key@.len() <= MAX_FIELD_LEN,
            value@.len() <= MAX_FIELD_LEN,
        ensures
            final(self).wf(),
            final(self).settings() == old(self).settings(),
            final(self).plan() == old(self).plan(),
            old(self).durable() && out is Ok ==> final(self).durable(),
            match out {
                Ok(entry) => {
                    &&& old(self).write_target() <= u64::MAX
                    &&& entry == old(self).next_entry(HEADER_LEN + key@.len() + value@.len())
                    &&& final(self).active_id() == entry.segment_id
                    &&& final(self).segments() == with_appended(
                        old(self).segments(),
                        entry.segment_id,
                        record_bytes(RecordType::Put, timestamp, key@, value@),
                    )
                    &&& final(self).state() == after_put(old(self).state(), key@, entry)
                    &&& final(self)@ == apply(old(self)@, Op::Put { key: key@, value: value@ })
                },
                Err(e) => {
                    &&& e matches KvError::Internal
                    &&& old(self).write_target() > u64::MAX
                    &&& final(self).same_as(old(self))
                },
            },
    {
        let target = match self.rotate_if_full() {
            Ok(id) => id,
            Err(e) => {
                return Err(e);
            },
        };
        let record = Record { record_type: RecordType::Put, timestamp, key, value };
        proof {
            self.dir.lemma_sizes();
            lemma_append_record(
                self.segments(),
                self.index(),
                target,
                RecordType::Put,
                timestamp,
                key@,
                value@,
            );
        }
        let (size, offset) = self.dir.append_record(target, &record);
        self.current_id = target;
        let entry = Entry { segment_id: target, offset, record_len: size as u64 };
        let previous = self.index.insert(key, entry);
        if let Some(old_entry) = previous {
            self.reclaimable_bytes = self.reclaimable_bytes.saturating_add(old_entry.record_len);
        }
        proof {
            if old(self).plan() is Some {
                let plan = old(self).plan()->0;
                let before = old(self).segments();
                assert(before[plan.sealed].id <= before[before.len() - 1].id);
                lemma_plan_survives(
                    plan,
                    before,
                    old(self).index(),
                    target,
                    record.to_bytes(),
                    self.index(),
                );
            }
            let segs = self.segments();
            assert forall|k: Seq<u8>| #[trigger] self.index().contains_key(k) implies entry_valid(
                segs,
                k,
                self.index()[k],
            ) by {
                if k != key@ {
                    assert(old(self).index().contains_key(k));
                }
            }
            assert(self@ =~= old(self)@.insert(key@, value@)) by {
                assert forall|k: Seq<u8>| #[trigger] self@.contains_key(k) implies self@[k] == old(
                    self,
                )@.insert(key@, value@)[k] by {
                    if k != key@ {
                        assert(contents(old(self).index(), segs)[k] == contents(
                            old(self).index(),
                            old(self).segments(),
                        )[k]);
                    }
                }
            }
        }
        Ok(entry)
    }

    /// The value of `key`: found through the index and read from the
    /// record that the entry points at. A key that is not live is absent,
    /// which is no error.
    pub fn get(&self, key: &[u8]) -> (out: Result<Option<Vec<u8>>, KvError>)
        requires
            self.wf(),
        ensures
            lookup_view(out) == Ok::<Option<Seq<u8>>, KvError>(lookup(self@, key@)),
    {
        let entry = match self.index.get(key) {
            Some(e) => e,
            None => {
                return Ok(None);
            },
        };
        assert(entry_valid(self.segments(), key@, entry));
        match self.dir.data(entry.segment_id) {
            Some(data) => read(data.as_slice(), entry.offset),
            None => Err(KvError::Internal),
        }
    }

    /// Removes `key`: where the key is live, appends a delete record to
    /// the active segment, after moving on to a new segment if the active
    /// one is full, and takes the key out of the index; both the delete
    /// record and the record that the key pointed at become reclaimable.
    /// Where the key is not live nothing is written. Returns the place of
    /// the delete record, if one was written.
    pub fn delete(&mut self, key: &[u8], timestamp: i64) -> (out: Result<Option<Entry>, KvError>)
        requires
            old(self).wf(),
            key@.len() <= MAX_FIELD_LEN,
        ensures
            final(self).wf(),
            final(self).settings() == old(self).settings(),
            final(self).plan() == old(self).plan(),
            old(self).durable() && out is Ok ==> final(self).durable(),
            final(self)@ == (if out is Ok {
                apply(old(self)@, Op::Delete { key: key@ })
            } else {
                old(self)@
            }),
            match out {
                Ok(None) => {
                    &&& !old(self).index().contains_key(key@)
                    &&& final(self).same_as(old(self))
                },
                Ok(Some(entry)) => {
                    &&& old(self).index().contains_key(key@)
                    &&& old(self).write_target() <= u64::MAX
                    &&& entry == old(self).next_entry(HEADER_LEN + key@.len())
                    &&& final(self).active_id() == entry.segment_id
                    &&& final(self).segments() == with_appended(
                        old(self).segments(),
                        entry.segment_id,
                        record_bytes(RecordType::Delete, timestamp, key@, Seq::<u8>::empty()),
                    )
                    &&& final(self).state() == after_delete(
                        old(self).state(),
                        key@,
                        entry.record_len as int,
                    )
                },
                Err(e) => {
                    &&& e matches KvError::Internal
                    &&& old(self).index().contains_key(key@)
                    &&& old(self).write_target() > u64::MAX
                    &&& final(self).same_as(old(self))
                },
            },
    {
        if self.index.get(key).is_none() {
            assert(self@ =~= self@.remove(key@));
            return Ok(None);
        }
        let target = match self.rotate_if_full() {
            Ok(id) => id,
            Err(e) => {
                return Err(e);
            },
        };
        let empty: [u8; 0] = [];
        let record = Record {
            record_type: RecordType::Delete,
            timestamp,
            key,
            value: empty.as_slice(),
        };
        assert(record.value@ =~= Seq::<u8>::empty());
        proof {
            self.dir.lemma_sizes();
            lemma_append_record(
                self.segments(),
                self.index(),
                target,
                RecordType::Delete,
                timestamp,
                key@,
                Seq::<u8>::empty(),
            );
        }
        let (size, offset) = self.dir.append_record(target, &record);
        self.current_id = target;
        let entry = Entry { segment_id: target, offset, record_len: size as u64 };
        let previous = self.index.remove(key);
        if let Some(old_entry) = previous {
            self.reclaimable_bytes = self.reclaimable_bytes.saturating_add(
                old_entry.record_len,
            ).saturating_add(entry.record_len);
        }
        proof {
            if old(self).plan() is Some {
                let plan = old(self).plan()->0;
                let before = old(self).segments();
                assert(before[plan.sealed].id <= before[before.len() - 1].id);
                lemma_plan_survives(
                    plan,
                    before,
                    old(self).index(),
                    target,
                    record.to_bytes(),
                    self.index(),
                );
            }
            let segs = self.segments();
            assert forall|k: Seq<u8>| #[trigger] self.index().contains_key(k) implies entry_valid(
                segs,
                k,
                self.index()[k],
            ) by {
                assert(old(self).index().contains_key(k));
            }
            assert(self@ =~= old(self)@.remove(key@)) by {
                assert forall|k: Seq<u8>| #[trigger] self@.contains_key(k) implies self@[k] == old(
                    self,
                )@.remove(key@)[k] by {
                    assert(contents(old(self).index(), segs)[k] == contents(
                        old(self).index(),
                        old(self).segments(),
                    )[k]);
                }
            }
        }
        Ok(Some(entry))
    }

    /// Whether compaction is due: the reclaimable bytes strictly exceed
    /// `max_reclaimable_bytes`, and there is a sealed segment, so that the
    /// compacted segment cannot take the place of the active one.
    pub fn check_compaction(&self) -> (due: bool)
        ensures
            due == (self.reclaimable() > self.settings().max_reclaimable_bytes
                && self.segments().len() >= 2),
    {
        self.reclaimable_bytes > self.config.max_reclaimable_bytes && self.dir.len() >= 2
    }

    /// Begins a compaction cycle, in place of one that had begun: where
    /// there is a sealed segment, copies the record of every live key that
    /// lies in a sealed segment into the bytes of a new segment and stages
    /// the new index entries. Nothing that a `get` can see changes, and
    /// puts and deletes may follow before the cycle is committed. Says
    /// whether a cycle has begun.
    pub fn begin_compaction(&mut self) -> (begun: bool)
        requires
            old(self).wf(),
        ensures
            final(self).wf(),
            final(self).segments() == old(self).segments(),
            final(self).state() == old(self).state(),
            final(self).active_id() == old(self).active_id(),
            final(self).settings() == old(self).settings(),
            old(self).durable() ==> final(self).durable(),
            begun == (old(self).segments().len() >= 2),
            match final(self).plan() {
                Some(plan) => {
                    &&& begun
                    &&& plan.active_id == final(self).active_id()
                    &&& plan.sealed == final(self).segments().len() - 1
                    &&& forall|i: int|
                        0 <= i < plan.staged.len() ==> entry_of(
                            final(self).index(),
                            (#[trigger] plan.staged[i]).key,
                        ) == Some(plan.staged[i].from)
                },
                None => !begun,
            },
    {
        if self.dir.len() < 2 {
            self.pending = None;
            return false;
        }
        let plan = plan_compaction(&self.index, &self.dir);
        proof {
            if old(self).durable() {
                lemma_fresh_plan_based(plan@, self.segments(), self.index());
            }
        }
        self.pending = Some(plan);
        true
    }

    /// The bytes of the compacted segment that the cycle that has begun
    /// has prepared.
    pub fn compacted_bytes(&self) -> (out: Option<&Vec<u8>>)
        ensures
            match out {
                Some(bytes) => self.plan() matches Some(plan) && bytes@ == plan.data,
                None => self.plan() is None,
            },
    {
        match &self.pending {
            Some(plan) => Some(&plan.data),
            None => None,
        }
    }

    /// Gives up the compaction cycle that has begun, if any; the segments
    /// and the index are left as they are.
    pub fn abort_compaction(&mut self)
        requires
            old(self).wf(),
        ensures
            final(self).wf(),
            final(self).segments() == old(self).segments(),
            final(self).state() == old(self).state(),
            final(self).active_id() == old(self).active_id(),
            final(self).settings() == old(self).settings(),
            final(self).plan() is None,
            old(self).durable() ==> final(self).durable(),
    {
        self.pending = None;
    }

    /// Commits the compaction cycle that has begun: each staged key that
    /// still points at the record that was copied is pointed at the copy,
    /// the compacted segment takes the id 0, the segments that were sealed
    /// when the cycle began go, and the reclaim counter is zero. The
    /// segments that were written since are neither read nor changed.
    /// Where no cycle has begun nothing happens. Returns the ids of the
    /// segments that went.
    pub fn commit_compaction(&mut self) -> (removed: Vec<u64>)
        requires
            old(self).wf(),
        ensures
            final(self).wf(),
            final(self)@ == old(self)@,
            final(self).settings() == old(self).settings(),
            final(self).active_id() == old(self).active_id(),
            final(self).plan() is None,
            final(self).segments().len() <= old(self).segments().len(),
            old(self).durable() ==> final(self).durable(),
            match old(self).plan() {
                Some(plan) => {
                    &&& final(self).segments().len() == old(self).segments().len() - plan.sealed
                        + 1
                    &&& removed@ == segment_ids(old(self).segments().take(plan.sealed))
                    &&& final(self).segments() == compacted_segments(old(self).segments(), plan)
                    &&& final(self).index() == committed(old(self).index(), plan.staged)
                    &&& final(self).reclaimable() == 0
                },
                None => {
                    &&& removed@.len() == 0
                    &&& final(self).segments() == old(self).segments()
                    &&& final(self).state() == old(self).state()
                },
            },
    {
        match self.pending.take() {
            Some(plan) => {
                proof {
                    self.dir.lemma_sizes();
                    lemma_commit_sound(plan@, old(self).segments(), old(self).index());
                    if old(self).durable() {
                        lemma_commit_recoverable(plan@, old(self).segments(), old(self).index());
                    }
                }
                apply_staged(&mut self.index, &plan.staged);
                let removed = self.dir.replace_prefix(plan.sealed, plan.data);
                self.reclaimable_bytes = 0;
                removed
            },
            None => Vec::new(),
        }
    }

    /// One whole compaction cycle, begun and committed at once. Where
    /// there is no sealed segment nothing happens. Returns the ids of the
    /// segments that went.
    pub fn compact(&mut self) -> (removed: Vec<u64>)
        requires
            old(self).wf(),
        ensures
            final(self).wf(),
            final(self)@ == old(self)@,
            final(self).settings() == old(self).settings(),
            final(self).active_id() == old(self).active_id(),
            final(self).plan() is None,
            final(self).segments().len() <= old(self).segments().len(),
            old(self).segments().len() > 2 ==> final(self).segments().len() < old(
                self,
            ).segments().len(),
            old(self).durable() ==> final(self).durable(),
            old(self).segments().len() < 2 ==> {
                &&& removed@.len() == 0
                &&& final(self).segments() == old(self).segments()
                &&& final(self).state() == old(self).state()
            },
            old(self).segments().len() >= 2 ==> {
                &&& removed@ == segment_ids(old(self).segments().drop_last())
                &&& final(self).segments().len() == 2
                &&& final(self).segments()[0].id == 0
                &&& final(self).segments()[1] == old(self).segments().last()
                &&& final(self).reclaimable() == 0
                &&& exists|plan: PlanView|
                    {
                        &&& plan.data == final(self).segments()[0].data
                        &&& plan.sealed == old(self).segments().len() - 1
                        &&& #[trigger] plan_valid(plan, old(self).segments(), old(self).index())
                        &&& final(self).index() == committed(old(self).index(), plan.staged)
                    }
            },
    {
        let begun = self.begin_compaction();
        let ghost plan = self.plan();
        let removed = self.commit_compaction();
        proof {
            if begun {
                let segs = old(self).segments();
                let p = plan->0;
                assert(segs.take(p.sealed) =~= segs.drop_last());
                assert(self.segments() =~= seq![self.segments()[0], segs.last()]);
                assert(plan_valid(p, old(self).segments(), old(self).index()));
            }
        }
        removed
    }
}

} // verus!
