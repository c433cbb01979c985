//! The in-memory index: for each live key, the place of its newest put
//! record. The index owns a copy of each key.

use crate::helper::bytes_equal;
use vstd::prelude::*;
use vstd::slice::slice_to_vec;

verus! {

/// The start value of the hash.
pub const HASH_OFFSET: u64 = 0xcbf2_9ce4_8422_2325;

/// The factor of the hash.
pub const HASH_PRIME: u64 = 0x0000_0100_0000_01b3;

/// The number of buckets of a new index.
pub const INITIAL_BUCKETS: usize = 16;

/// The number of slots to a bucket beyond which the table grows.
pub const MAX_LOAD: usize = 2;

/// Where a record lies: its segment, its offset there, and its length.
#[derive(Clone, Copy, Debug, PartialEq, Eq, Structural)]
pub struct Entry {
    pub segment_id: u64,
    pub offset: u64,
    pub record_len: u64,
}

/// One key of the index with its entry.
#[derive(Debug)]
pub struct Slot {
    pub key: Vec<u8>,
    pub entry: Entry,
}

/// A slot as a mathematical value.
pub struct SlotView {
    pub key: Seq<u8>,
    pub entry: Entry,
}

impl View for Slot {
    type V = SlotView;

    open spec fn view(&self) -> SlotView {
        SlotView { key: self.key@, entry: self.entry }
    }
}

/// No key occurs in two slots.
pub open spec fn distinct_keys(slots: Seq<SlotView>) -> bool {
    forall|i: int, j: int| 0 <= i < j < slots.len() ==> slots[i].key != slots[j].key
}

/// The mapping that a sequence of slots stands for; of two slots with one
/// key the later counts.
pub open spec fn slots_map(slots: Seq<SlotView>) -> Map<Seq<u8>, Entry>
    decreases slots.len(),
{
    if slots.len() == 0 {
        Map::empty()
    } else {
        slots_map(slots.drop_last()).insert(slots.last().key, slots.last().entry)
    }
}

/// The mapping holds exactly the keys of the slots.
pub proof fn lemma_slots_map_dom(slots: Seq<SlotView>, key: Seq<u8>)
    ensures
        slots_map(slots).contains_key(key) <==> exists|i: int|
            0 <= i < slots.len() && #[trigger] slots[i].key == key,
        slots_map(slots).dom().finite(),
    decreases slots.len(),
{
    if slots.len() > 0 {
        let front = slots.drop_last();
        lemma_slots_map_dom(front, key);
        if slots.last().key == key {
            assert(slots[slots.len() - 1].key == key);
        } else if slots_map(front).contains_key(key) {
            let i = choose|i: int| 0 <= i < front.len() && #[trigger] front[i].key == key;
            assert(slots[i].key == key);
        } else {
            assert forall|i: int| 0 <= i < slots.len() implies #[trigger] slots[i].key != key by {
                if i < front.len() {
                    assert(front[i].key != key);
                }
            }
        }
    }
}

/// Among slots with distinct keys, the key of a slot maps to its entry.
pub proof fn lemma_slots_map_at(slots: Seq<SlotView>, i: int)
    requires
        distinct_keys(slots),
        0 <= i < slots.len(),
    ensures
        slots_map(slots).contains_key(slots[i].key),
        slots_map(slots)[slots[i].key] == slots[i].entry,
    decreases slots.len(),
{
    if i < slots.len() - 1 {
        assert(slots[i].key != slots.last().key);
        lemma_slots_map_at(slots.drop_last(), i);
    }
}

/// Changing the entry of a slot changes the mapping at its key only.
pub proof fn lemma_slots_map_update(slots: Seq<SlotView>, i: int, entry: Entry)
    requires
        distinct_keys(slots),
        0 <= i < slots.len(),
    ensures
        distinct_keys(slots.update(i, SlotView { key: slots[i].key, entry })),
        slots_map(slots.update(i, SlotView { key: slots[i].key, entry })) == slots_map(
            slots,
        ).insert(slots[i].key, entry),
    decreases slots.len(),
{
    let key = slots[i].key;
    let changed = slots.update(i, SlotView { key, entry });
    let front = slots.drop_last();
    if i == slots.len() - 1 {
        assert(changed.drop_last() =~= front);
        assert(slots_map(changed) =~= slots_map(slots).insert(key, entry));
    } else {
        assert(slots[i].key != slots.last().key);
        lemma_slots_map_update(front, i, entry);
        assert(changed.drop_last() =~= front.update(i, SlotView { key, entry }));
        assert(changed.last() == slots.last());
        assert(slots_map(changed) =~= slots_map(slots).insert(key, entry));
    }
}

/// Taking the slot at `i` out by moving the last slot into its place
/// removes its key from the mapping and nothing else.
pub proof fn lemma_slots_map_swap_remove(slots: Seq<SlotView>, i: int)
    requires
        distinct_keys(slots),
        0 <= i < slots.len(),
    ensures
        distinct_keys(slots.update(i, slots.last()).drop_last()),
        slots_map(slots.update(i, slots.last()).drop_last()) == slots_map(slots).remove(
            slots[i].key,
        ),
{
    let key = slots[i].key;
    let front = slots.drop_last();
    let out = slots.update(i, slots.last()).drop_last();
    lemma_slots_map_dom(front, slots.last().key);
    assert(!slots_map(front).contains_key(slots.last().key)) by {
        if slots_map(front).contains_key(slots.last().key) {
            let j = choose|j: int|
                0 <= j < front.len() && #[trigger] front[j].key == slots.last().key;
            assert(slots[j].key != slots[slots.len() - 1].key);
        }
    }
    if i == slots.len() - 1 {
        assert(out =~= front);
        assert(slots_map(out) =~= slots_map(slots).remove(key));
    } else {
        let last = slots.last();
        assert(slots[i].key != last.key);
        assert(out =~= front.update(i, last));
        lemma_slots_map_rekey(front, i, last);
        assert(slots_map(out) =~= slots_map(slots).remove(key));
        assert forall|a: int, b: int| 0 <= a < b < out.len() implies out[a].key != out[b].key by {
            if a == i {
                assert(slots[b].key != slots[slots.len() - 1].key);
            } else if b == i {
                assert(slots[a].key != slots[slots.len() - 1].key);
            } else {
                assert(slots[a].key != slots[b].key);
            }
        }
    }
}

/// Putting a slot with a key that no slot bears in place of the slot at
/// `i` removes the old key from the mapping and adds the new one.
pub proof fn lemma_slots_map_rekey(slots: Seq<SlotView>, i: int, slot: SlotView)
    requires
        distinct_keys(slots),
        0 <= i < slots.len(),
        forall|j: int| 0 <= j < slots.len() ==> (#[trigger] slots[j]).key != slot.key,
    ensures
        slots_map(slots.update(i, slot)) == slots_map(slots).remove(slots[i].key).insert(
            slot.key,
            slot.entry,
        ),
    decreases slots.len(),
{
    let changed = slots.update(i, slot);
    let front = slots.drop_last();
    if i == slots.len() - 1 {
        assert(changed.drop_last() =~= front);
        lemma_slots_map_dom(front, slots[i].key);
        assert(!slots_map(front).contains_key(slots[i].key)) by {
            if slots_map(front).contains_key(slots[i].key) {
                let j = choose|j: int| 0 <= j < front.len() && #[trigger] front[j].key == slots[i].key;
                assert(slots[j].key != slots[i].key);
            }
        }
        assert(slots_map(changed) =~= slots_map(slots).remove(slots[i].key).insert(
            slot.key,
            slot.entry,
        ));
    } else {
        assert(slots[i].key != slots.last().key);
        assert(slots[slots.len() - 1].key != slot.key);
        assert forall|j: int| 0 <= j < front.len() implies (#[trigger] front[j]).key
            != slot.key by {
            assert(slots[j].key != slot.key);
        }
        lemma_slots_map_rekey(front, i, slot);
        assert(changed.drop_last() =~= front.update(i, slot));
        assert(changed.last() == slots.last());
        assert(slots_map(changed) =~= slots_map(slots).remove(slots[i].key).insert(
            slot.key,
            slot.entry,
        ));
    }
}

/// The hash of a key: FNV-1a over its bytes, in 64 bits.
pub open spec fn key_hash(key: Seq<u8>) -> u64
    decreases key.len(),
{
    if key.len() == 0 {
        HASH_OFFSET
    } else {
        (key_hash(key.drop_last()) ^ (key.last() as u64)).wrapping_mul(HASH_PRIME)
    }
}

/// The bucket that `key` falls in among `count` buckets.
pub open spec fn bucket_of(key: Seq<u8>, count: int) -> int {
    (key_hash(key) as int) % count
}

/// The bucket `b` lists the position `p`.
pub open spec fn listed(table: Seq<Seq<usize>>, b: int, p: int) -> bool {
    exists|j: int| 0 <= j < table[b].len() && #[trigger] table[b][j] == p
}

/// Every position that a bucket lists is a position of a slot whose key
/// falls in that bucket.
pub open spec fn table_sound(slots: Seq<SlotView>, table: Seq<Seq<usize>>) -> bool {
    forall|b: int, j: int|
        0 <= b < table.len() && 0 <= j < table[b].len() ==> {
            let p = #[trigger] table[b][j];
            p < slots.len() && bucket_of(slots[p as int].key, table.len() as int) == b
        }
}

/// Every slot is listed in the bucket that its key falls in.
pub open spec fn table_complete(slots: Seq<SlotView>, table: Seq<Seq<usize>>) -> bool {
    forall|p: int|
        0 <= p < slots.len() ==> listed(
            table,
            bucket_of((#[trigger] slots[p]).key, table.len() as int),
            p,
        )
}

/// The hash of `key`.
pub fn hash_key(key: &[u8]) -> (h: u64)
    ensures
        h == key_hash(key@),
{
    let mut h: u64 = HASH_OFFSET;
    let mut i: usize = 0;
    while i < key.len()
        invariant
            i <= key@.len(),
            h == key_hash(key@.take(i as int)),
        decreases key.len() - i,
    {
        proof {
            assert(key@.take(i + 1).drop_last() =~= key@.take(i as int));
        }
        h = (h ^ (key[i] as u64)).wrapping_mul(HASH_PRIME);
        i += 1;
    }
    assert(key@.take(i as int) =~= key@);
    h
}

/// The positions of `bucket` but `gone`.
fn without(bucket: &Vec<usize>, gone: usize) -> (out: Vec<usize>)
    ensures
        forall|j: int| 0 <= j < out@.len() ==> (#[trigger] out@[j]) != gone && bucket@.contains(
            out@[j],
        ),
        forall|j: int|
            0 <= j < bucket@.len() && (#[trigger] bucket@[j]) != gone ==> out@.contains(bucket@[j]),
{
    let mut out: Vec<usize> = Vec::new();
    let mut i: usize = 0;
    while i < bucket.len()
        invariant
            i <= bucket@.len(),
            forall|j: int|
                0 <= j < out@.len() ==> (#[trigger] out@[j]) != gone && bucket@.contains(out@[j]),
            forall|j: int|
                0 <= j < i && (#[trigger] bucket@[j]) != gone ==> out@.contains(bucket@[j]),
        decreases bucket.len() - i,
    {
        let p = bucket[i];
        if p != gone {
            let ghost before = out@;
            out.push(p);
            proof {
                assert(bucket@.contains(p));
                assert(out@[out@.len() - 1] == p);
                assert forall|j: int| 0 <= j < i + 1 && (#[trigger] bucket@[j])
                    != gone implies out@.contains(bucket@[j]) by {
                    if j < i {
                        let w = choose|w: int| 0 <= w < before.len() && before[w] == bucket@[j];
                        assert(out@[w] == bucket@[j]);
                    }
                }
            }
        }
        i += 1;
    }
    out
}

/// The positions of `bucket` with `to` in place of `from`.
fn renamed(bucket: &Vec<usize>, from: usize, to: usize) -> (out: Vec<usize>)
    ensures
        out@.len() == bucket@.len(),
        forall|j: int|
            0 <= j < out@.len() ==> (#[trigger] out@[j]) == (if bucket@[j] == from {
                to
            } else {
                bucket@[j]
            }),
{
    let mut out: Vec<usize> = Vec::new();
    let mut i: usize = 0;
    while i < bucket.len()
        invariant
            i <= bucket@.len(),
            out@.len() == i,
            forall|j: int|
                0 <= j < i ==> (#[trigger] out@[j]) == (if bucket@[j] == from {
                    to
                } else {
                    bucket@[j]
                }),
        decreases bucket.len() - i,
    {
        let p = bucket[i];
        out.push(if p == from { to } else { p });
        i += 1;
    }
    out
}

/// The index of a store: the slots in the order in which they came, and a
/// hash table of their positions.
#[derive(Debug)]
pub struct Index {
    slots: Vec<Slot>,
    buckets: Vec<Vec<usize>>,
}

impl View for Index {
    type V = Map<Seq<u8>, Entry>;

    /// The mapping from each live key to its entry.
    open spec fn view(&self) -> Map<Seq<u8>, Entry> {
        slots_map(self.slots())
    }
}

impl Index {
    /// The slots of the index, in the order in which it walks them.
    pub closed spec fn slots(&self) -> Seq<SlotView> {
        Seq::new(self.slots@.len(), |i: int| self.slots@[i]@)
    }

    /// The positions that each bucket of the hash table lists.
    pub closed spec fn table(&self) -> Seq<Seq<usize>> {
        Seq::new(self.buckets@.len(), |b: int| self.buckets@[b]@)
    }

    /// The hash table finds every slot, and nothing else.
    pub open spec fn hashed(&self) -> bool {
        &&& self.table().len() > 0
        &&& table_sound(self.slots(), self.table())
        &&& table_complete(self.slots(), self.table())
    }

    /// No key occurs twice, and the hash table finds every slot.
    pub open spec fn wf(&self) -> bool {
        distinct_keys(self.slots()) && self.hashed()
    }

    /// The entry of `key`, if the index holds the key.
    pub open spec fn lookup(&self, key: Seq<u8>) -> Option<Entry> {
        if self@.contains_key(key) {
            Some(self@[key])
        } else {
            None
        }
    }

    /// An index without keys.
    pub fn new() -> (index: Index)
        ensures
            index.wf(),
            index.slots() == Seq::<SlotView>::empty(),
            index@ == Map::<Seq<u8>, Entry>::empty(),
    {
        let mut index = Index { slots: Vec::new(), buckets: Vec::new() };
        index.rebuild(INITIAL_BUCKETS);
        assert(index.slots() =~= Seq::<SlotView>::empty());
        index
    }

    /// The number of keys.
    pub fn len(&self) -> (n: usize)
        ensures
            n == self.slots().len(),
    {
        self.slots.len()
    }

    /// The key of the slot at `i`.
    pub fn key_at(&self, i: usize) -> (key: &Vec<u8>)
        requires
            i < self.slots().len(),
        ensures
            key@ == self.slots()[i as int].key,
    {
        &self.slots[i].key
    }

    /// The entry of the slot at `i`.
    pub fn entry_at(&self, i: usize) -> (entry: Entry)
        requires
            i < self.slots().len(),
        ensures
            entry == self.slots()[i as int].entry,
    {
        self.slots[i].entry
    }

    /// Gives the slot at `i` a new entry and leaves its key.
    pub fn set_entry_at(&mut self, i: usize, entry: Entry)
        requires
            old(self).wf(),
            i < old(self).slots().len(),
        ensures
            final(self).wf(),
            final(self).slots() == old(self).slots().update(
                i as int,
                SlotView { key: old(self).slots()[i as int].key, entry },
            ),
            final(self)@ == old(self)@.insert(old(self).slots()[i as int].key, entry),
    {
        let ghost before = self.slots();
        let ghost table = self.table();
        proof {
            lemma_slots_map_update(before, i as int, entry);
        }
        self.slots[i].entry = entry;
        proof {
            let after = self.slots();
            assert(after =~= before.update(i as int, SlotView { key: before[i as int].key, entry }));
            assert(self.table() =~= table);
            assert forall|p: int| 0 <= p < after.len() implies (#[trigger] after[p]).key
                == before[p].key by {}
            assert forall|b: int, j: int|
                0 <= b < table.len() && 0 <= j < table[b].len() implies {
                let p = #[trigger] table[b][j];
                p < after.len() && bucket_of(after[p as int].key, table.len() as int) == b
            } by {
                let p = table[b][j];
                assert(after[p as int].key == before[p as int].key);
            }
            assert forall|p: int| 0 <= p < after.len() implies listed(
                table,
                bucket_of((#[trigger] after[p]).key, table.len() as int),
                p,
            ) by {
                assert(listed(table, bucket_of(before[p].key, table.len() as int), p));
            }
        }
    }

    /// Lays the hash table out anew with `count` buckets.
    fn rebuild(&mut self, count: usize)
        requires
            count > 0,
        ensures
            final(self).slots() == old(self).slots(),
            final(self).hashed(),
            final(self).table().len() == count,
    {
        let mut buckets: Vec<Vec<usize>> = Vec::new();
        let mut b: usize = 0;
        while b < count
            invariant
                b <= count,
                buckets@.len() == b,
                forall|k: int| 0 <= k < b ==> (#[trigger] buckets@[k])@.len() == 0,
            decreases count - b,
        {
            buckets.push(Vec::new());
            b += 1;
        }
        self.buckets = buckets;
        let ghost slots = self.slots();
        let mut p: usize = 0;
        while p < self.slots.len()
            invariant
                self.slots() == slots,
                self.table().len() == count,
                count > 0,
                p <= slots.len(),
                forall|b: int, j: int|
                    0 <= b < count && 0 <= j < self.table()[b].len() ==> {
                        let q = #[trigger] self.table()[b][j];
                        q < p && bucket_of(slots[q as int].key, count as int) == b
                    },
                forall|q: int|
                    0 <= q < p ==> listed(
                        self.table(),
                        bucket_of((#[trigger] slots[q]).key, count as int),
                        q,
                    ),
            decreases self.slots.len() - p,
        {
            let h = hash_key(self.slots[p].key.as_slice());
            let b = (h % (count as u64)) as usize;
            let ghost before = self.table();
            assert(self.slots@[p as int].key@ == slots[p as int].key);
            assert(b == bucket_of(slots[p as int].key, count as int));
            self.buckets[b].push(p);
            proof {
                let after = self.table();
                assert(after[b as int] =~= before[b as int].push(p));
                assert forall|c: int| 0 <= c < count && c != b implies #[trigger] after[c]
                    == before[c] by {}
                assert forall|c: int, j: int|
                    0 <= c < count && 0 <= j < after[c].len() implies {
                    let q = #[trigger] after[c][j];
                    q < p + 1 && bucket_of(slots[q as int].key, count as int) == c
                } by {
                    if c == b && j == before[b as int].len() {
                    } else {
                        assert(after[c][j] == before[c][j]);
                    }
                }
                assert forall|q: int| 0 <= q < p + 1 implies listed(
                    after,
                    bucket_of((#[trigger] slots[q]).key, count as int),
                    q,
                ) by {
                    let c = bucket_of(slots[q].key, count as int);
                    if q < p {
                        let j = choose|j: int|
                            0 <= j < before[c].len() && #[trigger] before[c][j] == q;
                        assert(after[c][j] == q);
                    } else {
                        assert(after[b as int][before[b as int].len() as int] == q);
                    }
                }
            }
            p += 1;
        }
    }

    /// The position of the slot of `key`, if the index holds the key.
    fn position(&self, key: &[u8]) -> (at: Option<usize>)
        requires
            self.wf(),
        ensures
            match at {
                Some(i) => i < self.slots().len() && self.slots()[i as int].key == key@
                    && self@.contains_key(key@) && self@[key@] == self.slots()[i as int].entry,
                None => !self@.contains_key(key@),
            },
    {
        let h = hash_key(key);
        let count = self.buckets.len();
        assert(count == self.table().len());
        let b = (h % (count as u64)) as usize;
        assert(b == bucket_of(key@, count as int));
        let bucket = &self.buckets[b];
        assert(bucket@ == self.table()[b as int]);
        let mut j: usize = 0;
        while j < bucket.len()
            invariant
                self.wf(),
                b < self.table().len(),
                bucket@ == self.table()[b as int],
                j <= bucket@.len(),
                forall|k: int| 0 <= k < j ==> self.slots()[(#[trigger] bucket@[k]) as int].key != key@,
            decreases bucket.len() - j,
        {
            let p = bucket[j];
            assert(self.table()[b as int][j as int] == p);
            assert(p < self.slots().len());
            if bytes_equal(self.slots[p].key.as_slice(), key) {
                proof {
                    lemma_slots_map_at(self.slots(), p as int);
                }
                return Some(p);
            }
            j += 1;
        }
        proof {
            lemma_slots_map_dom(self.slots(), key@);
            if self@.contains_key(key@) {
                let p = choose|p: int| 0 <= p < self.slots().len() && #[trigger] self.slots()[p].key
                    == key@;
                assert(listed(self.table(), bucket_of(self.slots()[p].key, count as int), p));
                let k = choose|k: int|
                    0 <= k < self.table()[b as int].len() && #[trigger] self.table()[b as int][k]
                        == p;
                assert(self.slots()[bucket@[k] as int].key != key@);
            }
        }
        None
    }

    /// The entry of `key`, if the index holds the key.
    pub fn get(&self, key: &[u8]) -> (out: Option<Entry>)
        requires
            self.wf(),
        ensures
            out == self.lookup(key@),
    {
        match self.position(key) {
            Some(i) => Some(self.slots[i].entry),
            None => None,
        }
    }

    /// Maps `key` to `entry`, in place of the entry that the key had, and
    /// returns that entry. The key is copied.
    pub fn insert(&mut self, key: &[u8], entry: Entry) -> (previous: Option<Entry>)
        requires
            old(self).wf(),
        ensures
            final(self).wf(),
            final(self)@ == old(self)@.insert(key@, entry),
            previous == old(self).lookup(key@),
    {
        match self.position(key) {
            Some(i) => {
                let previous = self.slots[i].entry;
                self.set_entry_at(i, entry);
                Some(previous)
            },
            None => {
                let ghost before = self.slots();
                let ghost table = self.table();
                proof {
                    lemma_slots_map_dom(before, key@);
                }
                let count = self.buckets.len();
                assert(count == table.len());
                let b = (hash_key(key) % (count as u64)) as usize;
                let p = self.slots.len();
                self.slots.push(Slot { key: slice_to_vec(key), entry });
                self.buckets[b].push(p);
                proof {
                    let slots = self.slots();
                    let after = self.table();
                    assert(slots.drop_last() =~= before);
                    assert(slots.last() == SlotView { key: key@, entry });
                    assert forall|x: int, y: int| 0 <= x < y < slots.len() implies slots[x].key
                        != slots[y].key by {
                        assert(slots[x] == before[x]);
                        if y < before.len() {
                            assert(slots[y] == before[y]);
                        }
                    }
                    assert(after[b as int] =~= table[b as int].push(p));
                    assert forall|c: int| 0 <= c < count && c != b implies #[trigger] after[c]
                        == table[c] by {}
                    assert forall|c: int, j: int|
                        0 <= c < after.len() && 0 <= j < after[c].len() implies {
                        let q = #[trigger] after[c][j];
                        q < slots.len() && bucket_of(slots[q as int].key, after.len() as int) == c
                    } by {
                        if c == b && j == table[b as int].len() {
                        } else {
                            assert(after[c][j] == table[c][j]);
                            assert(slots[table[c][j] as int] == before[table[c][j] as int]);
                        }
                    }
                    assert forall|q: int| 0 <= q < slots.len() implies listed(
                        after,
                        bucket_of((#[trigger] slots[q]).key, after.len() as int),
                        q,
                    ) by {
                        let c = bucket_of(slots[q].key, count as int);
                        if q < p {
                            assert(slots[q] == before[q]);
                            assert(listed(table, bucket_of(before[q].key, count as int), q));
                            let j = choose|j: int|
                                0 <= j < table[c].len() && #[trigger] table[c][j] == q;
                            assert(after[c][j] == q);
                        } else {
                            assert(after[b as int][table[b as int].len() as int] == q);
                        }
                    }
                }
                if p >= count && count <= usize::MAX / 2 && p / count >= MAX_LOAD {
                    self.rebuild(count * 2);
                }
                None
            },
        }
    }

    /// Takes `key` out of the index and returns the entry that it had.
    pub fn remove(&mut self, key: &[u8]) -> (previous: Option<Entry>)
        requires
            old(self).wf(),
        ensures
            final(self).wf(),
            final(self)@ == old(self)@.remove(key@),
            previous == old(self).lookup(key@),
    {
        match self.position(key) {
            Some(i) => {
                let ghost before = self.slots();
                let ghost table = self.table();
                proof {
                    lemma_slots_map_swap_remove(before, i as int);
                }
                let count = self.buckets.len();
                assert(count == table.len());
                let last = self.slots.len() - 1;
                let from = (hash_key(key) % (count as u64)) as usize;
                let slot = self.slots.swap_remove(i);
                let ghost slots = self.slots();
                assert(slots =~= before.update(i as int, before.last()).drop_last());
                let kept = without(&self.buckets[from], i);
                self.buckets.set(from, kept);
                let ghost middle = self.table();
                proof {
                    assert forall|c: int| 0 <= c < count && c != from implies #[trigger] middle[c]
                        == table[c] by {}
                }
                if i != last {
                    let to = (hash_key(self.slots[i].key.as_slice()) % (count as u64)) as usize;
                    assert(self.slots@[i as int].key@ == before[last as int].key);
                    let moved = renamed(&self.buckets[to], last, i);
                    self.buckets.set(to, moved);
                }
                proof {
                    let after = self.table();
                    let to = bucket_of(before[last as int].key, count as int);
                    assert forall|c: int| 0 <= c < count && (c != to || i == last) implies #[trigger] after[c]
                        == middle[c] by {}
                    assert forall|c: int, j: int|
                        0 <= c < after.len() && 0 <= j < after[c].len() implies {
                        let q = #[trigger] after[c][j];
                        q < slots.len() && bucket_of(slots[q as int].key, after.len() as int) == c
                    } by {
                        let q = after[c][j];
                        if c == to && i != last {
                            let m = middle[c][j];
                            if m == last {
                            } else {
                                lemma_kept(table, middle, from as int, i, c, j);
                            }
                        } else {
                            lemma_kept(table, middle, from as int, i, c, j);
                            assert(q != last) by {
                                if q == last {
                                    assert(bucket_of(before[last as int].key, count as int) == c);
                                }
                            }
                        }
                    }
                    assert forall|q: int| 0 <= q < slots.len() implies listed(
                        after,
                        bucket_of((#[trigger] slots[q]).key, after.len() as int),
                        q,
                    ) by {
                        let c = bucket_of(slots[q].key, count as int);
                        if q == i {
                            assert(listed(table, bucket_of(before[last as int].key, count as int), last as int));
                            let j = choose|j: int|
                                0 <= j < table[c].len() && #[trigger] table[c][j] == last;
                            lemma_stays(table, middle, from as int, i, c, j);
                            let w = choose|w: int|
                                0 <= w < middle[c].len() && #[trigger] middle[c][w] == last;
                            assert(after[c][w] == i);
                        } else {
                            assert(slots[q] == before[q]);
                            assert(listed(table, bucket_of(before[q].key, count as int), q));
                            let j = choose|j: int|
                                0 <= j < table[c].len() && #[trigger] table[c][j] == q;
                            lemma_stays(table, middle, from as int, i, c, j);
                            let w = choose|w: int|
                                0 <= w < middle[c].len() && #[trigger] middle[c][w] == q;
                            assert(after[c][w] == q);
                        }
                    }
                }
                Some(slot.entry)
            },
            None => {
                assert(self@ =~= self@.remove(key@));
                None
            },
        }
    }
}

/// A position that the table lists after `gone` was taken out of the
/// bucket `from` was listed there before, and is not `gone` in that
/// bucket.
proof fn lemma_kept(
    table: Seq<Seq<usize>>,
    middle: Seq<Seq<usize>>,
    from: int,
    gone: usize,
    c: int,
    j: int,
)
    requires
        middle.len() == table.len(),
        0 <= from < table.len(),
        0 <= c < table.len(),
        0 <= j < middle[c].len(),
        forall|k: int| 0 <= k < table.len() && k != from ==> #[trigger] middle[k] == table[k],
        forall|k: int|
            0 <= k < middle[from].len() ==> (#[trigger] middle[from][k]) != gone
                && table[from].contains(middle[from][k]),
    ensures
        exists|w: int| 0 <= w < table[c].len() && #[trigger] table[c][w] == middle[c][j],
        c == from ==> middle[c][j] != gone,
{
    if c == from {
        assert(table[from].contains(middle[from][j]));
        let w = choose|w: int| 0 <= w < table[from].len() && table[from][w] == middle[from][j];
        assert(table[c][w] == middle[c][j]);
    } else {
        assert(middle[c] == table[c]);
        assert(table[c][j] == middle[c][j]);
    }
}

/// A position other than `gone` that the table listed is listed after
/// `gone` was taken out of the bucket `from`.
proof fn lemma_stays(
    table: Seq<Seq<usize>>,
    middle: Seq<Seq<usize>>,
    from: int,
    gone: usize,
    c: int,
    j: int,
)
    requires
        middle.len() == table.len(),
        0 <= from < table.len(),
        0 <= c < table.len(),
        0 <= j < table[c].len(),
        table[c][j] != gone,
        forall|k: int| 0 <= k < table.len() && k != from ==> #[trigger] middle[k] == table[k],
        forall|k: int|
            0 <= k < table[from].len() && (#[trigger] table[from][k]) != gone
                ==> middle[from].contains(table[from][k]),
    ensures
        exists|w: int| 0 <= w < middle[c].len() && #[trigger] middle[c][w] == table[c][j],
{
    if c == from {
        assert(middle[from].contains(table[from][j]));
        let w = choose|w: int| 0 <= w < middle[from].len() && middle[from][w] == table[from][j];
        assert(middle[c][w] == table[c][j]);
    } else {
        assert(middle[c] == table[c]);
        assert(middle[c][j] == table[c][j]);
    }
}

} // verus!
