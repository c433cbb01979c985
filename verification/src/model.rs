//! The store as a mapping from keys to values, and what follows for every
//! sequence of writes: `put` inserts into that mapping, `delete` removes
//! from it, `get` looks a key up in it, and reopening leaves it as it was.

use crate::recovery::{contents, recover};
use crate::store::KvStore;
use vstd::prelude::*;

verus! {

/// One write to a store.
pub enum Op {
    Put { key: Seq<u8>, value: Seq<u8> },
    Delete { key: Seq<u8> },
}

impl Op {
    /// The key that the write is about.
    pub open spec fn key(self) -> Seq<u8> {
        match self {
            Op::Put { key, .. } => key,
            Op::Delete { key } => key,
        }
    }

    /// What a `get` of the key finds just after the write.
    pub open spec fn outcome(self) -> Option<Seq<u8>> {
        match self {
            Op::Put { value, .. } => Some(value),
            Op::Delete { .. } => None,
        }
    }
}

/// What a `get` of `key` returns from a store with the contents `m`.
pub open spec fn lookup(m: Map<Seq<u8>, Seq<u8>>, key: Seq<u8>) -> Option<Seq<u8>> {
    if m.contains_key(key) {
        Some(m[key])
    } else {
        None
    }
}

/// The contents after one write.
pub open spec fn apply(m: Map<Seq<u8>, Seq<u8>>, op: Op) -> Map<Seq<u8>, Seq<u8>> {
    match op {
        Op::Put { key, value } => m.insert(key, value),
        Op::Delete { key } => m.remove(key),
    }
}

/// The contents after the writes `ops`, in their order.
pub open spec fn apply_all(m: Map<Seq<u8>, Seq<u8>>, ops: Seq<Op>) -> Map<Seq<u8>, Seq<u8>>
    decreases ops.len(),
{
    if ops.len() == 0 {
        m
    } else {
        apply(apply_all(m, ops.drop_last()), ops.last())
    }
}

/// The last of the writes `ops` that is about `key`, if there is one.
pub open spec fn last_write(ops: Seq<Op>, key: Seq<u8>) -> Option<Op>
    decreases ops.len(),
{
    if ops.len() == 0 {
        None
    } else if ops.last().key() == key {
        Some(ops.last())
    } else {
        last_write(ops.drop_last(), key)
    }
}

/// None of the writes `ops` is about `key`.
pub open spec fn untouched(ops: Seq<Op>, key: Seq<u8>) -> bool {
    forall|i: int| 0 <= i < ops.len() ==> (#[trigger] ops[i]).key() != key
}

/// After any sequence of puts and deletes, a `get` of a key returns the
/// value of the last put of that key if no delete of the key came after
/// it, nothing if the last write to the key was a delete, and what the
/// store held before if none of the writes was about the key.
pub proof fn lemma_get_after_writes(m: Map<Seq<u8>, Seq<u8>>, ops: Seq<Op>, key: Seq<u8>)
    ensures
        lookup(apply_all(m, ops), key) == (match last_write(ops, key) {
            Some(op) => op.outcome(),
            None => lookup(m, key),
        }),
    decreases ops.len(),
{
    if ops.len() > 0 {
        lemma_get_after_writes(m, ops.drop_last(), key);
    }
}

/// In a store that was empty, a key that no write was about is absent.
pub proof fn lemma_get_unwritten(ops: Seq<Op>, key: Seq<u8>)
    requires
        last_write(ops, key) is None,
    ensures
        lookup(apply_all(Map::empty(), ops), key) is None,
{
    lemma_get_after_writes(Map::empty(), ops, key);
}

/// A put, then a delete of the same key, then a get of it: absent,
/// whatever the store held.
pub proof fn lemma_put_delete_get(m: Map<Seq<u8>, Seq<u8>>, key: Seq<u8>, value: Seq<u8>)
    ensures
        lookup(apply(apply(m, Op::Put { key, value }), Op::Delete { key }), key) is None,
{
}

/// Writes that are not about `key` leave what a `get` of `key` returns.
pub proof fn lemma_unrelated_writes(m: Map<Seq<u8>, Seq<u8>>, ops: Seq<Op>, key: Seq<u8>)
    requires
        untouched(ops, key),
    ensures
        lookup(apply_all(m, ops), key) == lookup(m, key),
    decreases ops.len(),
{
    if ops.len() > 0 {
        let front = ops.drop_last();
        assert forall|i: int| 0 <= i < front.len() implies (#[trigger] front[i]).key() != key by {
            assert(front[i] == ops[i]);
        }
        lemma_unrelated_writes(m, front, key);
        assert(ops[ops.len() - 1].key() != key);
    }
}

/// Two puts of one key, the second after the first, then a get of the
/// key: the second value, whatever writes to other keys come between the
/// two puts and after them, and whatever the store held.
pub proof fn lemma_second_put_wins(
    m: Map<Seq<u8>, Seq<u8>>,
    key: Seq<u8>,
    first: Seq<u8>,
    second: Seq<u8>,
    between: Seq<Op>,
    after: Seq<Op>,
)
    requires
        untouched(between, key),
        untouched(after, key),
    ensures
        lookup(
            apply_all(
                apply(
                    apply_all(apply(m, Op::Put { key, value: first }), between),
                    Op::Put { key, value: second },
                ),
                after,
            ),
            key,
        ) == Some(second),
{
    let base = apply(
        apply_all(apply(m, Op::Put { key, value: first }), between),
        Op::Put { key, value: second },
    );
    lemma_unrelated_writes(base, after, key);
}

/// A put of an empty value leaves the key live, with the empty value.
pub proof fn lemma_empty_value_is_live(m: Map<Seq<u8>, Seq<u8>>, key: Seq<u8>)
    ensures
        lookup(apply(m, Op::Put { key, value: Seq::<u8>::empty() }), key) == Some(
            Seq::<u8>::empty(),
        ),
{
}

/// Reopening loses nothing: a store that recovery rebuilds from the
/// segments of a durable store, as `open` does, holds for every key what
/// that store held.
pub proof fn lemma_reopen_keeps_contents(before: &KvStore, after: &KvStore)
    requires
        before.wf(),
        before.durable(),
        after.segments() == before.segments(),
        Some(after.state()) == recover(before.segments()),
    ensures
        after@ == before@,
        forall|key: Seq<u8>| lookup(after@, key) == lookup(before@, key),
{
}

} // verus!
