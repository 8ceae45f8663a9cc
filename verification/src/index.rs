//! The hash table: it finds the slot of an entry by the hash of the entry's key.

use hashbrown::raw::RawTable;
use vstd::prelude::*;

verus! {

/// A `RawTable` of hashbrown that holds slots, each filed under a hash.
#[verifier::external_body]
pub struct HashIndex {
    table: RawTable<usize>,
}

/// The slots that an index holds, each with the hash under which it is filed.
pub uninterp spec fn filed(index: HashIndex) -> Set<(u64, usize)>;

/// The number of slots for which an index was made.
pub uninterp spec fn room(index: HashIndex) -> nat;

/// For up to this many slots, hashbrown can compute the layout of a table.
pub open spec fn index_limit() -> int {
    usize::MAX as int / 128
}

/// No slot is filed under two hashes.
pub open spec fn filed_once(slots: Set<(u64, usize)>) -> bool {
    forall|hash: u64, other: u64, slot: usize| #[trigger]
        slots.contains((hash, slot)) && #[trigger] slots.contains((other, slot)) ==> hash == other
}

/// The slots are the same, and each is filed under the hash under which it was filed before, or
/// under one that the function computes for it.
pub open spec fn refiled<H: Fn(usize) -> u64>(
    before: Set<(u64, usize)>,
    after: Set<(u64, usize)>,
    hasher: H,
) -> bool {
    &&& after.finite() && after.len() == before.len()
    &&& filed_once(after)
    &&& forall|hash: u64, slot: usize| #[trigger]
        after.contains((hash, slot)) ==> before.contains((hash, slot)) || call_ensures(hasher, (slot,), hash)
    &&& forall|hash: u64, slot: usize| #[trigger] before.contains((hash, slot)) ==> holds(after, slot)
    &&& forall|hash: u64, slot: usize| #[trigger] after.contains((hash, slot)) ==> holds(before, slot)
}

/// The slot is among these.
pub open spec fn holds(slots: Set<(u64, usize)>, slot: usize) -> bool {
    exists|hash: u64| #[trigger] slots.contains((hash, slot))
}

impl HashIndex {
    /// `RawTable::new` makes an empty table, for no slots.
    #[verifier::external_body]
    pub(crate) fn new() -> (index: HashIndex)
        ensures
            filed(index) == Set::<(u64, usize)>::empty(),
            room(index) == 0,
    {
        HashIndex { table: RawTable::new() }
    }

    /// `RawTable::with_capacity` makes an empty table, for as many slots. It panics where the
    /// layout of the table overflows, which it does not do up to the limit.
    #[verifier::external_body]
    pub(crate) fn with_capacity(capacity: usize) -> (index: HashIndex)
        requires
            capacity <= index_limit(),
        ensures
            filed(index) == Set::<(u64, usize)>::empty(),
            room(index) == capacity,
    {
        HashIndex { table: RawTable::with_capacity(capacity) }
    }

    /// `RawTable::len` counts the items.
    #[verifier::external_body]
    pub(crate) fn len(&self) -> (len: usize)
        ensures
            len == filed(*self).len(),
    {
        self.table.len()
    }

    /// `RawTable::capacity` gives a number of items that the table can hold without being
    /// reallocated; it is never below the number of items that it holds. Which number it is
    /// depends on how the table was allocated, and is left open.
    #[verifier::external_body]
    pub(crate) fn capacity(&self) -> (capacity: usize)
        ensures
            capacity >= filed(*self).len(),
            capacity >= room(*self),
    {
        self.table.capacity()
    }

    /// `RawTable::insert` adds an item under a hash. It makes the table grow where it is full,
    /// which it is not while it holds fewer items than it was made for; then it files each item
    /// under the hash that the given function computes for it. It panics where the layout
    /// overflows, which it does not do up to the limit.
    #[verifier::external_body]
    pub(crate) fn insert<H: Fn(usize) -> u64>(&mut self, hash: u64, slot: usize, hasher: H)
        requires
            !holds(filed(*old(self)), slot),
            filed_once(filed(*old(self))),
            filed(*old(self)).len() < index_limit(),
            forall|other: u64, slot: usize| #[trigger]
                filed(*old(self)).contains((other, slot)) ==> call_requires(hasher, (slot,)),
        ensures
            room(*final(self)) == room(*old(self)),
            filed(*old(self)).len() < room(*old(self)) ==> filed(*final(self)) == filed(*old(self)).insert(
                (hash, slot),
            ),
            exists|others: Set<(u64, usize)>| #[trigger]
                refiled(filed(*old(self)), others, hasher) && filed(*final(self)) == others.insert((hash, slot)),
    {
        self.table.insert(hash, slot, |item| hasher(*item));
    }

    /// `RawTable::clone_from_with_hasher` replaces the items by copies of those of another
    /// table. It files each under the hash that the given function computes for it, or copies
    /// the other table as it is where the two are of one size. A table that was made for as many
    /// items keeps its size.
    #[verifier::external_body]
    pub(crate) fn copy_from<H: Fn(usize) -> u64>(&mut self, source: &HashIndex, hasher: H)
        requires
            filed(*source).len() <= room(*old(self)),
            filed_once(filed(*source)),
            forall|other: u64, slot: usize| #[trigger]
                filed(*source).contains((other, slot)) ==> call_requires(hasher, (slot,)),
        ensures
            room(*final(self)) == room(*old(self)),
            refiled(filed(*source), filed(*final(self)), hasher),
    {
        self.table.clone_from_with_hasher(&source.table, |item| hasher(*item));
    }

    /// `RawTable::get` looks for an item under a hash that satisfies a condition. It asks for
    /// the condition of every item under that hash, until one satisfies it; items under
    /// another hash it may meet on the way, and takes one that satisfies the condition.
    #[verifier::external_body]
    pub(crate) fn find<C: Fn(usize) -> bool>(&self, hash: u64, condition: C) -> (found: Option<usize>)
        requires
            forall|other: u64, slot: usize| #[trigger]
                filed(*self).contains((other, slot)) ==> call_requires(condition, (slot,)),
        ensures
            found matches Some(slot) ==> call_ensures(condition, (slot,), true) && holds(filed(*self), slot),
            found is None ==> forall|slot: usize| #[trigger]
                filed(*self).contains((hash, slot)) ==> call_ensures(condition, (slot,), false),
    {
        self.table.get(hash, |item| condition(*item)).copied()
    }
}

} // verus!
