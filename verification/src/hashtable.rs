//! A hash table with open addressing and linear probing.
//!
//! A key's probe sequence starts at its hash modulo the capacity and walks
//! forward, wrapping round. A lookup stops at the first slot that was never
//! used. A deleted entry leaves a marker behind, so that the keys that were
//! placed past it stay reachable. The table grows, to twice the number of its
//! entries, whenever an insertion takes it over 66% full.

use crate::digest::{hash_key, key_hash};
use crate::text::str_eq;
use vstd::prelude::*;

verus! {

/// A key with its value.
#[derive(Debug, PartialEq, Eq, Clone)]
pub struct HashtableEntry {
    pub key: String,
    pub value: String,
}

/// The table has no slot left for a new key.
#[derive(Debug, Clone, Copy, PartialEq, Eq, Structural)]
pub struct IndexExhausted;

/// One slot of the table.
enum Slot {
    /// Never used: a probe sequence ends here.
    Empty,
    /// Held an entry that was deleted: a probe sequence goes on past it.
    Deleted,
    /// Holds an entry.
    Full(HashtableEntry),
}

/// What probing for a key found.
enum Probe {
    /// The key is in the slot with this index.
    Found(usize),
    /// The key is absent, and this slot is where it would be placed.
    Vacant(usize),
    /// The key is absent, and every slot holds another key.
    Exhausted,
}

/// A hash table from string keys to string values.
pub struct Hashtable {
    inner: Vec<Slot>,
    size: usize,
    /// The slot of each key in the table.
    index: Ghost<Map<Seq<char>, int>>,
}

/// Whether `len` entries in `capacity` slots are more than 66% of them.
pub open spec fn exceeds_occupancy(len: nat, capacity: nat) -> bool {
    len * 100 > capacity * 66
}

/// Where the probe sequence of a key starts in a table of `capacity` slots.
pub open spec fn home_slot(key: Seq<char>, capacity: int) -> int {
    key_hash(key) as int % capacity
}

/// The slot that a probe sequence from `home` reaches after `offset` steps, in a
/// table of `capacity` slots: one slot forward each step, and from the last slot
/// to the first.
pub open spec fn probe(home: int, offset: int, capacity: int) -> int {
    if home + offset < capacity {
        home + offset
    } else {
        home + offset - capacity
    }
}

/// The number of steps from `home` to `slot` along the probe sequence.
pub open spec fn distance(home: int, slot: int, capacity: int) -> int {
    if slot >= home {
        slot - home
    } else {
        slot + capacity - home
    }
}

/// The key in a slot that holds an entry.
spec fn slot_key(slot: Slot) -> Seq<char> {
    match slot {
        Slot::Full(entry) => entry.key@,
        _ => Seq::<char>::empty(),
    }
}

/// The value in a slot that holds an entry.
spec fn slot_value(slot: Slot) -> Seq<char> {
    match slot {
        Slot::Full(entry) => entry.value@,
        _ => Seq::<char>::empty(),
    }
}

/// The number of slots that hold an entry.
spec fn count_full(slots: Seq<Slot>) -> nat
    decreases slots.len(),
{
    if slots.len() == 0 {
        0
    } else {
        count_full(slots.drop_last()) + if slots.last() is Full {
            1nat
        } else {
            0nat
        }
    }
}

proof fn lemma_count_bound(slots: Seq<Slot>)
    ensures
        count_full(slots) <= slots.len(),
    decreases slots.len(),
{
    if slots.len() > 0 {
        lemma_count_bound(slots.drop_last());
    }
}

proof fn lemma_count_all_full(slots: Seq<Slot>)
    requires
        forall|i: int| 0 <= i < slots.len() ==> (#[trigger] slots[i]) is Full,
    ensures
        count_full(slots) == slots.len(),
    decreases slots.len(),
{
    if slots.len() > 0 {
        let init = slots.drop_last();
        assert forall|i: int| 0 <= i < init.len() implies (#[trigger] init[i]) is Full by {
            assert(init[i] == slots[i]);
        }
        lemma_count_all_full(init);
    }
}

proof fn lemma_count_none_full(slots: Seq<Slot>)
    requires
        forall|i: int| 0 <= i < slots.len() ==> !((#[trigger] slots[i]) is Full),
    ensures
        count_full(slots) == 0,
    decreases slots.len(),
{
    if slots.len() > 0 {
        let init = slots.drop_last();
        assert forall|i: int| 0 <= i < init.len() implies !((#[trigger] init[i]) is Full) by {
            assert(init[i] == slots[i]);
        }
        lemma_count_none_full(init);
    }
}

proof fn lemma_count_update(slots: Seq<Slot>, at: int, slot: Slot)
    requires
        0 <= at < slots.len(),
    ensures
        count_full(slots.update(at, slot)) + (if slots[at] is Full {
            1nat
        } else {
            0nat
        }) == count_full(slots) + (if slot is Full {
            1nat
        } else {
            0nat
        }),
    decreases slots.len(),
{
    if at == slots.len() - 1 {
        assert(slots.update(at, slot).drop_last() =~= slots.drop_last());
    } else {
        lemma_count_update(slots.drop_last(), at, slot);
        assert(slots.update(at, slot).drop_last() =~= slots.drop_last().update(at, slot));
    }
}

impl View for Hashtable {
    type V = Map<Seq<char>, Seq<char>>;

    /// The mapping that the table holds.
    closed spec fn view(&self) -> Map<Seq<char>, Seq<char>> {
        Map::new(
            |key: Seq<char>| self.index@.dom().contains(key),
            |key: Seq<char>| slot_value(self.inner@[self.index@[key]]),
        )
    }
}

/// The number of slots of a table made by `Hashtable::default`.
pub const DEFAULT_CAPACITY: usize = 100;

impl Default for Hashtable {
    /// An empty table with `DEFAULT_CAPACITY` slots.
    fn default() -> (table: Hashtable)
        ensures
            table.wf(),
            table@ == Map::<Seq<char>, Seq<char>>::empty(),
            table.spec_capacity() == DEFAULT_CAPACITY,
            table.spec_len() == 0,
    {
        Hashtable::with_capacity(DEFAULT_CAPACITY)
    }
}

impl Hashtable {
    /// The number of entries.
    pub closed spec fn spec_len(&self) -> nat {
        self.size as nat
    }

    /// The number of slots.
    pub closed spec fn spec_capacity(&self) -> nat {
        self.inner@.len()
    }

    /// The slot in which the table keeps `key`, for a key of its mapping.
    pub closed spec fn slot_of(&self, key: Seq<char>) -> int {
        self.index@[key]
    }

    /// Whether the slot holds an entry.
    pub closed spec fn occupied(&self, slot: int) -> bool {
        0 <= slot < self.inner@.len() && self.inner@[slot] is Full
    }

    /// Whether the slot was never used. A slot that held an entry which was
    /// deleted is neither occupied nor unused.
    pub closed spec fn unused(&self, slot: int) -> bool {
        0 <= slot < self.inner@.len() && self.inner@[slot] is Empty
    }

    /// Whether `slot` is the first slot on the probe sequence of `key` that
    /// holds no entry.
    pub open spec fn first_free(&self, key: Seq<char>, slot: int) -> bool {
        let capacity = self.spec_capacity() as int;
        let home = home_slot(key, capacity);
        &&& 0 <= slot < capacity
        &&& !self.occupied(slot)
        &&& forall|offset: int|
            0 <= offset < distance(home, slot, capacity) ==> #[trigger] self.occupied(
                probe(home, offset, capacity),
            )
    }

    /// Whether every key of this table stands in the same slot in `other`.
    pub open spec fn keeps_slots_in(&self, other: &Hashtable) -> bool {
        forall|key: Seq<char>| #[trigger]
            self@.dom().contains(key) ==> other.slot_of(key) == self.slot_of(key)
    }

    /// The table is consistent: `size` counts the entries, every key stands in
    /// one slot, and no unused slot lies on the way from a key's home to its slot.
    spec fn structure(&self) -> bool {
        let slots = self.inner@;
        let capacity = slots.len() as int;
        let index = self.index@;
        &&& self.size == count_full(slots)
        &&& index.dom().finite()
        &&& index.dom().len() == self.size
        &&& forall|key: Seq<char>| #[trigger]
            index.dom().contains(key) ==> 0 <= index[key] < capacity && slots[index[key]] is Full
                && slot_key(slots[index[key]]) == key
        &&& forall|i: int|
            0 <= i < capacity && (#[trigger] slots[i]) is Full ==> index.dom().contains(
                slot_key(slots[i]),
            ) && index[slot_key(slots[i])] == i
        &&& forall|key: Seq<char>, offset: int|
            index.dom().contains(key) && 0 <= offset < distance(
                home_slot(key, capacity),
                index[key],
                capacity,
            ) ==> !((#[trigger] slots[probe(home_slot(key, capacity), offset, capacity)]) is Empty)
    }

    /// The invariant of the table: it is consistent and at most 66% full.
    pub closed spec fn wf(&self) -> bool {
        &&& self.structure()
        &&& !exceeds_occupancy(self.size as nat, self.inner@.len())
    }

    /// What the invariant says of the size: the table is at most 66% full, and
    /// its length is the number of keys of its mapping.
    pub proof fn lemma_occupancy(&self)
        requires
            self.wf(),
        ensures
            !exceeds_occupancy(self.spec_len(), self.spec_capacity()),
            self@.dom().finite(),
            self@.dom().len() == self.spec_len(),
            self.spec_len() <= self.spec_capacity(),
    {
        assert(self@.dom() =~= self.index@.dom());
        lemma_count_bound(self.inner@);
    }

    /// Linear probing finds every key: a key of the table stands in an occupied
    /// slot, and every slot that its probe sequence passes before that one has
    /// been used, so that a lookup which stops at the first unused slot does not
    /// stop short of the key.
    pub proof fn lemma_probe_sequence(&self, key: Seq<char>, offset: int)
        requires
            self.wf(),
            self@.dom().contains(key),
        ensures
            self.occupied(self.slot_of(key)),
            0 <= offset < distance(
                home_slot(key, self.spec_capacity() as int),
                self.slot_of(key),
                self.spec_capacity() as int,
            ) ==> !self.unused(probe(home_slot(key, self.spec_capacity() as int), offset, self.spec_capacity() as int)),
    {
        let capacity = self.inner@.len() as int;
        assert(self.index@.dom().contains(key));
        if 0 <= offset < distance(home_slot(key, capacity), self.index@[key], capacity) {
            assert(!(self.inner@[probe(home_slot(key, capacity), offset, capacity)] is Empty));
        }
    }

    /// An empty table with `capacity` slots.
    pub fn with_capacity(capacity: usize) -> (table: Hashtable)
        ensures
            table.wf(),
            table@ == Map::<Seq<char>, Seq<char>>::empty(),
            table.spec_capacity() == capacity,
            table.spec_len() == 0,
    {
        let mut inner: Vec<Slot> = Vec::new();
        let mut i: usize = 0;
        while i < capacity
            invariant
                i <= capacity,
                inner@.len() == i,
                forall|j: int| 0 <= j < i ==> (#[trigger] inner@[j]) is Empty,
            decreases capacity - i,
        {
            inner.push(Slot::Empty);
            i += 1;
        }
        let table = Hashtable { inner, size: 0, index: Ghost(Map::empty()) };
        proof {
            lemma_count_none_full(table.inner@);
            assert(table@ =~= Map::<Seq<char>, Seq<char>>::empty());
        }
        table
    }

    /// The number of entries.
    pub fn len(&self) -> (len: usize)
        ensures
            len == self.spec_len(),
    {
        self.size
    }

    /// The number of slots.
    pub fn capacity(&self) -> (capacity: usize)
        ensures
            capacity == self.spec_capacity(),
    {
        self.inner.len()
    }

    /// Walks the probe sequence of `key`.
    fn find_slot(&self, key: &str) -> (found: Probe)
        requires
            self.structure(),
        ensures
            match found {
                Probe::Found(i) => self.index@.dom().contains(key@) && self.index@[key@] == i,
                Probe::Vacant(t) => {
                    &&& !self.index@.dom().contains(key@)
                    &&& t < self.inner@.len()
                    &&& self.first_free(key@, t as int)
                },
                Probe::Exhausted => {
                    &&& !self.index@.dom().contains(key@)
                    &&& forall|i: int|
                        0 <= i < self.inner@.len() ==> (#[trigger] self.inner@[i]) is Full
                },
            },
    {
        let len = self.inner.len();
        if len == 0 {
            return Probe::Exhausted;
        }
        let home = hash_key(key) % len;
        let ghost slots = self.inner@;
        let ghost capacity = len as int;
        assert(home as int == home_slot(key@, capacity));
        let mut idx: usize = home;
        let mut offset: usize = 0;
        let mut vacant: Option<usize> = None;
        while offset < len
            invariant
                self.structure(),
                slots == self.inner@,
                capacity == len as int,
                len == slots.len(),
                0 < len,
                home < len,
                home as int == home_slot(key@, capacity),
                offset <= len,
                idx < len,
                offset < len ==> idx as int == probe(home as int, offset as int, capacity),
                forall|d: int|
                    0 <= d < offset ==> !((#[trigger] slots[probe(home as int, d, capacity)])
                        is Empty) && !(slots[probe(home as int, d, capacity)] is Full && slot_key(
                        slots[probe(home as int, d, capacity)],
                    ) == key@),
                match vacant {
                    Some(t) => t < len && slots[t as int] is Deleted && distance(
                        home as int,
                        t as int,
                        capacity,
                    ) < offset && forall|d: int|
                        0 <= d < distance(home as int, t as int, capacity) ==> (
                        #[trigger] slots[probe(home as int, d, capacity)]) is Full,
                    None => forall|d: int|
                        0 <= d < offset ==> (#[trigger] slots[probe(home as int, d, capacity)])
                            is Full,
                },
            decreases len - offset,
        {
            match &self.inner[idx] {
                Slot::Empty => {
                    proof {
                        self.lemma_absent(key@, home as int, offset as int);
                    }
                    match vacant {
                        Some(t) => {
                            return Probe::Vacant(t);
                        },
                        None => {
                            return Probe::Vacant(idx);
                        },
                    }
                },
                Slot::Deleted => {
                    if vacant.is_none() {
                        vacant = Some(idx);
                    }
                },
                Slot::Full(entry) => {
                    if str_eq(entry.key.as_str(), key) {
                        return Probe::Found(idx);
                    }
                },
            }
            offset += 1;
            idx = if idx + 1 == len {
                0
            } else {
                idx + 1
            };
        }
        proof {
            self.lemma_absent(key@, home as int, offset as int);
        }
        match vacant {
            Some(t) => Probe::Vacant(t),
            None => {
                proof {
                    assert forall|i: int| 0 <= i < slots.len() implies (#[trigger] slots[i])
                        is Full by {
                        let d = distance(home as int, i, capacity);
                        assert(probe(home as int, d, capacity) == i);
                    }
                }
                Probe::Exhausted
            },
        }
    }

    /// A key is absent where its probe sequence was walked for `walked` steps
    /// without meeting it, and either came to an unused slot or went all the way
    /// round.
    proof fn lemma_absent(&self, key: Seq<char>, home: int, walked: int)
        requires
            self.structure(),
            self.inner@.len() > 0,
            home == home_slot(key, self.inner@.len() as int),
            0 <= home < self.inner@.len(),
            0 <= walked <= self.inner@.len(),
            forall|d: int|
                0 <= d < walked ==> !((#[trigger] self.inner@[probe(
                    home,
                    d,
                    self.inner@.len() as int,
                )]) is Full && slot_key(self.inner@[probe(home, d, self.inner@.len() as int)])
                    == key),
            walked < self.inner@.len() ==> self.inner@[probe(
                home,
                walked,
                self.inner@.len() as int,
            )] is Empty,
        ensures
            !self.index@.dom().contains(key),
    {
        let slots = self.inner@;
        let capacity = slots.len() as int;
        if self.index@.dom().contains(key) {
            let at = self.index@[key];
            let d = distance(home, at, capacity);
            assert(probe(home, d, capacity) == at);
            if d < walked {
                assert(slots[probe(home, d, capacity)] is Full);
            } else if d == walked {
                assert(slots[at] is Empty);
            } else {
                assert(!(slots[probe(home, walked, capacity)] is Empty));
            }
        }
    }

    /// Puts a new entry into a slot that holds none.
    fn fill(&mut self, at: usize, entry: HashtableEntry)
        requires
            old(self).structure(),
            at < old(self).inner@.len(),
            !old(self).index@.dom().contains(entry.key@),
            old(self).first_free(entry.key@, at as int),
        ensures
            final(self).structure(),
            final(self).index@ == old(self).index@.insert(entry.key@, at as int),
            final(self)@ == old(self)@.insert(entry.key@, entry.value@),
            final(self).size == old(self).size + 1,
            final(self).inner@.len() == old(self).inner@.len(),
    {
        let ghost key = entry.key@;
        let ghost before = self.inner@;
        let slots_len = self.inner.len();
        let ghost capacity = slots_len as int;
        proof {
            lemma_count_update(before, at as int, Slot::Full(entry));
            lemma_count_bound(before.update(at as int, Slot::Full(entry)));
        }
        self.inner.set(at, Slot::Full(entry));
        self.size = self.size + 1;
        self.index = Ghost(self.index@.insert(key, at as int));
        proof {
            let slots = self.inner@;
            let index = self.index@;
            assert forall|other: Seq<char>| #[trigger] index.dom().contains(other) implies 0
                <= index[other] < capacity && slots[index[other]] is Full && slot_key(
                slots[index[other]],
            ) == other by {
                if other != key {
                    assert(old(self).index@.dom().contains(other));
                }
            }
            assert forall|i: int| 0 <= i < capacity && (#[trigger] slots[i]) is Full implies index.dom().contains(
                slot_key(slots[i]),
            ) && index[slot_key(slots[i])] == i by {
                if i != at {
                    assert(before[i] is Full);
                }
            }
            assert forall|other: Seq<char>, offset: int|
                index.dom().contains(other) && 0 <= offset < distance(
                    home_slot(other, capacity),
                    index[other],
                    capacity,
                ) implies !((#[trigger] slots[probe(home_slot(other, capacity), offset, capacity)])
                is Empty) by {
                let passed = probe(home_slot(other, capacity), offset, capacity);
                if passed != at {
                    if other != key {
                        assert(old(self).index@.dom().contains(other));
                    } else {
                        assert(old(self).occupied(passed));
                    }
                    assert(!(before[passed] is Empty));
                }
            }
            assert(self@ =~= old(self)@.insert(key, entry.value@));
        }
    }

    /// Moves every entry into a fresh array of `new_capacity` slots.
    fn rehash(&mut self, new_capacity: usize)
        requires
            old(self).structure(),
            !exceeds_occupancy(old(self).size as nat, new_capacity as nat),
        ensures
            final(self).wf(),
            final(self)@ == old(self)@,
            final(self).size == old(self).size,
            final(self).inner@.len() == new_capacity,
    {
        let mut previous = Hashtable::with_capacity(new_capacity);
        core::mem::swap(self, &mut previous);
        let ghost total = previous.size;
        let ghost source = previous.inner@;
        let ghost origin = previous.index@;
        let ghost content = previous@;
        let Hashtable { inner: mut slots, size: _, index: _ } = previous;
        assert(self@ =~= Map::new(
            |key: Seq<char>| origin.dom().contains(key) && origin[key] >= source.len(),
            |key: Seq<char>| content[key],
        ));
        while slots.len() > 0
            invariant
                self.structure(),
                self.inner@.len() == new_capacity,
                !exceeds_occupancy(total as nat, new_capacity as nat),
                slots@ == source.subrange(0, slots@.len() as int),
                slots@.len() <= source.len(),
                self.size + count_full(slots@) == total,
                forall|key: Seq<char>| #[trigger]
                    origin.dom().contains(key) ==> 0 <= origin[key] < source.len()
                        && source[origin[key]] is Full && slot_key(source[origin[key]]) == key
                        && content.dom().contains(key) && content[key] == slot_value(
                        source[origin[key]],
                    ),
                forall|i: int|
                    0 <= i < source.len() && (#[trigger] source[i]) is Full ==> origin.dom().contains(
                        slot_key(source[i]),
                    ) && origin[slot_key(source[i])] == i,
                content.dom() == origin.dom(),
                self@ == Map::new(
                    |key: Seq<char>| origin.dom().contains(key) && origin[key] >= slots@.len(),
                    |key: Seq<char>| content[key],
                ),
            decreases slots@.len(),
        {
            let ghost remaining = slots@;
            let ghost moved = self@;
            let slot = slots.pop();
            proof {
                assert(remaining.drop_last() =~= slots@);
                assert(slots@ =~= source.subrange(0, slots@.len() as int));
                assert(remaining.last() == source[slots@.len() as int]);
            }
            match slot {
                Some(Slot::Full(entry)) => {
                    proof {
                        assert(origin[entry.key@] == slots@.len());
                        assert(!moved.dom().contains(entry.key@));
                        assert(self@.dom() =~= self.index@.dom());
                    }
                    match self.find_slot(entry.key.as_str()) {
                        Probe::Vacant(at) => {
                            self.fill(at, entry);
                        },
                        Probe::Found(_) => {
                            assert(false);
                        },
                        Probe::Exhausted => {
                            proof {
                                lemma_count_all_full(self.inner@);
                            }
                            assert(false);
                        },
                    }
                    assert(self@ =~= Map::new(
                        |key: Seq<char>| origin.dom().contains(key) && origin[key] >= slots@.len(),
                        |key: Seq<char>| content[key],
                    ));
                },
                _ => {
                    assert(self@ =~= Map::new(
                        |key: Seq<char>| origin.dom().contains(key) && origin[key] >= slots@.len(),
                        |key: Seq<char>| content[key],
                    ));
                },
            }
        }
        assert(self@ =~= content);
        proof {
            assert(count_full(slots@) == 0);
        }
    }

    /// Maps `key` to `value`.
    ///
    /// An entry for the key is overwritten. A new key goes into the first slot of
    /// its probe sequence that holds no entry; if that leaves the table more than
    /// 66% full, the table then grows to twice as many slots as it has entries.
    /// The table is left as it was, with an error, where it has no slot at all,
    /// or where the new number of slots would not fit in a `usize`.
    pub fn insert(&mut self, key: &str, value: &str) -> (done: Result<(), IndexExhausted>)
        requires
            old(self).wf(),
        ensures
            final(self).wf(),
            !exceeds_occupancy(final(self).spec_len(), final(self).spec_capacity()),
            done is Err <==> old(self).spec_capacity() == 0 || (!old(self)@.dom().contains(key@)
                && exceeds_occupancy(old(self).spec_len() + 1, old(self).spec_capacity())
                && 2 * (old(self).spec_len() + 1) > usize::MAX),
            match done {
                Ok(_) => {
                    &&& final(self)@ == old(self)@.insert(key@, value@)
                    &&& final(self).spec_capacity() == old(self).spec_capacity() ==> old(self).keeps_slots_in(final(self))
                    &&& final(self).spec_capacity() == old(self).spec_capacity() && !old(self)@.dom().contains(key@) ==> old(self).first_free(
                        key@,
                        final(self).slot_of(key@),
                    )
                    &&& final(self).spec_len() == if old(self)@.dom().contains(key@) {
                        old(self).spec_len()
                    } else {
                        old(self).spec_len() + 1
                    }
                    &&& final(self).spec_capacity() == if !old(self)@.dom().contains(key@)
                        && exceeds_occupancy(
                        old(self).spec_len() + 1,
                        old(self).spec_capacity(),
                    ) {
                        2 * (old(self).spec_len() + 1)
                    } else {
                        old(self).spec_capacity()
                    }
                },
                Err(_) => {
                    &&& final(self)@ == old(self)@
                    &&& old(self).keeps_slots_in(final(self))
                    &&& final(self).spec_len() == old(self).spec_len()
                    &&& final(self).spec_capacity() == old(self).spec_capacity()
                },
            },
    {
        proof {
            assert(self@.dom() =~= self.index@.dom());
            lemma_count_bound(self.inner@);
        }
        let len = self.inner.len();
        match self.find_slot(key) {
            Probe::Found(idx) => {
                let ghost before = self.inner@;
                let entry = HashtableEntry { key: key.to_owned(), value: value.to_owned() };
                proof {
                    lemma_count_update(before, idx as int, Slot::Full(entry));
                }
                self.inner.set(idx, Slot::Full(entry));
                proof {
                    let slots = self.inner@;
                    let index = self.index@;
                    let capacity = slots.len() as int;
                    assert forall|other: Seq<char>, offset: int|
                        index.dom().contains(other) && 0 <= offset < distance(
                            home_slot(other, capacity),
                            index[other],
                            capacity,
                        ) implies !((#[trigger] slots[probe(
                        home_slot(other, capacity),
                        offset,
                        capacity,
                    )]) is Empty) by {
                        let passed = probe(home_slot(other, capacity), offset, capacity);
                        if passed != idx {
                            assert(!(before[passed] is Empty));
                        }
                    }
                    assert forall|i: int| 0 <= i < capacity && (#[trigger] slots[i]) is Full implies index.dom().contains(
                        slot_key(slots[i]),
                    ) && index[slot_key(slots[i])] == i by {
                        if i != idx {
                            assert(before[i] is Full);
                        }
                    }
                    assert(self@ =~= old(self)@.insert(key@, value@));
                }
                Ok(())
            },
            Probe::Exhausted => {
                proof {
                    if len > 0 {
                        lemma_count_all_full(self.inner@);
                    }
                }
                Err(IndexExhausted)
            },
            Probe::Vacant(at) => {
                let new_size = self.size + 1;
                let grows = (new_size as u128) * 100 > (len as u128) * 66;
                if grows && new_size > usize::MAX / 2 {
                    return Err(IndexExhausted);
                }
                let entry = HashtableEntry { key: key.to_owned(), value: value.to_owned() };
                self.fill(at, entry);
                if grows {
                    self.rehash(new_size * 2);
                }
                Ok(())
            },
        }
    }

    /// Removes `key` and returns the value it had, if the table held it. The
    /// slot keeps a marker, so that no other key is lost from its probe sequence.
    pub fn delete(&mut self, key: &str) -> (removed: Option<String>)
        requires
            old(self).wf(),
        ensures
            final(self).wf(),
            final(self)@ == old(self)@.remove(key@),
            final(self).spec_capacity() == old(self).spec_capacity(),
            final(self).keeps_slots_in(old(self)),
            match removed {
                Some(text) => old(self)@.dom().contains(key@) && old(self)@[key@] == text@
                    && final(self).spec_len() + 1 == old(self).spec_len() && !final(self).occupied(old(self).slot_of(key@)) && !final(self).unused(
                    old(self).slot_of(key@),
                ),
                None => !old(self)@.dom().contains(key@) && final(self).spec_len() == old(self).spec_len(),
            },
    {
        proof {
            assert(self@.dom() =~= self.index@.dom());
        }
        match self.find_slot(key) {
            Probe::Found(idx) => {
                let ghost before = self.inner@;
                let mut slot = Slot::Deleted;
                proof {
                    lemma_count_update(before, idx as int, Slot::Deleted);
                }
                self.inner.set_and_swap(idx, &mut slot);
                self.size = self.size - 1;
                self.index = Ghost(self.index@.remove(key@));
                proof {
                    let slots = self.inner@;
                    let index = self.index@;
                    let capacity = slots.len() as int;
                    assert forall|other: Seq<char>| #[trigger] index.dom().contains(other) implies 0
                        <= index[other] < capacity && slots[index[other]] is Full && slot_key(
                        slots[index[other]],
                    ) == other by {
                        assert(old(self).index@.dom().contains(other));
                    }
                    assert forall|i: int| 0 <= i < capacity && (#[trigger] slots[i]) is Full implies index.dom().contains(
                        slot_key(slots[i]),
                    ) && index[slot_key(slots[i])] == i by {
                        assert(before[i] is Full);
                    }
                    assert forall|other: Seq<char>, offset: int|
                        index.dom().contains(other) && 0 <= offset < distance(
                            home_slot(other, capacity),
                            index[other],
                            capacity,
                        ) implies !((#[trigger] slots[probe(
                        home_slot(other, capacity),
                        offset,
                        capacity,
                    )]) is Empty) by {
                        let passed = probe(home_slot(other, capacity), offset, capacity);
                        assert(old(self).index@.dom().contains(other));
                        if passed != idx {
                            assert(!(before[passed] is Empty));
                        }
                    }
                    assert(self@ =~= old(self)@.remove(key@));
                }
                match slot {
                    Slot::Full(entry) => Some(entry.value),
                    _ => None,
                }
            },
            _ => {
                assert(self@ =~= old(self)@.remove(key@));
                None
            },
        }
    }

    /// The value of `key`, if the table holds it.
    pub fn get(&self, key: &str) -> (value: Option<&str>)
        requires
            self.wf(),
        ensures
            match value {
                Some(text) => self@.dom().contains(key@) && self@[key@] == text@,
                None => !self@.dom().contains(key@),
            },
    {
        match self.find_slot(key) {
            Probe::Found(idx) => {
                match &self.inner[idx] {
                    Slot::Full(entry) => Some(entry.value.as_str()),
                    _ => None,
                }
            },
            _ => None,
        }
    }
}

} // verus!
