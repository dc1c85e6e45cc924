//! A sorted array: entries kept in strictly ascending key order, found by binary
//! search, with range scans over neighbouring entries.

use crate::text::{
    compare_keys, key_le, key_lt, lemma_key_order_total, lemma_key_order_transitive, KeyOrder,
};
use vstd::prelude::*;

verus! {

/// A key with its value.
#[derive(Debug, PartialEq, Eq, Clone)]
pub struct SortedArrayEntry {
    key: String,
    value: String,
}

/// An index whose entries are kept in ascending key order.
#[derive(Debug)]
pub struct SortedArray {
    inner: Vec<SortedArrayEntry>,
}

/// Whether the keys of the entries ascend strictly: each key comes before every
/// later one, so no key occurs twice.
pub open spec fn strictly_ascending(entries: Seq<(Seq<char>, Seq<char>)>) -> bool {
    forall|i: int, j: int|
        0 <= i < j < entries.len() ==> key_lt((#[trigger] entries[i]).0, (#[trigger] entries[j]).0)
}

/// Whether some entry has the key.
pub open spec fn has_key(entries: Seq<(Seq<char>, Seq<char>)>, key: Seq<char>) -> bool {
    exists|i: int| 0 <= i < entries.len() && (#[trigger] entries[i]).0 == key
}

/// The position of an entry with the key.
pub open spec fn index_of(entries: Seq<(Seq<char>, Seq<char>)>, key: Seq<char>) -> int {
    choose|i: int| 0 <= i < entries.len() && (#[trigger] entries[i]).0 == key
}

/// The mapping that the entries stand for.
pub open spec fn as_map(entries: Seq<(Seq<char>, Seq<char>)>) -> Map<Seq<char>, Seq<char>> {
    Map::new(
        |key: Seq<char>| has_key(entries, key),
        |key: Seq<char>| entries[index_of(entries, key)].1,
    )
}

/// The number of entries whose key comes before `key`: the position at which
/// `key` stands, or would have to stand, in ascending entries.
pub open spec fn rank(entries: Seq<(Seq<char>, Seq<char>)>, key: Seq<char>) -> int
    decreases entries.len(),
{
    if entries.len() == 0 {
        0
    } else {
        rank(entries.drop_last(), key) + if key_lt(entries.last().0, key) {
            1int
        } else {
            0int
        }
    }
}

/// The entries after `key` was mapped to `value`: the entry of the key is
/// overwritten where there is one, and a new entry is put at the rank of the key
/// where there is none.
pub open spec fn with_entry(
    entries: Seq<(Seq<char>, Seq<char>)>,
    key: Seq<char>,
    value: Seq<char>,
) -> Seq<(Seq<char>, Seq<char>)> {
    if has_key(entries, key) {
        entries.update(index_of(entries, key), (key, value))
    } else {
        entries.insert(rank(entries, key), (key, value))
    }
}

/// The entries after `key` was removed.
pub open spec fn without_key(entries: Seq<(Seq<char>, Seq<char>)>, key: Seq<char>) -> Seq<
    (Seq<char>, Seq<char>),
> {
    if has_key(entries, key) {
        entries.remove(index_of(entries, key))
    } else {
        entries
    }
}

/// The rank of a key is the position before which all keys come before it and
/// from which on none does.
proof fn lemma_rank(entries: Seq<(Seq<char>, Seq<char>)>, key: Seq<char>, at: int)
    requires
        0 <= at <= entries.len(),
        forall|i: int| 0 <= i < at ==> key_lt((#[trigger] entries[i]).0, key),
        forall|i: int| at <= i < entries.len() ==> !key_lt((#[trigger] entries[i]).0, key),
    ensures
        rank(entries, key) == at,
    decreases entries.len(),
{
    if entries.len() > 0 {
        let init = entries.drop_last();
        let last = entries.len() - 1;
        assert(entries.last() == entries[last]);
        assert forall|i: int| 0 <= i < init.len() implies init[i] == entries[i] by {}
        if at == entries.len() {
            assert forall|i: int| 0 <= i < at - 1 implies key_lt((#[trigger] init[i]).0, key) by {
                assert(init[i] == entries[i]);
            }
            lemma_rank(init, key, at - 1);
        } else {
            assert forall|i: int| 0 <= i < at implies key_lt((#[trigger] init[i]).0, key) by {
                assert(init[i] == entries[i]);
            }
            assert forall|i: int| at <= i < init.len() implies !key_lt(
                (#[trigger] init[i]).0,
                key,
            ) by {
                assert(init[i] == entries[i]);
            }
            lemma_rank(init, key, at);
        }
    }
}

/// Whether `key` lies in the closed interval from `low` to `high`.
pub open spec fn in_range(key: Seq<char>, low: Seq<char>, high: Seq<char>) -> bool {
    key_le(low, key) && key_le(key, high)
}

/// The values of the entries whose keys lie between `low` and `high`, both
/// included, in the order of the entries.
pub open spec fn values_in_range(
    entries: Seq<(Seq<char>, Seq<char>)>,
    low: Seq<char>,
    high: Seq<char>,
) -> Seq<Seq<char>>
    decreases entries.len(),
{
    if entries.len() == 0 {
        Seq::<Seq<char>>::empty()
    } else {
        let before = values_in_range(entries.drop_last(), low, high);
        if in_range(entries.last().0, low, high) {
            before.push(entries.last().1)
        } else {
            before
        }
    }
}

/// Ascending entries hold no key twice.
pub proof fn lemma_no_duplicates(entries: Seq<(Seq<char>, Seq<char>)>, i: int, j: int)
    requires
        strictly_ascending(entries),
        0 <= i < entries.len(),
        0 <= j < entries.len(),
        i != j,
    ensures
        entries[i].0 != entries[j].0,
{
    lemma_key_order_total(entries[i].0, entries[j].0);
    if i < j {
        assert(key_lt(entries[i].0, entries[j].0));
    } else {
        assert(key_lt(entries[j].0, entries[i].0));
    }
}

/// In ascending entries each key has one position, and the mapping gives the
/// key the value at that position.
pub proof fn lemma_entry_in_map(entries: Seq<(Seq<char>, Seq<char>)>, at: int)
    requires
        strictly_ascending(entries),
        0 <= at < entries.len(),
    ensures
        has_key(entries, entries[at].0),
        index_of(entries, entries[at].0) == at,
        as_map(entries).dom().contains(entries[at].0),
        as_map(entries)[entries[at].0] == entries[at].1,
{
    let key = entries[at].0;
    let chosen = index_of(entries, key);
    lemma_key_order_total(key, key);
    if chosen < at {
        assert(key_lt(entries[chosen].0, entries[at].0));
    } else if at < chosen {
        assert(key_lt(entries[at].0, entries[chosen].0));
    }
}

/// Overwriting the value at a position keeps the order and maps the key of that
/// position to the new value.
proof fn lemma_overwrite(entries: Seq<(Seq<char>, Seq<char>)>, at: int, value: Seq<char>)
    requires
        strictly_ascending(entries),
        0 <= at < entries.len(),
    ensures
        strictly_ascending(entries.update(at, (entries[at].0, value))),
        as_map(entries.update(at, (entries[at].0, value))) == as_map(entries).insert(
            entries[at].0,
            value,
        ),
{
    let key = entries[at].0;
    let after = entries.update(at, (key, value));
    assert forall|i: int, j: int| 0 <= i < j < after.len() implies key_lt(
        (#[trigger] after[i]).0,
        (#[trigger] after[j]).0,
    ) by {
        assert(after[i].0 == entries[i].0);
        assert(after[j].0 == entries[j].0);
    }
    let target = as_map(entries).insert(key, value);
    assert forall|other: Seq<char>| as_map(after).dom().contains(other) == target.dom().contains(
        other,
    ) by {
        if has_key(after, other) {
            let i = index_of(after, other);
            assert(entries[i].0 == other);
        }
        if has_key(entries, other) {
            let i = index_of(entries, other);
            assert(after[i].0 == other);
        }
        if other == key {
            assert(after[at].0 == other);
        }
    }
    assert forall|other: Seq<char>| as_map(after).dom().contains(other) implies as_map(after)[other]
        == target[other] by {
        assert(has_key(after, other));
        let i = index_of(after, other);
        assert(after[i].0 == other);
        lemma_entry_in_map(after, i);
        lemma_entry_in_map(after, at);
        lemma_entry_in_map(entries, i);
        assert(entries[i].0 == other);
    }
    assert(as_map(after) =~= target);
}

/// Putting a new key at the position that the order asks for keeps the order
/// and adds the key with its value to the mapping.
proof fn lemma_insert_new(
    entries: Seq<(Seq<char>, Seq<char>)>,
    at: int,
    key: Seq<char>,
    value: Seq<char>,
)
    requires
        strictly_ascending(entries),
        0 <= at <= entries.len(),
        forall|i: int| 0 <= i < at ==> key_lt((#[trigger] entries[i]).0, key),
        forall|i: int| at <= i < entries.len() ==> key_lt(key, (#[trigger] entries[i]).0),
    ensures
        strictly_ascending(entries.insert(at, (key, value))),
        as_map(entries.insert(at, (key, value))) == as_map(entries).insert(key, value),
{
    let after = entries.insert(at, (key, value));
    assert forall|i: int, j: int| 0 <= i < j < after.len() implies key_lt(
        (#[trigger] after[i]).0,
        (#[trigger] after[j]).0,
    ) by {
        if j < at {
            assert(after[i] == entries[i] && after[j] == entries[j]);
        } else if j == at {
            assert(after[i] == entries[i]);
        } else if i < at {
            assert(after[i] == entries[i] && after[j] == entries[j - 1]);
        } else if i == at {
            assert(after[j] == entries[j - 1]);
        } else {
            assert(after[i] == entries[i - 1] && after[j] == entries[j - 1]);
        }
    }
    let target = as_map(entries).insert(key, value);
    assert forall|other: Seq<char>| as_map(after).dom().contains(other) == target.dom().contains(
        other,
    ) by {
        if has_key(after, other) {
            let i = index_of(after, other);
            if i < at {
                assert(entries[i].0 == other);
            } else if i > at {
                assert(entries[i - 1].0 == other);
            }
        }
        if has_key(entries, other) {
            let i = index_of(entries, other);
            if i < at {
                assert(after[i].0 == other);
            } else {
                assert(after[i + 1].0 == other);
            }
        }
        if other == key {
            assert(after[at].0 == other);
        }
    }
    assert forall|other: Seq<char>| as_map(after).dom().contains(other) implies as_map(after)[other]
        == target[other] by {
        assert(has_key(after, other));
        let i = index_of(after, other);
        assert(after[i].0 == other);
        lemma_entry_in_map(after, i);
        lemma_entry_in_map(after, at);
        if i < at {
            lemma_entry_in_map(entries, i);
            assert(entries[i] == after[i]);
        } else if i > at {
            lemma_entry_in_map(entries, i - 1);
            assert(entries[i - 1] == after[i]);
        }
    }
    assert(as_map(after) =~= target);
}

/// Taking out the entry at a position keeps the order and removes its key from
/// the mapping.
proof fn lemma_remove(entries: Seq<(Seq<char>, Seq<char>)>, at: int)
    requires
        strictly_ascending(entries),
        0 <= at < entries.len(),
    ensures
        strictly_ascending(entries.remove(at)),
        as_map(entries.remove(at)) == as_map(entries).remove(entries[at].0),
{
    let key = entries[at].0;
    let after = entries.remove(at);
    assert forall|i: int, j: int| 0 <= i < j < after.len() implies key_lt(
        (#[trigger] after[i]).0,
        (#[trigger] after[j]).0,
    ) by {
        let from_i = if i < at {
            i
        } else {
            i + 1
        };
        let from_j = if j < at {
            j
        } else {
            j + 1
        };
        assert(after[i] == entries[from_i] && after[j] == entries[from_j]);
    }
    let target = as_map(entries).remove(key);
    assert forall|other: Seq<char>| as_map(after).dom().contains(other) == target.dom().contains(
        other,
    ) by {
        if has_key(after, other) {
            let i = index_of(after, other);
            let from = if i < at {
                i
            } else {
                i + 1
            };
            assert(entries[from].0 == other);
            lemma_entry_in_map(entries, from);
            lemma_entry_in_map(entries, at);
        }
        if has_key(entries, other) && other != key {
            let i = index_of(entries, other);
            if i < at {
                assert(after[i].0 == other);
            } else {
                assert(after[i - 1].0 == other);
            }
        }
    }
    assert forall|other: Seq<char>| as_map(after).dom().contains(other) implies as_map(after)[other]
        == target[other] by {
        assert(has_key(after, other));
        let i = index_of(after, other);
        assert(after[i].0 == other);
        lemma_entry_in_map(after, i);
        lemma_entry_in_map(entries, at);
        if i < at {
            lemma_entry_in_map(entries, i);
            assert(entries[i] == after[i]);
        } else {
            lemma_entry_in_map(entries, i + 1);
            assert(entries[i + 1] == after[i]);
        }
    }
    assert(as_map(after) =~= target);
}

/// Values in range: a concatenation is scanned part by part.
proof fn lemma_range_concat(
    a: Seq<(Seq<char>, Seq<char>)>,
    b: Seq<(Seq<char>, Seq<char>)>,
    low: Seq<char>,
    high: Seq<char>,
)
    ensures
        values_in_range(a + b, low, high) == values_in_range(a, low, high) + values_in_range(
            b,
            low,
            high,
        ),
    decreases b.len(),
{
    if b.len() == 0 {
        assert(a + b =~= a);
        assert(values_in_range(a, low, high) + values_in_range(b, low, high) =~= values_in_range(
            a,
            low,
            high,
        ));
    } else {
        lemma_range_concat(a, b.drop_last(), low, high);
        assert((a + b).drop_last() =~= a + b.drop_last());
        assert((a + b).last() == b.last());
        assert(values_in_range(a + b, low, high) =~= values_in_range(a, low, high)
            + values_in_range(b, low, high));
    }
}

/// Values in range: entries that are all out of range give nothing.
proof fn lemma_range_none(entries: Seq<(Seq<char>, Seq<char>)>, low: Seq<char>, high: Seq<char>)
    requires
        forall|i: int| 0 <= i < entries.len() ==> !in_range((#[trigger] entries[i]).0, low, high),
    ensures
        values_in_range(entries, low, high) == Seq::<Seq<char>>::empty(),
    decreases entries.len(),
{
    if entries.len() > 0 {
        let init = entries.drop_last();
        assert forall|i: int| 0 <= i < init.len() implies !in_range(
            (#[trigger] init[i]).0,
            low,
            high,
        ) by {
            assert(init[i] == entries[i]);
        }
        lemma_range_none(init, low, high);
        assert(entries.last() == entries[entries.len() - 1]);
    }
}

/// Values in range: entries that are all in range give all their values.
proof fn lemma_range_all(entries: Seq<(Seq<char>, Seq<char>)>, low: Seq<char>, high: Seq<char>)
    requires
        forall|i: int| 0 <= i < entries.len() ==> in_range((#[trigger] entries[i]).0, low, high),
    ensures
        values_in_range(entries, low, high) == entries.map_values(
            |entry: (Seq<char>, Seq<char>)| entry.1,
        ),
    decreases entries.len(),
{
    let values = entries.map_values(|entry: (Seq<char>, Seq<char>)| entry.1);
    if entries.len() == 0 {
        assert(values =~= Seq::<Seq<char>>::empty());
    } else {
        let init = entries.drop_last();
        assert forall|i: int| 0 <= i < init.len() implies in_range(
            (#[trigger] init[i]).0,
            low,
            high,
        ) by {
            assert(init[i] == entries[i]);
        }
        lemma_range_all(init, low, high);
        assert(entries.last() == entries[entries.len() - 1]);
        assert(values =~= init.map_values(|entry: (Seq<char>, Seq<char>)| entry.1).push(
            entries.last().1,
        ));
    }
}

/// A range whose bounds are the wrong way round holds no value.
pub proof fn lemma_inverted_range_empty(
    entries: Seq<(Seq<char>, Seq<char>)>,
    low: Seq<char>,
    high: Seq<char>,
)
    requires
        key_lt(high, low),
    ensures
        values_in_range(entries, low, high) == Seq::<Seq<char>>::empty(),
{
    assert forall|i: int| 0 <= i < entries.len() implies !in_range(
        (#[trigger] entries[i]).0,
        low,
        high,
    ) by {
        let key = entries[i].0;
        if in_range(key, low, high) {
            lemma_key_order_total(high, low);
            lemma_key_order_total(key, high);
            lemma_key_order_total(low, key);
            if key != high && key != low {
                lemma_key_order_transitive(low, key, high);
            }
        }
    }
    lemma_range_none(entries, low, high);
}

impl View for SortedArray {
    type V = Seq<(Seq<char>, Seq<char>)>;

    /// The entries, each as its key and its value, in the order in which the
    /// array holds them.
    closed spec fn view(&self) -> Seq<(Seq<char>, Seq<char>)> {
        self.inner@.map_values(|entry: SortedArrayEntry| (entry.key@, entry.value@))
    }
}

impl Default for SortedArray {
    /// An empty array.
    fn default() -> (array: SortedArray)
        ensures
            array@ == Seq::<(Seq<char>, Seq<char>)>::empty(),
            array.wf(),
    {
        let array = SortedArray { inner: Vec::new() };
        assert(array@ =~= Seq::<(Seq<char>, Seq<char>)>::empty());
        array
    }
}

impl SortedArray {
    /// The invariant of the array: its keys ascend strictly.
    pub open spec fn wf(&self) -> bool {
        strictly_ascending(self@)
    }

    /// The number of entries.
    pub fn len(&self) -> (len: usize)
        ensures
            len == self@.len(),
    {
        self.inner.len()
    }

    /// Searches for `key` by bisection: its position, or else the position at
    /// which it would have to stand.
    fn locate(&self, key: &str) -> (place: Result<usize, usize>)
        requires
            self.wf(),
        ensures
            match place {
                Ok(at) => at < self@.len() && self@[at as int].0 == key@,
                Err(at) => {
                    &&& at <= self@.len()
                    &&& forall|i: int| 0 <= i < at ==> key_lt((#[trigger] self@[i]).0, key@)
                    &&& forall|i: int|
                        at <= i < self@.len() ==> key_lt(key@, (#[trigger] self@[i]).0)
                },
            },
    {
        let mut left: usize = 0;
        let mut right: usize = self.inner.len();
        while left < right
            invariant
                self.wf(),
                left <= right <= self@.len(),
                self@.len() == self.inner@.len(),
                forall|i: int| 0 <= i < left ==> key_lt((#[trigger] self@[i]).0, key@),
                forall|i: int| right <= i < self@.len() ==> key_lt(key@, (#[trigger] self@[i]).0),
            decreases right - left,
        {
            let middle = left + (right - left) / 2;
            let entry = &self.inner[middle];
            assert(self@[middle as int].0 == entry.key@);
            match compare_keys(entry.key.as_str(), key) {
                KeyOrder::Same => {
                    return Ok(middle);
                },
                KeyOrder::Before => {
                    assert forall|i: int| 0 <= i < middle + 1 implies key_lt(
                        (#[trigger] self@[i]).0,
                        key@,
                    ) by {
                        if i < middle {
                            assert(key_lt(self@[i].0, self@[middle as int].0));
                            lemma_key_order_transitive(self@[i].0, self@[middle as int].0, key@);
                        }
                    }
                    left = middle + 1;
                },
                KeyOrder::After => {
                    assert forall|i: int| middle <= i < self@.len() implies key_lt(
                        key@,
                        (#[trigger] self@[i]).0,
                    ) by {
                        if middle < i {
                            assert(key_lt(self@[middle as int].0, self@[i].0));
                            lemma_key_order_transitive(key@, self@[middle as int].0, self@[i].0);
                        }
                    }
                    right = middle;
                },
            }
        }
        Err(left)
    }

    /// The position of `key`, if the array holds it.
    pub fn find_key(&self, key: &str) -> (found: Option<usize>)
        requires
            self.wf(),
        ensures
            match found {
                Some(at) => at < self@.len() && self@[at as int].0 == key@,
                None => !has_key(self@, key@),
            },
    {
        match self.locate(key) {
            Ok(at) => Some(at),
            Err(at) => {
                proof {
                    self.lemma_absent(key@, at as int);
                }
                None
            },
        }
    }

    /// A key is absent where all entries before some position come before it
    /// and all others after it.
    proof fn lemma_absent(&self, key: Seq<char>, at: int)
        requires
            0 <= at <= self@.len(),
            forall|i: int| 0 <= i < at ==> key_lt((#[trigger] self@[i]).0, key),
            forall|i: int| at <= i < self@.len() ==> key_lt(key, (#[trigger] self@[i]).0),
        ensures
            !has_key(self@, key),
    {
        lemma_key_order_total(key, key);
        assert forall|i: int| 0 <= i < self@.len() implies (#[trigger] self@[i]).0 != key by {
            if i < at {
                assert(key_lt(self@[i].0, key));
            } else {
                assert(key_lt(key, self@[i].0));
            }
        }
    }

    /// The value of `key`, if the array holds it.
    pub fn get(&self, key: &str) -> (value: Option<&str>)
        requires
            self.wf(),
        ensures
            match value {
                Some(text) => as_map(self@).dom().contains(key@) && as_map(self@)[key@] == text@,
                None => !as_map(self@).dom().contains(key@),
            },
    {
        match self.find_key(key) {
            Some(at) => {
                proof {
                    lemma_entry_in_map(self@, at as int);
                }
                Some(self.inner[at].value.as_str())
            },
            None => None,
        }
    }

    /// The values of the keys from `low` to `high`, both included, in ascending
    /// key order. The result is empty where `low` comes after `high`.
    pub fn get_range(&self, low: &str, high: &str) -> (values: Vec<&str>)
        requires
            self.wf(),
        ensures
            values@.map_values(|text: &str| text@) == values_in_range(self@, low@, high@),
    {
        let mut values: Vec<&str> = Vec::new();
        let start = match self.locate(low) {
            Ok(at) => at,
            Err(at) => at,
        };
        let ghost entries = self@;
        proof {
            lemma_key_order_total(low@, low@);
            assert forall|i: int| 0 <= i < start implies !in_range(
                (#[trigger] entries[i]).0,
                low@,
                high@,
            ) by {
                if i < start {
                    if start < entries.len() && entries[start as int].0 == low@ {
                        assert(key_lt(entries[i].0, entries[start as int].0));
                    }
                    lemma_key_order_total(low@, entries[i].0);
                }
            }
            assert(entries.subrange(0, start as int).len() == start);
            assert forall|i: int| 0 <= i < start implies !in_range(
                (#[trigger] entries.subrange(0, start as int)[i]).0,
                low@,
                high@,
            ) by {
                assert(entries.subrange(0, start as int)[i] == entries[i]);
            }
            lemma_range_none(entries.subrange(0, start as int), low@, high@);
            assert(entries.subrange(start as int, start as int) =~= Seq::<
                (Seq<char>, Seq<char>),
            >::empty());
            assert(values@.map_values(|text: &str| text@) =~= Seq::<Seq<char>>::empty());
        }
        let mut at: usize = start;
        while at < self.inner.len()
            invariant
                self.wf(),
                entries == self@,
                entries.len() == self.inner@.len(),
                start <= at <= entries.len(),
                forall|i: int| start <= i < entries.len() ==> key_le(low@, (#[trigger] entries[i]).0),
                forall|i: int| start <= i < at ==> in_range((#[trigger] entries[i]).0, low@, high@),
                values@.map_values(|text: &str| text@) == entries.subrange(
                    start as int,
                    at as int,
                ).map_values(|entry: (Seq<char>, Seq<char>)| entry.1),
                values_in_range(entries.subrange(0, start as int), low@, high@) == Seq::<
                    Seq<char>,
                >::empty(),
            decreases entries.len() - at,
        {
            let entry = &self.inner[at];
            assert(entries[at as int] == (entry.key@, entry.value@));
            match compare_keys(entry.key.as_str(), high) {
                KeyOrder::After => {
                    proof {
                        self.lemma_range_ends(low@, high@, start as int, at as int);
                    }
                    assert(values@.map_values(|text: &str| text@) == values_in_range(
                        self@,
                        low@,
                        high@,
                    ));
                    return values;
                },
                _ => {
                    let ghost before = values@.map_values(|text: &str| text@);
                    values.push(entry.value.as_str());
                    proof {
                        assert(values@.map_values(|text: &str| text@) =~= before.push(
                            entry.value@,
                        ));
                        assert(entries.subrange(start as int, at + 1).map_values(
                            |entry: (Seq<char>, Seq<char>)| entry.1,
                        ) =~= entries.subrange(start as int, at as int).map_values(
                            |entry: (Seq<char>, Seq<char>)| entry.1,
                        ).push(entries[at as int].1));
                    }
                },
            }
            at += 1;
        }
        proof {
            self.lemma_range_ends(low@, high@, start as int, at as int);
        }
        values
    }

    /// Maps `key` to `value`: overwrites the entry of the key, or puts a new entry
    /// where the order asks for it.
    pub fn insert(&mut self, key: &str, value: &str)
        requires
            old(self).wf(),
        ensures
            final(self).wf(),
            final(self)@ == with_entry(old(self)@, key@, value@),
            as_map(final(self)@) == as_map(old(self)@).insert(key@, value@),
    {
        let place = self.locate(key);
        let entry = SortedArrayEntry { key: key.to_owned(), value: value.to_owned() };
        let ghost before = self@;
        match place {
            Ok(at) => {
                self.inner.set(at, entry);
                proof {
                    assert(self@ =~= before.update(at as int, (key@, value@)));
                    lemma_entry_in_map(before, at as int);
                    lemma_overwrite(before, at as int, value@);
                }
            },
            Err(at) => {
                proof {
                    self.lemma_absent(key@, at as int);
                    assert forall|i: int| at <= i < before.len() implies !key_lt(
                        (#[trigger] before[i]).0,
                        key@,
                    ) by {
                        lemma_key_order_total(before[i].0, key@);
                    }
                    lemma_rank(before, key@, at as int);
                }
                self.inner.insert(at, entry);
                proof {
                    assert(self@ =~= before.insert(at as int, (key@, value@)));
                    lemma_insert_new(before, at as int, key@, value@);
                }
            },
        }
    }

    /// Removes `key` and returns the value it had, if the array held it.
    pub fn delete(&mut self, key: &str) -> (removed: Option<String>)
        requires
            old(self).wf(),
        ensures
            final(self).wf(),
            final(self)@ == without_key(old(self)@, key@),
            as_map(final(self)@) == as_map(old(self)@).remove(key@),
            match removed {
                Some(text) => as_map(old(self)@).dom().contains(key@) && as_map(old(self)@)[key@]
                    == text@,
                None => !as_map(old(self)@).dom().contains(key@),
            },
    {
        let ghost before = self@;
        match self.find_key(key) {
            Some(at) => {
                let entry = self.inner.remove(at);
                proof {
                    assert(self@ =~= before.remove(at as int));
                    lemma_entry_in_map(before, at as int);
                    lemma_remove(before, at as int);
                }
                Some(entry.value)
            },
            None => {
                assert(as_map(self@) =~= as_map(before).remove(key@));
                None
            },
        }
    }

    /// The values in range are those of the entries from `start` up to `end`,
    /// where the entries before `start` are out of range, those from `start` up
    /// to `end` are in range, and the entry at `end`, if there is one, comes
    /// after `high`.
    proof fn lemma_range_ends(&self, low: Seq<char>, high: Seq<char>, start: int, end: int)
        requires
            self.wf(),
            0 <= start <= end <= self@.len(),
            values_in_range(self@.subrange(0, start), low, high) == Seq::<Seq<char>>::empty(),
            forall|i: int| start <= i < end ==> in_range((#[trigger] self@[i]).0, low, high),
            end < self@.len() ==> key_lt(high, self@[end].0),
        ensures
            values_in_range(self@, low, high) == self@.subrange(start, end).map_values(
                |entry: (Seq<char>, Seq<char>)| entry.1,
            ),
    {
        let entries = self@;
        let head = entries.subrange(0, start);
        let middle = entries.subrange(start, end);
        let tail = entries.subrange(end, entries.len() as int);
        assert forall|i: int| 0 <= i < middle.len() implies in_range(
            (#[trigger] middle[i]).0,
            low,
            high,
        ) by {
            assert(middle[i] == entries[start + i]);
        }
        assert forall|i: int| 0 <= i < tail.len() implies !in_range(
            (#[trigger] tail[i]).0,
            low,
            high,
        ) by {
            let key = tail[i].0;
            assert(tail[i] == entries[end + i]);
            if i > 0 {
                assert(key_lt(entries[end].0, entries[end + i].0));
                lemma_key_order_transitive(high, entries[end].0, key);
            }
            lemma_key_order_total(key, high);
        }
        lemma_range_all(middle, low, high);
        lemma_range_none(tail, low, high);
        lemma_range_concat(head, middle, low, high);
        lemma_range_concat(head + middle, tail, low, high);
        assert(entries =~= head + middle + tail);
    }
}

} // verus!
