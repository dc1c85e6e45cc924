//! The mapping that an index stands for, and what a sequence of updates does to
//! it. Both indexes have a `Map` from keys to values as their view; the laws
//! here hold of any such mapping.

use vstd::prelude::*;

verus! {

/// One update of a mapping.
pub enum Update {
    /// Map the key to the value.
    Insert { key: Seq<char>, value: Seq<char> },
    /// Remove the key.
    Delete { key: Seq<char> },
}

impl Update {
    /// The key that the update is about.
    pub open spec fn key(self) -> Seq<char> {
        match self {
            Update::Insert { key, .. } => key,
            Update::Delete { key } => key,
        }
    }

    /// The mapping after the update.
    pub open spec fn apply(self, map: Map<Seq<char>, Seq<char>>) -> Map<Seq<char>, Seq<char>> {
        match self {
            Update::Insert { key, value } => map.insert(key, value),
            Update::Delete { key } => map.remove(key),
        }
    }
}

/// The mapping after a sequence of updates, applied in order.
pub open spec fn apply_all(map: Map<Seq<char>, Seq<char>>, updates: Seq<Update>) -> Map<
    Seq<char>,
    Seq<char>,
>
    decreases updates.len(),
{
    if updates.len() == 0 {
        map
    } else {
        updates.last().apply(apply_all(map, updates.drop_last()))
    }
}

/// Updates of other keys leave a key as it is.
pub proof fn lemma_untouched(
    map: Map<Seq<char>, Seq<char>>,
    updates: Seq<Update>,
    key: Seq<char>,
)
    requires
        forall|i: int| 0 <= i < updates.len() ==> (#[trigger] updates[i]).key() != key,
    ensures
        apply_all(map, updates).dom().contains(key) == map.dom().contains(key),
        map.dom().contains(key) ==> apply_all(map, updates)[key] == map[key],
    decreases updates.len(),
{
    if updates.len() > 0 {
        lemma_untouched(map, updates.drop_last(), key);
    }
}

/// A key that was inserted has its value until it is inserted or deleted again:
/// after any updates of other keys, the key still maps to the value.
pub proof fn lemma_inserted_stays(
    map: Map<Seq<char>, Seq<char>>,
    key: Seq<char>,
    value: Seq<char>,
    later: Seq<Update>,
)
    requires
        forall|i: int| 0 <= i < later.len() ==> (#[trigger] later[i]).key() != key,
    ensures
        apply_all(map.insert(key, value), later).dom().contains(key),
        apply_all(map.insert(key, value), later)[key] == value,
{
    lemma_untouched(map.insert(key, value), later, key);
}

/// A key that was deleted is absent until it is inserted again: after any
/// updates of other keys, the mapping still lacks the key.
pub proof fn lemma_deleted_stays_absent(
    map: Map<Seq<char>, Seq<char>>,
    key: Seq<char>,
    later: Seq<Update>,
)
    requires
        forall|i: int| 0 <= i < later.len() ==> (#[trigger] later[i]).key() != key,
    ensures
        !apply_all(map.remove(key), later).dom().contains(key),
{
    lemma_untouched(map.remove(key), later, key);
}

} // verus!
