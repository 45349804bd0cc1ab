//! A small table keyed by strings, kept in the order of its keys.

use crate::text::{
    lemma_precedes_irreflexive, lemma_precedes_total, lemma_precedes_transitive, precedes, str_lt,
};
use vstd::prelude::*;

verus! {

/// One key of a table, with what it is bound to.
#[derive(Debug)]
pub struct Slot<V> {
    pub key: String,
    pub value: V,
}

/// A table from strings to values of `V`.  Its keys stand in their order, so
/// that none stands twice.
#[derive(Debug)]
pub struct Assoc<V> {
    slots: Vec<Slot<V>>,
}

/// Whether each key of `slots` stands before the keys after it.
spec fn sorted<V>(slots: Seq<Slot<V>>) -> bool {
    forall|i: int, j: int|
        0 <= i < j < slots.len() ==> precedes((#[trigger] slots[i]).key@, (#[trigger] slots[j]).key@)
}

/// Whether the slot at `i` is one of `key`.
spec fn binds<V>(slots: Seq<Slot<V>>, i: int, key: Seq<char>) -> bool {
    0 <= i < slots.len() && slots[i].key@ == key
}

/// Whether `at` is where `key` stands or would stand in `slots`: the keys
/// before `at` stand before `key`, and the others do not.
spec fn parts<V>(slots: Seq<Slot<V>>, at: int, key: Seq<char>) -> bool {
    &&& 0 <= at <= slots.len()
    &&& forall|i: int| 0 <= i < at ==> precedes((#[trigger] slots[i]).key@, key)
    &&& forall|i: int| at <= i < slots.len() ==> !precedes((#[trigger] slots[i]).key@, key)
}

/// The map that `slots` stand for.
spec fn map_of<V>(slots: Seq<Slot<V>>) -> Map<Seq<char>, V> {
    Map::new(
        |key: Seq<char>| exists|i: int| binds(slots, i, key),
        |key: Seq<char>| slots[choose|i: int| binds(slots, i, key)].value,
    )
}

/// A key stands in one slot at most.
proof fn lemma_binds_once<V>(slots: Seq<Slot<V>>, i: int, j: int, key: Seq<char>)
    requires
        sorted(slots),
        binds(slots, i, key),
        binds(slots, j, key),
    ensures
        i == j,
{
    lemma_precedes_irreflexive(key);
}

/// A slot of a key gives the key's value.
proof fn lemma_map_of<V>(slots: Seq<Slot<V>>, i: int)
    requires
        sorted(slots),
        0 <= i < slots.len(),
    ensures
        map_of(slots).contains_key(slots[i].key@),
        map_of(slots)[slots[i].key@] == slots[i].value,
{
    let key = slots[i].key@;
    assert(binds(slots, i, key));
    lemma_binds_once(slots, i, choose|j: int| binds(slots, j, key), key);
}

/// A key stands nowhere but where it would stand.
proof fn lemma_parts<V>(slots: Seq<Slot<V>>, at: int, key: Seq<char>, i: int)
    requires
        sorted(slots),
        parts(slots, at, key),
        binds(slots, i, key),
    ensures
        i == at,
{
    lemma_precedes_irreflexive(key);
    if i < at {
        assert(precedes(slots[i].key@, key));
    } else if at < i {
        assert(precedes(slots[at].key@, slots[i].key@));
        assert(!precedes(slots[at].key@, key));
    }
}

/// To bind `key` where it would stand, in place of the slot there if that
/// is one of `key`, and before it if not, keeps the order and binds `key`
/// in the map.
proof fn lemma_bind<V>(before: Seq<Slot<V>>, after: Seq<Slot<V>>, at: int, slot: Slot<V>)
    requires
        sorted(before),
        parts(before, at, slot.key@),
        after == if binds(before, at, slot.key@) {
            before.update(at, slot)
        } else {
            before.insert(at, slot)
        },
    ensures
        sorted(after),
        map_of(after) == map_of(before).insert(slot.key@, slot.value),
{
    let key = slot.key@;
    let kept = binds(before, at, key);
    let shift = |i: int|
        if kept || i < at {
            i
        } else {
            i + 1
        };
    assert(after[at] == slot);
    assert(forall|i: int|
        0 <= i < before.len() && !(kept && i == at) ==> after[#[trigger] shift(i)] == before[i]);
    assert forall|i: int, j: int| 0 <= i < j < after.len() implies precedes(
        (#[trigger] after[i]).key@,
        (#[trigger] after[j]).key@,
    ) by {
        let a = if kept || i <= at {
            i
        } else {
            i - 1
        };
        let b = if kept || j <= at {
            j
        } else {
            j - 1
        };
        if i == at {
            if kept {
                assert(precedes(before[at].key@, before[b].key@));
            } else {
                assert(after[j] == before[b]);
                assert(!precedes(before[b].key@, key));
                lemma_precedes_total(key, before[b].key@);
                if before[b].key@ == key {
                    assert(b > at);
                    assert(precedes(before[at].key@, before[b].key@));
                }
            }
        } else if j == at {
            assert(after[i] == before[a]);
            assert(precedes(before[a].key@, key));
        } else {
            assert(after[i] == before[a]);
            assert(after[j] == before[b]);
            assert(precedes(before[a].key@, before[b].key@));
        }
    }
    let old_map = map_of(before).insert(key, slot.value);
    assert forall|k: Seq<char>| #[trigger] map_of(after).contains_key(k) == old_map.contains_key(
        k,
    ) by {
        if map_of(after).contains_key(k) {
            let i = choose|i: int| binds(after, i, k);
            if i != at {
                let a = if kept || i <= at {
                    i
                } else {
                    i - 1
                };
                assert(after[i] == before[a]);
                assert(binds(before, a, k));
            }
        }
        if old_map.contains_key(k) {
            if k == key {
                assert(binds(after, at, k));
            } else {
                let a = choose|a: int| binds(before, a, k);
                assert(binds(after, shift(a), k));
            }
        }
    }
    assert forall|k: Seq<char>| #[trigger] map_of(after).contains_key(k) implies map_of(after)[k]
        == old_map[k] by {
        let i = choose|i: int| binds(after, i, k);
        if k == key {
            assert(binds(after, at, k));
            lemma_binds_once(after, i, at, k);
        } else {
            let a = if kept || i <= at {
                i
            } else {
                i - 1
            };
            assert(after[i] == before[a]);
            assert(binds(before, a, k));
            lemma_binds_once(before, a, choose|b: int| binds(before, b, k), k);
        }
    }
    assert(map_of(after) =~= old_map);
}

impl<V> Assoc<V> {
    /// The keys stand in their order.
    #[verifier::type_invariant]
    closed spec fn in_order(self) -> bool {
        sorted(self.slots@)
    }

    /// The table as a map from the characters of each key to its value.
    pub closed spec fn view(self) -> Map<Seq<char>, V> {
        map_of(self.slots@)
    }

    /// An empty table.
    pub fn new() -> (table: Self)
        ensures
            table@ == Map::<Seq<char>, V>::empty(),
    {
        let table = Assoc { slots: Vec::new() };
        assert(table@ =~= Map::<Seq<char>, V>::empty());
        table
    }

    /// Where `key` stands or would stand.
    fn position(&self, key: &str) -> (at: usize)
        ensures
            parts(self.slots@, at as int, key@),
    {
        proof {
            use_type_invariant(self);
        }
        let mut low: usize = 0;
        let mut high: usize = self.slots.len();
        while low < high
            invariant
                low <= high <= self.slots@.len(),
                sorted(self.slots@),
                forall|i: int| 0 <= i < low ==> precedes((#[trigger] self.slots@[i]).key@, key@),
                forall|i: int|
                    high <= i < self.slots@.len() ==> !precedes(
                        (#[trigger] self.slots@[i]).key@,
                        key@,
                    ),
            decreases high - low,
        {
            let mid = low + (high - low) / 2;
            let ghost middle = self.slots@[mid as int].key@;
            if str_lt(self.slots[mid].key.as_str(), key) {
                assert forall|i: int| 0 <= i < mid + 1 implies precedes(
                    (#[trigger] self.slots@[i]).key@,
                    key@,
                ) by {
                    if i < mid {
                        lemma_precedes_transitive(self.slots@[i].key@, middle, key@);
                    }
                }
                low = mid + 1;
            } else {
                assert forall|i: int| mid <= i < self.slots@.len() implies !precedes(
                    (#[trigger] self.slots@[i]).key@,
                    key@,
                ) by {
                    if mid < i && precedes(self.slots@[i].key@, key@) {
                        lemma_precedes_transitive(middle, self.slots@[i].key@, key@);
                    }
                }
                high = mid;
            }
        }
        low
    }

    /// What `key` is bound to, if it is bound.
    pub fn get(&self, key: &str) -> (value: Option<&V>)
        ensures
            value == if self@.contains_key(key@) {
                Some(&self@[key@])
            } else {
                None
            },
    {
        proof {
            use_type_invariant(self);
        }
        let at = self.position(key);
        if at < self.slots.len() && self.slots[at].key.as_str().eq(key) {
            proof {
                lemma_map_of(self.slots@, at as int);
            }
            Some(&self.slots[at].value)
        } else {
            proof {
                if self@.contains_key(key@) {
                    let i = choose|i: int| binds(self.slots@, i, key@);
                    lemma_parts(self.slots@, at as int, key@, i);
                }
            }
            None
        }
    }

    /// Binds `key` to `value`, in place of what it was bound to before.
    pub fn insert(&mut self, key: String, value: V)
        ensures
            final(self)@ == old(self)@.insert(key@, value),
    {
        proof {
            use_type_invariant(&*self);
        }
        let at = self.position(key.as_str());
        let kept = at < self.slots.len() && self.slots[at].key.as_str().eq(key.as_str());
        let slot = Slot { key, value };
        let mut slots: Vec<Slot<V>> = Vec::new();
        std::mem::swap(&mut slots, &mut self.slots);
        let ghost before = slots@;
        if kept {
            slots[at] = slot;
        } else {
            slots.insert(at, slot);
        }
        proof {
            lemma_bind(before, slots@, at as int, slot);
        }
        self.slots = slots;
    }
}

impl<V: Clone> Clone for Assoc<V> {
    /// A table with the same keys, each bound to a clone of its value.
    fn clone(&self) -> (copy: Self)
        ensures
            copy@.dom() == self@.dom(),
            forall|key: Seq<char>| #[trigger]
                self@.contains_key(key) ==> cloned::<V>(self@[key], copy@[key]),
    {
        proof {
            use_type_invariant(self);
        }
        let mut slots: Vec<Slot<V>> = Vec::new();
        let mut i: usize = 0;
        while i < self.slots.len()
            invariant
                i <= self.slots@.len(),
                slots@.len() == i,
                forall|k: int|
                    0 <= k < i ==> (#[trigger] slots@[k]).key@ == self.slots@[k].key@
                        && cloned::<V>(self.slots@[k].value, slots@[k].value),
            decreases self.slots@.len() - i,
        {
            let slot = &self.slots[i];
            slots.push(Slot { key: slot.key.clone(), value: slot.value.clone() });
            i += 1;
        }
        proof {
            assert forall|i: int, j: int| 0 <= i < j < slots@.len() implies precedes(
                (#[trigger] slots@[i]).key@,
                (#[trigger] slots@[j]).key@,
            ) by {
                assert(precedes(self.slots@[i].key@, self.slots@[j].key@));
            }
        }
        let copy = Assoc { slots };
        proof {
            assert forall|key: Seq<char>| copy@.contains_key(key) == self@.contains_key(key) by {
                if copy@.contains_key(key) {
                    let i = choose|i: int| binds(copy.slots@, i, key);
                    assert(binds(self.slots@, i, key));
                }
                if self@.contains_key(key) {
                    let i = choose|i: int| binds(self.slots@, i, key);
                    assert(binds(copy.slots@, i, key));
                }
            }
            assert(copy@.dom() =~= self@.dom());
            assert forall|key: Seq<char>| #[trigger] self@.contains_key(key) implies cloned::<V>(
                self@[key],
                copy@[key],
            ) by {
                let i = choose|i: int| binds(self.slots@, i, key);
                assert(binds(copy.slots@, i, key));
                lemma_binds_once(copy.slots@, i, choose|j: int| binds(copy.slots@, j, key), key);
            }
        }
        copy
    }
}

} // verus!
