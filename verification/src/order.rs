use crate::primitives::{be_value, lemma_be_value_injective, H256};
use crate::vec_map::{distinct_keys, entry_views, VecMap};
use vstd::prelude::*;

verus! {

/// A storage slot with its value, both as bytes.
pub type Slot = (Seq<u8>, Seq<u8>);

/// Whether the slots stand in ascending order of their keys, each key read as a
/// number, most significant byte first.
pub open spec fn ascending(slots: Seq<Slot>) -> bool {
    forall|i: int, j: int|
        0 <= i < j < slots.len() ==> be_value((#[trigger] slots[i]).0) < be_value(
            (#[trigger] slots[j]).0,
        )
}

/// Whether no two slots have keys that spell the same number.
pub open spec fn distinct_numbers(slots: Seq<Slot>) -> bool {
    forall|i: int, j: int|
        0 <= i < j < slots.len() ==> be_value((#[trigger] slots[i]).0) != be_value(
            (#[trigger] slots[j]).0,
        )
}

/// An ascending list with one more slot, put behind the slots with smaller keys.
pub open spec fn insert_ascending(sorted: Seq<Slot>, slot: Slot) -> Seq<Slot>
    decreases sorted.len(),
{
    if sorted.len() == 0 || be_value(sorted.last().0) < be_value(slot.0) {
        sorted.push(slot)
    } else {
        insert_ascending(sorted.drop_last(), slot).push(sorted.last())
    }
}

/// The slots in ascending order of their keys.
pub open spec fn ascending_slots(slots: Seq<Slot>) -> Seq<Slot>
    decreases slots.len(),
{
    if slots.len() == 0 {
        Seq::empty()
    } else {
        insert_ascending(ascending_slots(slots.drop_last()), slots.last())
    }
}

/// Of two byte strings of one length, the one with the smaller byte at the first
/// place where they differ spells the smaller number.
pub proof fn lemma_be_value_order(left: Seq<u8>, right: Seq<u8>, k: int)
    requires
        left.len() == right.len(),
        0 <= k < left.len(),
        forall|j: int| 0 <= j < k ==> left[j] == right[j],
        left[k] < right[k],
    ensures
        be_value(left) < be_value(right),
    decreases left.len(),
{
    if k == left.len() - 1 {
        assert(left.drop_last() =~= right.drop_last());
    } else {
        lemma_be_value_order(left.drop_last(), right.drop_last(), k);
    }
}

/// Whether the first word, read as a number, is smaller than the second.
pub fn less_than(left: &H256, right: &H256) -> (less: bool)
    ensures
        less == (be_value(left@) < be_value(right@)),
{
    let mut i: usize = 0;
    while i < 32
        invariant
            i <= 32,
            forall|j: int| 0 <= j < i ==> left@[j] == right@[j],
        decreases 32 - i,
    {
        if left.0[i] < right.0[i] {
            proof {
                lemma_be_value_order(left@, right@, i as int);
            }
            return true;
        }
        if left.0[i] > right.0[i] {
            proof {
                lemma_be_value_order(right@, left@, i as int);
            }
            return false;
        }
        i = i + 1;
    }
    assert(left@ =~= right@);
    false
}

/// Inserting into an ascending list puts the slot at the place behind which no
/// key is smaller and before which the key is smaller.
pub proof fn lemma_insert_at(sorted: Seq<Slot>, slot: Slot, place: int)
    requires
        0 <= place <= sorted.len(),
        forall|j: int|
            place <= j < sorted.len() ==> !(be_value((#[trigger] sorted[j]).0) < be_value(slot.0)),
        place > 0 ==> be_value(sorted[place - 1].0) < be_value(slot.0),
        ascending(sorted),
    ensures
        insert_ascending(sorted, slot) == sorted.insert(place, slot),
    decreases sorted.len(),
{
    if sorted.len() == 0 {
        assert(sorted.push(slot) =~= sorted.insert(place, slot));
    } else if place == sorted.len() {
        assert(sorted.push(slot) =~= sorted.insert(place, slot));
    } else {
        let last = sorted.len() - 1;
        assert(!(be_value(sorted[last].0) < be_value(slot.0)));
        lemma_insert_at(sorted.drop_last(), slot, place);
        assert(sorted.drop_last().insert(place, slot).push(sorted.last()) =~= sorted.insert(
            place,
            slot,
        ));
    }
}

/// Inserting a slot with a new key into an ascending list gives an ascending
/// list of the same slots and the new one.
pub proof fn lemma_insert_ascending(sorted: Seq<Slot>, slot: Slot)
    requires
        ascending(sorted),
        forall|i: int| 0 <= i < sorted.len() ==> be_value((#[trigger] sorted[i]).0) != be_value(
            slot.0,
        ),
    ensures
        ascending(insert_ascending(sorted, slot)),
        insert_ascending(sorted, slot).len() == sorted.len() + 1,
        forall|other: Slot|
            #[trigger] insert_ascending(sorted, slot).contains(other) <==> (sorted.contains(other)
                || other == slot),
    decreases sorted.len(),
{
    let after = insert_ascending(sorted, slot);
    if sorted.len() == 0 || be_value(sorted.last().0) < be_value(slot.0) {
        assert(after == sorted.push(slot));
        assert forall|i: int, j: int| 0 <= i < j < after.len() implies be_value(
            (#[trigger] after[i]).0,
        ) < be_value((#[trigger] after[j]).0) by {
            assert(after[i] == sorted[i]);
            if j < sorted.len() {
                assert(after[j] == sorted[j]);
            } else if i < sorted.len() - 1 {
                assert(be_value(sorted[i].0) < be_value(sorted[sorted.len() - 1].0));
            }
        }
        assert forall|other: Slot| #[trigger]
            after.contains(other) <==> (sorted.contains(other) || other == slot) by {
            if after.contains(other) {
                let i = choose|i: int| 0 <= i < after.len() && after[i] == other;
                if i < sorted.len() {
                    assert(sorted[i] == other);
                }
            }
            if sorted.contains(other) {
                let i = choose|i: int| 0 <= i < sorted.len() && sorted[i] == other;
                assert(after[i] == other);
            }
            if other == slot {
                assert(after[sorted.len() as int] == other);
            }
        }
    } else {
        let rest = sorted.drop_last();
        let last = sorted.last();
        let inner = insert_ascending(rest, slot);
        assert forall|i: int| 0 <= i < rest.len() implies be_value((#[trigger] rest[i]).0)
            != be_value(slot.0) by {
            assert(rest[i] == sorted[i]);
        }
        assert(ascending(rest)) by {
            assert forall|i: int, j: int| 0 <= i < j < rest.len() implies be_value(
                (#[trigger] rest[i]).0,
            ) < be_value((#[trigger] rest[j]).0) by {
                assert(rest[i] == sorted[i] && rest[j] == sorted[j]);
            }
        }
        lemma_insert_ascending(rest, slot);
        assert(after == inner.push(last));
        assert(sorted[sorted.len() - 1] == last);
        assert(be_value(slot.0) < be_value(last.0));
        assert forall|i: int, j: int| 0 <= i < j < after.len() implies be_value(
            (#[trigger] after[i]).0,
        ) < be_value((#[trigger] after[j]).0) by {
            assert(after[i] == inner[i]);
            if j < inner.len() {
                assert(after[j] == inner[j]);
            } else {
                assert(inner.contains(inner[i]));
                if inner[i] != slot {
                    let k = choose|k: int| 0 <= k < rest.len() && rest[k] == inner[i];
                    assert(sorted[k] == inner[i]);
                }
            }
        }
        assert forall|other: Slot| #[trigger]
            after.contains(other) <==> (sorted.contains(other) || other == slot) by {
            if after.contains(other) {
                let i = choose|i: int| 0 <= i < after.len() && after[i] == other;
                if i < inner.len() {
                    assert(inner[i] == other);
                    assert(inner.contains(other));
                    if other != slot {
                        let k = choose|k: int| 0 <= k < rest.len() && rest[k] == other;
                        assert(sorted[k] == other);
                    }
                }
            }
            if sorted.contains(other) {
                let k = choose|k: int| 0 <= k < sorted.len() && sorted[k] == other;
                if k < rest.len() {
                    assert(rest[k] == other);
                    assert(rest.contains(other));
                    assert(inner.contains(other));
                    let i = choose|i: int| 0 <= i < inner.len() && inner[i] == other;
                    assert(after[i] == other);
                } else {
                    assert(after[inner.len() as int] == other);
                }
            }
            if other == slot {
                assert(inner.contains(slot));
                let i = choose|i: int| 0 <= i < inner.len() && inner[i] == slot;
                assert(after[i] == other);
            }
        }
    }
}

/// The slots in ascending order are the same slots, each once, and they ascend.
pub proof fn lemma_ascending_slots(slots: Seq<Slot>)
    requires
        distinct_numbers(slots),
    ensures
        ascending(ascending_slots(slots)),
        ascending_slots(slots).len() == slots.len(),
        forall|slot: Slot| #[trigger] ascending_slots(slots).contains(slot) <==> slots.contains(slot),
    decreases slots.len(),
{
    let sorted = ascending_slots(slots);
    if slots.len() > 0 {
        let rest = slots.drop_last();
        let last = slots.last();
        let inner = ascending_slots(rest);
        assert(distinct_numbers(rest)) by {
            assert forall|i: int, j: int| 0 <= i < j < rest.len() implies be_value(
                (#[trigger] rest[i]).0,
            ) != be_value((#[trigger] rest[j]).0) by {
                assert(rest[i] == slots[i] && rest[j] == slots[j]);
            }
        }
        lemma_ascending_slots(rest);
        assert forall|i: int| 0 <= i < inner.len() implies be_value((#[trigger] inner[i]).0)
            != be_value(last.0) by {
            assert(inner.contains(inner[i]));
            let k = choose|k: int| 0 <= k < rest.len() && rest[k] == inner[i];
            assert(slots[k] == inner[i]);
            assert(slots[slots.len() - 1] == last);
        }
        lemma_insert_ascending(inner, last);
        assert forall|slot: Slot| #[trigger] sorted.contains(slot) <==> slots.contains(slot) by {
            if slots.contains(slot) {
                let k = choose|k: int| 0 <= k < slots.len() && slots[k] == slot;
                if k < rest.len() {
                    assert(rest[k] == slot);
                    assert(rest.contains(slot));
                }
            }
            if rest.contains(slot) {
                let k = choose|k: int| 0 <= k < rest.len() && rest[k] == slot;
                assert(slots[k] == slot);
            }
            if slot == last {
                assert(slots[slots.len() - 1] == slot);
            }
        }
    } else {
        assert forall|slot: Slot| #[trigger] sorted.contains(slot) <==> slots.contains(slot) by {}
    }
}

/// Two ascending lists of the same slots are the same list.
pub proof fn lemma_ascending_unique(first: Seq<Slot>, second: Seq<Slot>)
    requires
        ascending(first),
        ascending(second),
        forall|slot: Slot| first.contains(slot) <==> second.contains(slot),
    ensures
        first == second,
    decreases first.len(),
{
    if first.len() == 0 {
        if second.len() > 0 {
            assert(second.contains(second[0]));
            assert(first.contains(second[0]));
        }
        assert(first =~= second);
    } else {
        let top = first.last();
        assert(first[first.len() - 1] == top);
        assert(first.contains(top));
        assert(second.contains(top));
        let other_top = second.last();
        assert(second[second.len() - 1] == other_top);
        assert(second.contains(other_top));
        assert(first.contains(other_top));
        let j = choose|j: int| 0 <= j < second.len() && second[j] == top;
        let i = choose|i: int| 0 <= i < first.len() && first[i] == other_top;
        if j < second.len() - 1 {
            assert(be_value(second[j].0) < be_value(second[second.len() - 1].0));
            if i < first.len() - 1 {
                assert(be_value(first[i].0) < be_value(first[first.len() - 1].0));
            }
        }
        assert(top == other_top);
        let rest = first.drop_last();
        let other_rest = second.drop_last();
        assert(ascending(rest)) by {
            assert forall|a: int, b: int| 0 <= a < b < rest.len() implies be_value(
                (#[trigger] rest[a]).0,
            ) < be_value((#[trigger] rest[b]).0) by {
                assert(rest[a] == first[a] && rest[b] == first[b]);
            }
        }
        assert(ascending(other_rest)) by {
            assert forall|a: int, b: int| 0 <= a < b < other_rest.len() implies be_value(
                (#[trigger] other_rest[a]).0,
            ) < be_value((#[trigger] other_rest[b]).0) by {
                assert(other_rest[a] == second[a] && other_rest[b] == second[b]);
            }
        }
        assert forall|slot: Slot| rest.contains(slot) <==> other_rest.contains(slot) by {
            if rest.contains(slot) {
                let a = choose|a: int| 0 <= a < rest.len() && rest[a] == slot;
                assert(first[a] == slot);
                assert(be_value(first[a].0) < be_value(first[first.len() - 1].0));
                assert(first.contains(slot));
                let b = choose|b: int| 0 <= b < second.len() && second[b] == slot;
                assert(other_rest[b] == slot);
            }
            if other_rest.contains(slot) {
                let b = choose|b: int| 0 <= b < other_rest.len() && other_rest[b] == slot;
                assert(second[b] == slot);
                assert(be_value(second[b].0) < be_value(second[second.len() - 1].0));
                assert(second.contains(slot));
                let a = choose|a: int| 0 <= a < first.len() && first[a] == slot;
                assert(rest[a] == slot);
            }
        }
        lemma_ascending_unique(rest, other_rest);
        assert(first =~= rest.push(top));
        assert(second =~= other_rest.push(other_top));
    }
}

/// The entries of a map of slots, in ascending order of the slots.
pub fn ascending_entries(slots: &VecMap<H256, H256>) -> (sorted: Vec<(H256, H256)>)
    ensures
        entry_views(sorted@) == ascending_slots(slots.entries_view()),
{
    let ghost all = slots.entries_view();
    let mut sorted: Vec<(H256, H256)> = Vec::new();
    let mut i: usize = 0;
    proof {
        use_type_invariant(slots);
        lemma_distinct_numbers(all);
        assert(all.take(0) =~= Seq::<Slot>::empty());
        assert(entry_views(sorted@) =~= Seq::<Slot>::empty());
    }
    while i < slots.len()
        invariant
            all == slots.entries_view(),
            distinct_numbers(all),
            i <= all.len(),
            entry_views(sorted@) == ascending_slots(all.take(i as int)),
        decreases all.len() - i,
    {
        let key = *slots.key_at(i);
        let value = *slots.value_at(i);
        let ghost before = entry_views(sorted@);
        proof {
            assert(all.take(i + 1).drop_last() =~= all.take(i as int));
            assert(all.take(i + 1).last() == all[i as int]);
            assert(distinct_numbers(all.take(i as int))) by {
                assert forall|a: int, b: int| 0 <= a < b < all.take(i as int).len() implies be_value(
                    (#[trigger] all.take(i as int)[a]).0,
                ) != be_value((#[trigger] all.take(i as int)[b]).0) by {
                    assert(all.take(i as int)[a] == all[a] && all.take(i as int)[b] == all[b]);
                }
            }
            lemma_ascending_slots(all.take(i as int));
        }
        let mut place: usize = sorted.len();
        let mut searching: bool = true;
        while searching
            invariant
                place <= sorted.len(),
                before == entry_views(sorted@),
                forall|j: int|
                    place <= j < before.len() ==> !(be_value((#[trigger] before[j]).0) < be_value(
                        key@,
                    )),
                !searching && place > 0 ==> be_value(before[place - 1].0) < be_value(key@),
            decreases place + if searching { 1nat } else { 0nat },
        {
            if place == 0 {
                searching = false;
            } else if less_than(&sorted[place - 1].0, &key) {
                searching = false;
            } else {
                place = place - 1;
            }
        }
        proof {
            lemma_insert_at(before, (key@, value@), place as int);
            assert(entry_views(sorted@.insert(place as int, (key, value))) =~= before.insert(
                place as int,
                (key@, value@),
            ));
        }
        sorted.insert(place, (key, value));
        i = i + 1;
    }
    assert(all.take(i as int) =~= all);
    sorted
}

/// Slots whose keys are distinct words of 32 bytes have keys that spell distinct
/// numbers.
pub proof fn lemma_distinct_numbers(slots: Seq<Slot>)
    requires
        distinct_keys(slots),
        forall|i: int| 0 <= i < slots.len() ==> (#[trigger] slots[i]).0.len() == 32,
    ensures
        distinct_numbers(slots),
{
    assert forall|i: int, j: int| 0 <= i < j < slots.len() implies be_value(
        (#[trigger] slots[i]).0,
    ) != be_value((#[trigger] slots[j]).0) by {
        if be_value(slots[i].0) == be_value(slots[j].0) {
            lemma_be_value_injective(slots[i].0, slots[j].0);
        }
    }
}

} // verus!
