//! The rule that decides whether a group of items is valid.
//!
//! An item is a row of attribute values. A group is a tuple of item indices.
//! A group passes at one attribute position when the values its members hold
//! there are all alike or all different; it is valid when it is a proper
//! candidate and passes at every position.

use std::collections::HashSet;
use vstd::prelude::*;

verus! {

/// Every item of the collection has exactly `variant_count` attribute values.
pub open spec fn items_well_formed(items: Seq<Seq<u8>>, variant_count: nat) -> bool {
    forall|i: int| 0 <= i < items.len() ==> (#[trigger] items[i]).len() == variant_count
}

/// Every index of the group names an item of a collection of `item_count` items.
pub open spec fn indices_in_range(group: Seq<usize>, item_count: nat) -> bool {
    forall|k: int| 0 <= k < group.len() ==> (#[trigger] group[k]) < item_count
}

/// Each index of the group is larger than all the indices before it.
pub open spec fn strictly_increasing(group: Seq<usize>) -> bool {
    forall|j: int, k: int| 0 <= j < k < group.len() ==> group[j] < group[k]
}

/// A candidate group: `set_size` item indices, at least one, all in range,
/// in strictly increasing order.
pub open spec fn is_candidate(group: Seq<usize>, item_count: nat, set_size: nat) -> bool {
    &&& set_size >= 1
    &&& group.len() == set_size
    &&& indices_in_range(group, item_count)
    &&& strictly_increasing(group)
}

/// The values that the members of the group hold at attribute `position`,
/// member by member.
pub open spec fn attribute_column(items: Seq<Seq<u8>>, group: Seq<usize>, position: int) -> Seq<
    u8,
> {
    Seq::new(group.len(), |k: int| items[group[k] as int][position])
}

/// The set of distinct values that the members of the group hold at
/// attribute `position`.
pub open spec fn distinct_values(items: Seq<Seq<u8>>, group: Seq<usize>, position: int) -> Set<
    u8,
> {
    attribute_column(items, group, position).to_set()
}

/// The group passes at `position`: its members hold one value there, or as
/// many values as there are members.
pub open spec fn attribute_ok(items: Seq<Seq<u8>>, group: Seq<usize>, position: int) -> bool {
    let distinct = distinct_values(items, group, position).len();
    distinct == 1 || distinct == group.len()
}

/// The group passes at every one of the first `variant_count` positions.
pub open spec fn passes_rule(items: Seq<Seq<u8>>, group: Seq<usize>, variant_count: nat) -> bool {
    forall|position: int|
        0 <= position < variant_count ==> #[trigger] attribute_ok(items, group, position)
}

/// A valid group: a candidate of `set_size` members that passes the rule at
/// every attribute position.
pub open spec fn is_valid_group(
    items: Seq<Seq<u8>>,
    group: Seq<usize>,
    set_size: nat,
    variant_count: nat,
) -> bool {
    is_candidate(group, items.len(), set_size) && passes_rule(items, group, variant_count)
}

/// A row of the deep view of a collection of items is the view of that item.
pub proof fn lemma_item_rows(items: &Vec<Vec<u8>>)
    ensures
        items.deep_view().len() == items@.len(),
        items.deep_view().len() <= usize::MAX,
        forall|i: int| 0 <= i < items@.len() ==> #[trigger] items.deep_view()[i] == items@[i]@,
{
    assert(items.len() == items@.len());
    assert forall|i: int| 0 <= i < items@.len() implies #[trigger] items.deep_view()[i]
        == items@[i]@ by {
        assert(items@[i].deep_view() =~= items@[i]@);
    }
}

/// Tells whether every item has exactly `variant_count` attribute values.
pub fn check_items(items: &Vec<Vec<u8>>, variant_count: usize) -> (ok: bool)
    ensures
        ok == items_well_formed(items.deep_view(), variant_count as nat),
{
    proof {
        lemma_item_rows(items);
    }
    for i in 0..items.len()
        invariant
            forall|k: int| 0 <= k < items@.len() ==> #[trigger] items.deep_view()[k] == items@[k]@,
            forall|k: int| 0 <= k < i ==> (#[trigger] items.deep_view()[k]).len() == variant_count,
    {
        if items[i].len() != variant_count {
            assert(items.deep_view()[i as int].len() != variant_count);
            return false;
        }
    }
    true
}

/// Counts the distinct values that the members of `group` hold at attribute
/// `position`.
pub fn count_distinct(items: &Vec<Vec<u8>>, group: &[usize], position: usize) -> (count: usize)
    requires
        indices_in_range(group@, items@.len()),
        forall|k: int|
            0 <= k < group@.len() ==> position < items@[(#[trigger] group@[k]) as int].len(),
    ensures
        count == distinct_values(items.deep_view(), group@, position as int).len(),
{
    let ghost column = attribute_column(items.deep_view(), group@, position as int);
    let mut seen: HashSet<u8> = HashSet::new();
    proof {
        lemma_item_rows(items);
        assert(column.take(0).to_set() =~= Set::<u8>::empty());
    }
    for k in 0..group.len()
        invariant
            indices_in_range(group@, items@.len()),
            forall|k: int|
                0 <= k < group@.len() ==> position < items@[(#[trigger] group@[k]) as int].len(),
            forall|i: int| 0 <= i < items@.len() ==> #[trigger] items.deep_view()[i] == items@[i]@,
            column == attribute_column(items.deep_view(), group@, position as int),
            seen@ == column.take(k as int).to_set(),
    {
        let member: usize = group[k];
        let value: u8 = items[member][position];
        seen.insert(value);
        proof {
            assert(column[k as int] == value);
            assert(column.take(k + 1) =~= column.take(k as int).push(value));
            column.take(k as int).lemma_push_to_set_commute(value);
        }
    }
    proof {
        assert(column.take(group@.len() as int) =~= column);
    }
    seen.len()
}

/// Checks the rule: at each of the first `variant_count` positions the
/// members of `group` hold values that are all alike or all different.
/// Stops at the first position that fails.
pub fn validate(items: &Vec<Vec<u8>>, group: &[usize], variant_count: usize) -> (ok: bool)
    requires
        items_well_formed(items.deep_view(), variant_count as nat),
        indices_in_range(group@, items@.len()),
    ensures
        ok == passes_rule(items.deep_view(), group@, variant_count as nat),
{
    proof {
        lemma_item_rows(items);
        assert forall|i: int| 0 <= i < items@.len() implies (#[trigger] items@[i]).len()
            == variant_count by {
            assert(items.deep_view()[i].len() == variant_count);
        }
    }
    for position in 0..variant_count
        invariant
            indices_in_range(group@, items@.len()),
            forall|i: int| 0 <= i < items@.len() ==> (#[trigger] items@[i]).len() == variant_count,
            forall|p: int|
                0 <= p < position ==> #[trigger] attribute_ok(items.deep_view(), group@, p),
    {
        let distinct: usize = count_distinct(items, group, position);
        if distinct != 1 && distinct != group.len() {
            assert(!attribute_ok(items.deep_view(), group@, position as int));
            return false;
        }
    }
    true
}

/// Where every item holds the same value at `position`, every group with at
/// least one member in range passes there: its members hold one value.
pub proof fn lemma_uniform_attribute_ok(
    items: Seq<Seq<u8>>,
    group: Seq<usize>,
    position: int,
    value: u8,
)
    requires
        group.len() >= 1,
        indices_in_range(group, items.len()),
        forall|i: int| 0 <= i < items.len() ==> (#[trigger] items[i])[position] == value,
    ensures
        distinct_values(items, group, position) == set![value],
        attribute_ok(items, group, position),
{
    let column = attribute_column(items, group, position);
    assert forall|x: u8| column.to_set().contains(x) <==> set![value].contains(x) by {
        if column.to_set().contains(x) {
            let k = choose|k: int| 0 <= k < column.len() && column[k] == x;
            assert(items[group[k] as int][position] == value);
        }
        if x == value {
            assert(column[0] == value);
        }
    }
    assert(column.to_set() =~= set![value]);
}

/// With one attribute per item and one value shared by all items, every
/// candidate group is valid.
pub proof fn lemma_uniform_items_all_valid(
    items: Seq<Seq<u8>>,
    group: Seq<usize>,
    set_size: nat,
    value: u8,
)
    requires
        forall|i: int| 0 <= i < items.len() ==> #[trigger] items[i] == seq![value],
        is_candidate(group, items.len(), set_size),
    ensures
        is_valid_group(items, group, set_size, 1),
{
    assert forall|i: int| 0 <= i < items.len() implies (#[trigger] items[i])[0] == value by {
        assert(items[i] == seq![value]);
    }
    lemma_uniform_attribute_ok(items, group, 0, value);
}

/// A group that holds, at some position among the first `variant_count`,
/// neither one value nor as many values as it has members is not valid,
/// whatever it holds at the other positions. Three members with two distinct
/// values at one position are such a group.
pub proof fn lemma_mixed_attribute_rejected(
    items: Seq<Seq<u8>>,
    group: Seq<usize>,
    set_size: nat,
    variant_count: nat,
    position: int,
)
    requires
        0 <= position < variant_count,
        distinct_values(items, group, position).len() != 1,
        distinct_values(items, group, position).len() != group.len(),
    ensures
        !passes_rule(items, group, variant_count),
        !is_valid_group(items, group, set_size, variant_count),
{
    assert(!attribute_ok(items, group, position));
}

} // verus!
