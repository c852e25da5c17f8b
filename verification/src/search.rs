//! The search: every valid group of a collection, in lexicographic order.

use crate::order::{lex_lt, precedes_at, same_members, strictly_ascending};
use crate::order::{lemma_ascending_listing_unique, lemma_ascending_no_duplicates};
use crate::rules::{distinct_values, is_candidate, is_valid_group, passes_rule};
use crate::rules::{lemma_mixed_attribute_rejected, lemma_uniform_items_all_valid};
use vstd::prelude::*;

verus! {

/// `group` has `set_size` members, begins with `prefix`, and goes on with
/// strictly increasing indices taken from `from` up to `item_count`.
pub open spec fn extends(
    group: Seq<usize>,
    prefix: Seq<usize>,
    from: nat,
    item_count: nat,
    set_size: nat,
) -> bool {
    &&& group.len() == set_size
    &&& prefix.len() <= set_size
    &&& forall|k: int| 0 <= k < prefix.len() ==> group[k] == prefix[k]
    &&& forall|k: int| prefix.len() <= k < set_size ==> from <= #[trigger] group[k] < item_count
    &&& forall|j: int, k: int| prefix.len() <= j < k < set_size ==> group[j] < group[k]
}

/// The groups of `set_size` members that begin with `prefix`, go on with
/// strictly increasing indices from `from` upward and pass the rule, in
/// lexicographic order: first those that take the item `from` next, then
/// those that leave it out.
pub open spec fn extensions(
    items: Seq<Seq<u8>>,
    prefix: Seq<usize>,
    from: nat,
    set_size: nat,
    variant_count: nat,
) -> Seq<Seq<usize>>
    decreases items.len() - from,
{
    if prefix.len() >= set_size {
        if prefix.len() == set_size && passes_rule(items, prefix, variant_count) {
            seq![prefix]
        } else {
            Seq::empty()
        }
    } else if from >= items.len() {
        Seq::empty()
    } else {
        extensions(items, prefix.push(from as usize), from + 1, set_size, variant_count)
            + extensions(items, prefix, from + 1, set_size, variant_count)
    }
}

/// The valid groups of the collection, in lexicographic order. A group has at
/// least one member: for a `set_size` of zero there is none.
pub open spec fn valid_groups(items: Seq<Seq<u8>>, set_size: nat, variant_count: nat) -> Seq<
    Seq<usize>,
> {
    if set_size == 0 {
        Seq::empty()
    } else {
        extensions(items, Seq::empty(), 0, set_size, variant_count)
    }
}

/// `groups` lists the valid groups of the collection: each of its entries is
/// a valid group, each valid group is among its entries, and each entry
/// comes before all the entries after it in lexicographic order (so no group
/// is listed twice).
pub open spec fn lists_valid_groups(
    groups: Seq<Seq<usize>>,
    items: Seq<Seq<u8>>,
    set_size: nat,
    variant_count: nat,
) -> bool {
    &&& forall|i: int|
        0 <= i < groups.len() ==> is_valid_group(
            items,
            #[trigger] groups[i],
            set_size,
            variant_count,
        )
    &&& forall|group: Seq<usize>|
        is_valid_group(items, group, set_size, variant_count) ==> groups.contains(group)
    &&& strictly_ascending(groups)
}

/// Every entry of `extensions` begins with the prefix, goes on as asked and
/// passes the rule.
pub proof fn lemma_extensions_sound(
    items: Seq<Seq<u8>>,
    prefix: Seq<usize>,
    from: nat,
    set_size: nat,
    variant_count: nat,
)
    requires
        items.len() <= usize::MAX,
    ensures
        forall|i: int|
            0 <= i < extensions(items, prefix, from, set_size, variant_count).len() ==> {
                let group = #[trigger] extensions(items, prefix, from, set_size, variant_count)[i];
                extends(group, prefix, from, items.len(), set_size) && passes_rule(
                    items,
                    group,
                    variant_count,
                )
            },
    decreases items.len() - from,
{
    let all = extensions(items, prefix, from, set_size, variant_count);
    if prefix.len() < set_size && from < items.len() {
        let taken = prefix.push(from as usize);
        let with = extensions(items, taken, from + 1, set_size, variant_count);
        let without = extensions(items, prefix, from + 1, set_size, variant_count);
        lemma_extensions_sound(items, taken, from + 1, set_size, variant_count);
        lemma_extensions_sound(items, prefix, from + 1, set_size, variant_count);
        assert forall|i: int| 0 <= i < all.len() implies extends(
            #[trigger] all[i],
            prefix,
            from,
            items.len(),
            set_size,
        ) && passes_rule(items, all[i], variant_count) by {
            let group = all[i];
            if i < with.len() {
                assert(group == with[i]);
                assert(extends(group, taken, from + 1, items.len(), set_size));
                assert(group[prefix.len() as int] == taken[prefix.len() as int]);
                assert forall|k: int| 0 <= k < prefix.len() implies group[k] == prefix[k] by {
                    assert(group[k] == taken[k]);
                }
            } else {
                assert(group == without[i - with.len()]);
                assert(extends(group, prefix, from + 1, items.len(), set_size));
            }
        }
    }
}

/// Every group that begins with the prefix, goes on as asked and passes the
/// rule is an entry of `extensions`.
pub proof fn lemma_extensions_complete(
    items: Seq<Seq<u8>>,
    prefix: Seq<usize>,
    from: nat,
    set_size: nat,
    variant_count: nat,
    group: Seq<usize>,
)
    requires
        extends(group, prefix, from, items.len(), set_size),
        passes_rule(items, group, variant_count),
    ensures
        extensions(items, prefix, from, set_size, variant_count).contains(group),
    decreases items.len() - from,
{
    let all = extensions(items, prefix, from, set_size, variant_count);
    if prefix.len() >= set_size {
        assert(group =~= prefix);
        assert(all[0] == group);
    } else {
        let next = prefix.len() as int;
        assert(from <= group[next] < items.len());
        let taken = prefix.push(from as usize);
        let with = extensions(items, taken, from + 1, set_size, variant_count);
        let without = extensions(items, prefix, from + 1, set_size, variant_count);
        if group[next] == from {
            assert forall|k: int| taken.len() <= k < set_size implies from + 1
                <= #[trigger] group[k] < items.len() by {
                assert(group[next] < group[k]);
            }
            lemma_extensions_complete(items, taken, from + 1, set_size, variant_count, group);
            let i = choose|i: int| 0 <= i < with.len() && with[i] == group;
            assert(all[i] == group);
        } else {
            assert forall|k: int| prefix.len() <= k < set_size implies from + 1
                <= #[trigger] group[k] < items.len() by {
                if k > next {
                    assert(group[next] < group[k]);
                }
            }
            lemma_extensions_complete(items, prefix, from + 1, set_size, variant_count, group);
            let i = choose|i: int| 0 <= i < without.len() && without[i] == group;
            assert(all[with.len() + i] == group);
        }
    }
}

/// The entries of `extensions` stand in strictly ascending lexicographic
/// order.
pub proof fn lemma_extensions_ascending(
    items: Seq<Seq<u8>>,
    prefix: Seq<usize>,
    from: nat,
    set_size: nat,
    variant_count: nat,
)
    requires
        items.len() <= usize::MAX,
    ensures
        strictly_ascending(extensions(items, prefix, from, set_size, variant_count)),
    decreases items.len() - from,
{
    let all = extensions(items, prefix, from, set_size, variant_count);
    if prefix.len() < set_size && from < items.len() {
        let taken = prefix.push(from as usize);
        let with = extensions(items, taken, from + 1, set_size, variant_count);
        let without = extensions(items, prefix, from + 1, set_size, variant_count);
        lemma_extensions_ascending(items, taken, from + 1, set_size, variant_count);
        lemma_extensions_ascending(items, prefix, from + 1, set_size, variant_count);
        lemma_extensions_sound(items, taken, from + 1, set_size, variant_count);
        lemma_extensions_sound(items, prefix, from + 1, set_size, variant_count);
        assert forall|i: int, j: int| 0 <= i < j < all.len() implies lex_lt(
            #[trigger] all[i],
            #[trigger] all[j],
        ) by {
            if j < with.len() {
                assert(lex_lt(with[i], with[j]));
            } else if i >= with.len() {
                assert(lex_lt(without[i - with.len()], without[j - with.len()]));
            } else {
                let a = with[i];
                let b = without[j - with.len()];
                let next = prefix.len() as int;
                assert(extends(a, taken, from + 1, items.len(), set_size));
                assert(extends(b, prefix, from + 1, items.len(), set_size));
                assert(a[next] == taken[next]);
                assert(from + 1 <= b[next]);
                assert forall|k: int| 0 <= k < next implies a[k] == b[k] by {
                    assert(a[k] == taken[k]);
                    assert(b[k] == prefix[k]);
                }
                assert(precedes_at(a, b, next));
            }
        }
    }
}

/// Where fewer items are left than members are missing, nothing extends the
/// prefix.
pub proof fn lemma_extensions_none_when_short(
    items: Seq<Seq<u8>>,
    prefix: Seq<usize>,
    from: nat,
    set_size: nat,
    variant_count: nat,
)
    requires
        from <= items.len(),
        prefix.len() + (items.len() - from) < set_size,
    ensures
        extensions(items, prefix, from, set_size, variant_count) == Seq::<Seq<usize>>::empty(),
    decreases items.len() - from,
{
    if from < items.len() {
        let taken = prefix.push(from as usize);
        lemma_extensions_none_when_short(items, taken, from + 1, set_size, variant_count);
        lemma_extensions_none_when_short(items, prefix, from + 1, set_size, variant_count);
    }
}

/// `valid_groups` lists the valid groups of the collection: all of them,
/// nothing else, each once, in strictly ascending lexicographic order.
pub proof fn lemma_valid_groups_listing(items: Seq<Seq<u8>>, set_size: nat, variant_count: nat)
    requires
        items.len() <= usize::MAX,
    ensures
        lists_valid_groups(
            valid_groups(items, set_size, variant_count),
            items,
            set_size,
            variant_count,
        ),
        valid_groups(items, set_size, variant_count).no_duplicates(),
{
    let groups = valid_groups(items, set_size, variant_count);
    let none = Seq::<usize>::empty();
    if set_size > 0 {
        lemma_extensions_sound(items, none, 0, set_size, variant_count);
        lemma_extensions_ascending(items, none, 0, set_size, variant_count);
        assert forall|i: int| 0 <= i < groups.len() implies is_valid_group(
            items,
            #[trigger] groups[i],
            set_size,
            variant_count,
        ) by {
            assert(extends(groups[i], none, 0, items.len(), set_size));
        }
        assert forall|group: Seq<usize>|
            is_valid_group(items, group, set_size, variant_count) implies groups.contains(
            group,
        ) by {
            assert(extends(group, none, 0, items.len(), set_size));
            lemma_extensions_complete(items, none, 0, set_size, variant_count, group);
        }
    }
    lemma_ascending_no_duplicates(groups);
}

/// The inputs determine the listing: whatever lists the valid groups of a
/// collection is the sequence `valid_groups`, so two listings for the same
/// inputs are the same sequence in the same order.
pub proof fn lemma_listing_determined(
    items: Seq<Seq<u8>>,
    set_size: nat,
    variant_count: nat,
    first: Seq<Seq<usize>>,
    second: Seq<Seq<usize>>,
)
    requires
        items.len() <= usize::MAX,
        lists_valid_groups(first, items, set_size, variant_count),
        lists_valid_groups(second, items, set_size, variant_count),
    ensures
        first == second,
        first == valid_groups(items, set_size, variant_count),
{
    let groups = valid_groups(items, set_size, variant_count);
    lemma_valid_groups_listing(items, set_size, variant_count);
    lemma_same_listing(items, set_size, variant_count, first, groups);
    lemma_same_listing(items, set_size, variant_count, second, groups);
}

proof fn lemma_same_listing(
    items: Seq<Seq<u8>>,
    set_size: nat,
    variant_count: nat,
    a: Seq<Seq<usize>>,
    b: Seq<Seq<usize>>,
)
    requires
        lists_valid_groups(a, items, set_size, variant_count),
        lists_valid_groups(b, items, set_size, variant_count),
    ensures
        a == b,
{
    assert(same_members(a, b)) by {
        assert forall|group: Seq<usize>| a.contains(group) <==> b.contains(group) by {
            if a.contains(group) {
                let i = choose|i: int| 0 <= i < a.len() && a[i] == group;
                assert(is_valid_group(items, a[i], set_size, variant_count));
            }
            if b.contains(group) {
                let i = choose|i: int| 0 <= i < b.len() && b[i] == group;
                assert(is_valid_group(items, b[i], set_size, variant_count));
            }
        }
    }
    lemma_ascending_listing_unique(a, b);
}

/// A collection with fewer items than a group has members has no valid
/// group.
pub proof fn lemma_no_groups_when_too_few_items(
    items: Seq<Seq<u8>>,
    set_size: nat,
    variant_count: nat,
)
    requires
        set_size > items.len(),
    ensures
        valid_groups(items, set_size, variant_count) == Seq::<Seq<usize>>::empty(),
{
    lemma_extensions_none_when_short(items, Seq::empty(), 0, set_size, variant_count);
}

/// With one attribute per item and one value shared by all items, every
/// candidate group is listed.
pub proof fn lemma_uniform_items_all_listed(
    items: Seq<Seq<u8>>,
    group: Seq<usize>,
    set_size: nat,
    value: u8,
)
    requires
        items.len() <= usize::MAX,
        forall|i: int| 0 <= i < items.len() ==> #[trigger] items[i] == seq![value],
        is_candidate(group, items.len(), set_size),
    ensures
        valid_groups(items, set_size, 1).contains(group),
{
    lemma_uniform_items_all_valid(items, group, set_size, value);
    lemma_valid_groups_listing(items, set_size, 1);
}

/// A group that holds, at one attribute position, neither one value nor as
/// many values as it has members is not listed, whatever it holds at the
/// other positions. Three members with two distinct values at one position
/// are such a group.
pub proof fn lemma_mixed_attribute_not_listed(
    items: Seq<Seq<u8>>,
    group: Seq<usize>,
    set_size: nat,
    variant_count: nat,
    position: int,
)
    requires
        items.len() <= usize::MAX,
        0 <= position < variant_count,
        distinct_values(items, group, position).len() != 1,
        distinct_values(items, group, position).len() != group.len(),
    ensures
        !valid_groups(items, set_size, variant_count).contains(group),
{
    let groups = valid_groups(items, set_size, variant_count);
    lemma_mixed_attribute_rejected(items, group, set_size, variant_count, position);
    lemma_valid_groups_listing(items, set_size, variant_count);
    if groups.contains(group) {
        let i = choose|i: int| 0 <= i < groups.len() && groups[i] == group;
        assert(is_valid_group(items, groups[i], set_size, variant_count));
    }
}

} // verus!
