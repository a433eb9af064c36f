//! The groups of a given size that can be picked from a row of places.
//!
//! A group is written as the places it holds, lowest first. The groups of
//! one size are listed the way a dictionary would list them: by their first
//! place, then by their second, and so on.

use vstd::prelude::*;
use itertools::Itertools;

verus! {

/// The groups of `size` places out of `first..count`, in dictionary order:
/// first those that hold `first`, then those that do not.
pub open spec fn combinations_from(first: int, count: int, size: nat) -> Seq<Seq<int>>
    decreases count - first,
{
    if size == 0 {
        seq![Seq::<int>::empty()]
    } else if first >= count {
        Seq::<Seq<int>>::empty()
    } else {
        combinations_from(first + 1, count, (size - 1) as nat).map_values(
            |rest: Seq<int>| seq![first] + rest,
        ) + combinations_from(first + 1, count, size)
    }
}

/// The groups of `size` places out of `0..count`, in dictionary order.
pub open spec fn combinations(count: nat, size: nat) -> Seq<Seq<int>> {
    combinations_from(0, count as int, size)
}

/// Whether `group` holds places of `first..count` only, each one higher
/// than the one before it.
pub open spec fn is_group(group: Seq<int>, first: int, count: int) -> bool {
    &&& forall|i: int| 0 <= i < group.len() ==> first <= #[trigger] group[i] < count
    &&& forall|i: int, j: int| 0 <= i < j < group.len() ==> group[i] < group[j]
}

/// The places that `keys` holds, as integers.
pub open spec fn places(keys: Seq<usize>) -> Seq<int> {
    Seq::new(keys.len(), |i: int| keys[i] as int)
}

/// The groups that `groups` holds, each as a sequence of integers.
pub open spec fn groups_of(groups: Seq<Vec<usize>>) -> Seq<Seq<int>> {
    Seq::new(groups.len(), |i: int| places(groups[i]@))
}

/// Every listed group has `size` places of `first..count`, in rising order.
pub proof fn lemma_combinations_are_groups(first: int, count: int, size: nat)
    requires
        0 <= first,
    ensures
        forall|i: int|
            0 <= i < combinations_from(first, count, size).len() ==> (#[trigger] combinations_from(
                first,
                count,
                size,
            )[i]).len() == size && is_group(combinations_from(first, count, size)[i], first, count),
    decreases count - first,
{
    let all = combinations_from(first, count, size);
    if size == 0 {
    } else if first >= count {
    } else {
        let with = combinations_from(first + 1, count, (size - 1) as nat);
        let without = combinations_from(first + 1, count, size);
        lemma_combinations_are_groups(first + 1, count, (size - 1) as nat);
        lemma_combinations_are_groups(first + 1, count, size);
        assert forall|i: int| 0 <= i < all.len() implies (#[trigger] all[i]).len() == size
            && is_group(all[i], first, count) by {
            if i < with.len() {
                let rest = with[i];
                assert(all[i] == seq![first] + rest);
                assert forall|a: int, b: int| 0 <= a < b < all[i].len() implies all[i][a]
                    < all[i][b] by {
                    if a == 0 {
                        assert(all[i][b] == rest[b - 1]);
                    } else {
                        assert(all[i][a] == rest[a - 1]);
                    }
                }
                assert forall|a: int| 0 <= a < all[i].len() implies first <= #[trigger] all[i][a]
                    < count by {
                    if a > 0 {
                        assert(all[i][a] == rest[a - 1]);
                    }
                }
            } else {
                assert(all[i] == without[i - with.len()]);
            }
        }
    }
}

/// Whether `a` comes before `b` in dictionary order: at the first place
/// where they differ, `a` holds the lower one.
pub open spec fn comes_before(a: Seq<int>, b: Seq<int>) -> bool {
    exists|k: int|
        0 <= k < a.len() && k < b.len() && a[k] < b[k] && forall|i: int|
            0 <= i < k ==> a[i] == b[i]
}

/// The listed groups are in dictionary order, so that none is listed twice.
pub proof fn lemma_combinations_are_ordered(first: int, count: int, size: nat)
    requires
        0 <= first,
    ensures
        forall|i: int, j: int|
            0 <= i < j < combinations_from(first, count, size).len() ==> comes_before(
                #[trigger] combinations_from(first, count, size)[i],
                #[trigger] combinations_from(first, count, size)[j],
            ),
    decreases count - first,
{
    let all = combinations_from(first, count, size);
    if size == 0 {
    } else if first >= count {
    } else {
        let with = combinations_from(first + 1, count, (size - 1) as nat);
        let without = combinations_from(first + 1, count, size);
        lemma_combinations_are_ordered(first + 1, count, (size - 1) as nat);
        lemma_combinations_are_ordered(first + 1, count, size);
        lemma_combinations_are_groups(first + 1, count, (size - 1) as nat);
        lemma_combinations_are_groups(first + 1, count, size);
        assert forall|i: int, j: int| 0 <= i < j < all.len() implies comes_before(
            #[trigger] all[i],
            #[trigger] all[j],
        ) by {
            if j < with.len() {
                let a = with[i];
                let b = with[j];
                let k = choose|k: int|
                    0 <= k < a.len() && k < b.len() && a[k] < b[k] && forall|m: int|
                        0 <= m < k ==> a[m] == b[m];
                assert(all[i][k + 1] == a[k]);
                assert forall|m: int| 0 <= m < k + 1 implies all[i][m] == all[j][m] by {
                    if m > 0 {
                        assert(all[i][m] == a[m - 1]);
                    }
                }
            } else if i >= with.len() {
                assert(all[i] == without[i - with.len()]);
            } else {
                let b = without[j - with.len()];
                assert(first + 1 <= b[0]);
            }
        }
    }
}

/// Every group of `size` places of `first..count` is listed.
pub proof fn lemma_combinations_are_complete(first: int, count: int, size: nat, group: Seq<int>)
    requires
        0 <= first,
        group.len() == size,
        is_group(group, first, count),
    ensures
        combinations_from(first, count, size).contains(group),
    decreases count - first,
{
    let all = combinations_from(first, count, size);
    if size == 0 {
        assert(all[0] == group);
    } else if first >= count {
        assert(first <= group[0] < count);
    } else {
        let with = combinations_from(first + 1, count, (size - 1) as nat);
        let without = combinations_from(first + 1, count, size);
        if group[0] == first {
            let rest = group.skip(1);
            assert(is_group(rest, first + 1, count)) by {
                assert forall|i: int| 0 <= i < rest.len() implies first + 1 <= #[trigger] rest[i]
                    < count by {
                    assert(group[0] < group[i + 1]);
                }
                assert forall|i: int, j: int| 0 <= i < j < rest.len() implies rest[i]
                    < rest[j] by {
                    assert(rest[i] == group[i + 1]);
                }
            }
            lemma_combinations_are_complete(first + 1, count, (size - 1) as nat, rest);
            let i = choose|i: int| 0 <= i < with.len() && with[i] == rest;
            assert(all[i] == seq![first] + rest);
            assert(seq![first] + rest =~= group);
        } else {
            assert(is_group(group, first + 1, count)) by {
                assert forall|i: int| 0 <= i < group.len() implies first + 1 <= #[trigger] group[i]
                    < count by {
                    if i > 0 {
                        assert(group[0] < group[i]);
                    }
                }
            }
            lemma_combinations_are_complete(first + 1, count, size, group);
            let i = choose|i: int| 0 <= i < without.len() && without[i] == group;
            assert(all[with.len() + i] == group);
        }
    }
}

/// What the list of groups is: it holds every group of `size` places out
/// of `0..count`, and nothing else, each group once, in dictionary order.
pub proof fn law_combinations(count: nat, size: nat)
    ensures
        forall|i: int|
            0 <= i < combinations(count, size).len() ==> (#[trigger] combinations(
                count,
                size,
            )[i]).len() == size && is_group(combinations(count, size)[i], 0, count as int),
        forall|group: Seq<int>|
            group.len() == size && #[trigger] is_group(group, 0, count as int) ==> combinations(
                count,
                size,
            ).contains(group),
        forall|i: int, j: int|
            0 <= i < j < combinations(count, size).len() ==> comes_before(
                #[trigger] combinations(count, size)[i],
                #[trigger] combinations(count, size)[j],
            ),
{
    lemma_combinations_are_groups(0, count as int, size);
    lemma_combinations_are_ordered(0, count as int, size);
    assert forall|group: Seq<int>|
        group.len() == size && #[trigger] is_group(group, 0, count as int) implies combinations(
        count,
        size,
    ).contains(group) by {
        lemma_combinations_are_complete(0, count as int, size, group);
    }
}

/// There is no group of more places than there are.
pub proof fn lemma_no_combinations(first: int, count: int, size: nat)
    requires
        0 <= first <= count,
        size > count - first,
    ensures
        combinations_from(first, count, size).len() == 0,
    decreases count - first,
{
    if first < count {
        lemma_no_combinations(first + 1, count, (size - 1) as nat);
        lemma_no_combinations(first + 1, count, size);
    }
}

/// A listing of groups that is under way: it hands out one group after
/// the other. It holds the iterator that `Itertools::combinations` makes
/// for a range of places, which cannot be declared by its own name.
#[verifier::external_body]
pub struct Listing {
    inner: itertools::structs::Combinations<core::ops::Range<usize>>,
}

/// The groups that a listing has still to hand out, next one first.
pub uninterp spec fn groups_left(listing: Listing) -> Seq<Seq<int>>;

/// Calls `Itertools::combinations` on the range `0..count`, which starts a
/// listing and hands out nothing yet. The contract claims that the groups
/// to come are all the groups of `size` places, each in rising order, one
/// after the other in dictionary order, and one empty group for size zero.
/// Sizes above `count` are left out: the call sets aside room for `size`
/// places before it finds that there is no such group.
#[verifier::external_body]
pub(crate) fn list_groups(count: usize, size: usize) -> (listing: Listing)
    requires
        size <= count,
    ensures
        groups_left(listing) == combinations(count as nat, size as nat),
{
    Listing { inner: (0..count).combinations(size) }
}

/// Calls `next` on the iterator of a listing. The contract claims that it
/// hands out the first of the groups left and leaves the others, and that
/// it hands out nothing, and changes nothing, when none is left.
#[verifier::external_body]
pub(crate) fn next_group(listing: &mut Listing) -> (group: Option<Vec<usize>>)
    ensures
        group is Some <==> groups_left(*old(listing)).len() > 0,
        group matches Some(g) ==> places(g@) == groups_left(*old(listing)).first(),
        group is Some ==> groups_left(*final(listing)) == groups_left(*old(listing)).drop_first(),
        group is None ==> groups_left(*final(listing)) == groups_left(*old(listing)),
{
    listing.inner.next()
}

} // verus!
