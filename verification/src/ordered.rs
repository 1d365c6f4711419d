//! The ordered crossover: two segments of one parent stay where they are,
//! and the remaining cities follow in the order the other parent visits them.

use vstd::prelude::*;

use crate::error::TspError;
use crate::permutation::{
    is_permutation, lemma_cover_is_permutation, lemma_permutation_covers,
};

verus! {

/// The mark of a position of the child that has no city yet.
pub const UNASSIGNED: u32 = u32::MAX;

/// Whether the four cut points delimit two segments of a parent of `len`
/// cities: one from the first point to the second, one from the third to the
/// fourth, ends included. A segment may be empty, with its start one past its
/// end.
pub open spec fn segments_fit(len: nat, points: Seq<usize>) -> bool {
    &&& points[0] <= points[1] + 1
    &&& points[1] < len
    &&& points[2] <= points[3] + 1
    &&& points[3] < len
}

/// Whether position `i` lies in one of the two segments.
pub open spec fn frozen(points: Seq<usize>, i: int) -> bool {
    points[0] <= i <= points[1] || points[2] <= i <= points[3]
}

/// The child before it is filled: the parent's cities inside the segments,
/// every other position unassigned.
pub open spec fn template(parent: Seq<u32>, points: Seq<usize>) -> Seq<u32> {
    Seq::new(
        parent.len(),
        |i: int|
            if frozen(points, i) {
                parent[i]
            } else {
                UNASSIGNED
            },
    )
}

/// Whether the parent holds `city` inside one of the segments.
pub open spec fn in_segments(parent: Seq<u32>, points: Seq<usize>, city: u32) -> bool {
    exists|i: int| 0 <= i < parent.len() && frozen(points, i) && #[trigger] parent[i] == city
}

/// Whether `city` is a city of the parent that lies in neither segment.
pub open spec fn displaced(parent: Seq<u32>, points: Seq<usize>, city: u32) -> bool {
    parent.contains(city) && !in_segments(parent, points, city)
}

/// Whether every displaced city of `first` occurs in `second`.
pub open spec fn all_located(first: Seq<u32>, second: Seq<u32>, points: Seq<usize>) -> bool {
    forall|i: int|
        0 <= i < first.len() && displaced(first, points, #[trigger] first[i]) ==> second.contains(
            first[i],
        )
}

/// Whether the city at position `j` does not occur again further right.
pub open spec fn is_last_occurrence(route: Seq<u32>, j: int) -> bool {
    forall|k: int| j < k < route.len() ==> #[trigger] route[k] != route[j]
}

/// The displaced cities of `first` in the order of their last occurrence
/// among the first `upto` positions of `second`.
pub open spec fn survivors_below(
    first: Seq<u32>,
    second: Seq<u32>,
    points: Seq<usize>,
    upto: int,
) -> Seq<u32>
    decreases upto,
{
    if upto <= 0 {
        Seq::empty()
    } else if is_last_occurrence(second, upto - 1) && displaced(first, points, second[upto - 1]) {
        survivors_below(first, second, points, upto - 1).push(second[upto - 1])
    } else {
        survivors_below(first, second, points, upto - 1)
    }
}

/// The displaced cities of `first` in the order in which `second` visits
/// them; a city that `second` visits more than once counts where it is
/// visited last.
pub open spec fn survivors(first: Seq<u32>, second: Seq<u32>, points: Seq<usize>) -> Seq<u32> {
    survivors_below(first, second, points, second.len() as int)
}

/// Whether the child can take `city`: it holds the city already, or it has an
/// unassigned position.
pub open spec fn has_room(child: Seq<u32>, city: u32) -> bool {
    child.contains(city) || child.contains(UNASSIGNED)
}

/// The child after `city` has been placed: unchanged where it holds the city
/// already, else with the city at its first unassigned position.
pub open spec fn placed(child: Seq<u32>, city: u32) -> Seq<u32> {
    if child.contains(city) {
        child
    } else {
        match child.index_of_first(UNASSIGNED) {
            Some(slot) => child.update(slot, city),
            None => child,
        }
    }
}

/// The child after `cities` have been placed one after the other.
pub open spec fn filled(child: Seq<u32>, cities: Seq<u32>) -> Seq<u32>
    decreases cities.len(),
{
    if cities.len() == 0 {
        child
    } else {
        placed(filled(child, cities.drop_last()), cities.last())
    }
}

/// The child of an ordered crossover that keeps the segments of `first` and
/// orders the rest after `second`, or the reason why there is none.
pub open spec fn ordered_child(first: Seq<u32>, second: Seq<u32>, points: Seq<usize>) -> Result<
    Seq<u32>,
    TspError,
> {
    if !segments_fit(first.len(), points) {
        Err(TspError::InvalidCrossoverPoints)
    } else if !all_located(first, second, points) {
        Err(TspError::CityNotFound)
    } else {
        Ok(filled(template(first, points), survivors(first, second, points)))
    }
}

/// The survivors found among fewer positions start the survivors found among
/// more.
pub proof fn lemma_survivors_grow(
    first: Seq<u32>,
    second: Seq<u32>,
    points: Seq<usize>,
    fewer: int,
    more: int,
)
    requires
        0 <= fewer <= more,
    ensures
        survivors_below(first, second, points, fewer).is_prefix_of(
            survivors_below(first, second, points, more),
        ),
    decreases more - fewer,
{
    if fewer < more {
        lemma_survivors_grow(first, second, points, fewer, more - 1);
    }
}

/// Whether one of the first `upto` positions of `route` holds `city` and is
/// the last to hold it.
pub open spec fn last_visited_below(route: Seq<u32>, upto: int, city: u32) -> bool {
    exists|j: int|
        0 <= j < upto && j < route.len() && #[trigger] route[j] == city && is_last_occurrence(
            route,
            j,
        )
}

/// The survivors among the first `upto` positions of `second` are exactly
/// the displaced cities that `second` visits there for the last time, each
/// once.
pub proof fn lemma_survivors_characterized(
    first: Seq<u32>,
    second: Seq<u32>,
    points: Seq<usize>,
    upto: int,
)
    requires
        0 <= upto <= second.len(),
    ensures
        forall|k: int|
            0 <= k < survivors_below(first, second, points, upto).len() ==> {
                &&& displaced(
                    first,
                    points,
                    #[trigger] survivors_below(first, second, points, upto)[k],
                )
                &&& last_visited_below(
                    second,
                    upto,
                    survivors_below(first, second, points, upto)[k],
                )
            },
        forall|k: int, l: int|
            0 <= k < l < survivors_below(first, second, points, upto).len() ==> (
            #[trigger] survivors_below(first, second, points, upto)[k])
                != #[trigger] survivors_below(first, second, points, upto)[l],
        forall|j: int|
            0 <= j < upto && is_last_occurrence(second, j) && displaced(
                first,
                points,
                #[trigger] second[j],
            ) ==> survivors_below(first, second, points, upto).contains(second[j]),
    decreases upto,
{
    if upto > 0 {
        let earlier = survivors_below(first, second, points, upto - 1);
        let all = survivors_below(first, second, points, upto);
        let city = second[upto - 1];
        lemma_survivors_characterized(first, second, points, upto - 1);
        assert forall|k: int| 0 <= k < all.len() implies {
            &&& displaced(first, points, #[trigger] all[k])
            &&& last_visited_below(second, upto, all[k])
        } by {
            if k < earlier.len() {
                assert(all[k] == earlier[k]);
                assert(last_visited_below(second, upto - 1, earlier[k]));
                let j = choose|j: int|
                    0 <= j < upto - 1 && j < second.len() && #[trigger] second[j] == earlier[k]
                        && is_last_occurrence(second, j);
                assert(second[j] == all[k]);
            } else {
                assert(all[k] == city);
                assert(second[upto - 1] == city);
            }
        }
        assert forall|k: int, l: int| 0 <= k < l < all.len() implies (#[trigger] all[k])
            != #[trigger] all[l] by {
            assert(all[k] == earlier[k]);
            if l < earlier.len() {
                assert(all[l] == earlier[l]);
            } else {
                assert(all[l] == city);
                assert(last_visited_below(second, upto - 1, earlier[k]));
                let j = choose|j: int|
                    0 <= j < upto - 1 && j < second.len() && #[trigger] second[j] == earlier[k]
                        && is_last_occurrence(second, j);
                assert(second[upto - 1] != second[j]);
            }
        }
        assert forall|j: int|
            0 <= j < upto && is_last_occurrence(second, j) && displaced(
                first,
                points,
                #[trigger] second[j],
            ) implies all.contains(second[j]) by {
            if j < upto - 1 {
                assert(earlier.contains(second[j]));
                let k = choose|k: int| 0 <= k < earlier.len() && earlier[k] == second[j];
                assert(all[k] == second[j]);
            } else {
                assert(all[all.len() - 1] == city);
            }
        }
    }
}

/// Whether `seat` reserves an unassigned position of the child for every
/// displaced city that is not among `done`, a different one for each.
pub open spec fn seats_pending(
    parent: Seq<u32>,
    points: Seq<usize>,
    done: Seq<u32>,
    child: Seq<u32>,
    seat: spec_fn(u32) -> int,
) -> bool {
    &&& child.len() == parent.len()
    &&& forall|city: u32|
        displaced(parent, points, city) && !done.contains(city) ==> 0 <= #[trigger] seat(city)
            < child.len() && child[seat(city)] == UNASSIGNED
    &&& forall|a: u32, b: u32|
        displaced(parent, points, a) && displaced(parent, points, b) && !done.contains(a)
            && !done.contains(b) && a != b ==> #[trigger] seat(a) != #[trigger] seat(b)
}

/// While the child is filled, every displaced city that is still to come has
/// an unassigned position of its own; `seat` names one for each.
pub proof fn lemma_room_to_fill(
    first: Seq<u32>,
    second: Seq<u32>,
    points: Seq<usize>,
    count: int,
) -> (seat: spec_fn(u32) -> int)
    requires
        0 <= count <= survivors(first, second, points).len(),
    ensures
        seats_pending(
            first,
            points,
            survivors(first, second, points).take(count),
            filled(template(first, points), survivors(first, second, points).take(count)),
            seat,
        ),
    decreases count,
{
    let start = template(first, points);
    let all = survivors(first, second, points);
    let done = all.take(count);
    if count == 0 {
        let seat = |city: u32| first.index_of(city);
        assert(filled(start, done) == start);
        assert forall|city: u32|
            displaced(first, points, city) && !done.contains(city) implies 0 <= #[trigger] seat(
            city,
        ) < start.len() && start[seat(city)] == UNASSIGNED by {
            let i = first.index_of(city);
            assert(0 <= i < first.len() && first[i] == city);
            if frozen(points, i) {
                assert(in_segments(first, points, city));
            }
        }
        assert forall|a: u32, b: u32|
            displaced(first, points, a) && displaced(first, points, b) && !done.contains(a)
                && !done.contains(b) && a != b implies #[trigger] seat(a) != #[trigger] seat(
            b,
        ) by {
            assert(first[first.index_of(a)] == a);
            assert(first[first.index_of(b)] == b);
        }
        seat
    } else {
        let earlier = lemma_room_to_fill(first, second, points, count - 1);
        lemma_survivors_characterized(first, second, points, second.len() as int);
        let before = all.take(count - 1);
        let partial = filled(start, before);
        let city = all[count - 1];
        assert(done.drop_last() =~= before);
        assert(done.last() == city);
        assert(filled(start, done) == placed(partial, city));
        assert(!before.contains(city)) by {
            if before.contains(city) {
                let k = choose|k: int| 0 <= k < before.len() && before[k] == city;
                assert(all[k] != all[count - 1]);
            }
        }
        assert(partial[earlier(city)] == UNASSIGNED);
        partial.index_of_first_ensures(UNASSIGNED);
        assert forall|other: u32| !done.contains(other) implies !before.contains(other) by {
            if before.contains(other) {
                let k = choose|k: int| 0 <= k < before.len() && before[k] == other;
                assert(done[k] == other);
            }
        }
        assert forall|other: u32| !done.contains(other) implies other != city by {
            assert(done[count - 1] == city);
        }
        if partial.contains(city) {
            earlier
        } else {
            let slot = partial.index_of_first(UNASSIGNED)->Some_0;
            let next = partial.update(slot, city);
            let spare = earlier(city);
            let seat = |other: u32|
                if earlier(other) == slot {
                    spare
                } else {
                    earlier(other)
                };
            assert forall|other: u32|
                displaced(first, points, other) && !done.contains(other) implies 0
                <= #[trigger] seat(other) < next.len() && next[seat(other)] == UNASSIGNED by {
                assert(earlier(other) != earlier(city));
            }
            assert forall|a: u32, b: u32|
                displaced(first, points, a) && displaced(first, points, b) && !done.contains(a)
                    && !done.contains(b) && a != b implies #[trigger] seat(a) != #[trigger] seat(
                b,
            ) by {
                assert(earlier(a) != earlier(b));
                assert(earlier(a) != earlier(city));
                assert(earlier(b) != earlier(city));
            }
            seat
        }
    }
}

/// Every survivor finds room in the child when its turn comes.
pub proof fn lemma_survivor_has_room(
    first: Seq<u32>,
    second: Seq<u32>,
    points: Seq<usize>,
    turn: int,
)
    requires
        0 <= turn < survivors(first, second, points).len(),
    ensures
        has_room(
            filled(template(first, points), survivors(first, second, points).take(turn)),
            survivors(first, second, points)[turn],
        ),
{
    let all = survivors(first, second, points);
    let city = all[turn];
    let partial = filled(template(first, points), all.take(turn));
    let seat = lemma_room_to_fill(first, second, points, turn);
    lemma_survivors_characterized(first, second, points, second.len() as int);
    assert(!all.take(turn).contains(city)) by {
        if all.take(turn).contains(city) {
            let k = choose|k: int| 0 <= k < all.take(turn).len() && all.take(turn)[k] == city;
            assert(all[k] != all[turn]);
        }
    }
    assert(partial[seat(city)] == UNASSIGNED);
}

/// What holds of the child of two permutations while it is filled, after the
/// cities `done` have been placed: the segments are those of the parent, no
/// city occurs twice, and what is assigned is a city of a segment or one of
/// `done`, all of which are there.
pub open spec fn partly_filled(
    parent: Seq<u32>,
    points: Seq<usize>,
    done: Seq<u32>,
    child: Seq<u32>,
) -> bool {
    &&& child.len() == parent.len()
    &&& forall|i: int|
        0 <= i < child.len() && frozen(points, i) ==> #[trigger] child[i] == parent[i]
    &&& forall|i: int|
        0 <= i < child.len() && #[trigger] child[i] != UNASSIGNED ==> child[i] < child.len() && (
        in_segments(parent, points, child[i]) || done.contains(child[i]))
    &&& forall|k: int| 0 <= k < done.len() ==> child.contains(#[trigger] done[k])
}

/// Between two permutations of the same cities, the first `count` survivors
/// are all placed, and the segments stay as they are.
pub proof fn lemma_fill_progress(
    first: Seq<u32>,
    second: Seq<u32>,
    points: Seq<usize>,
    count: int,
)
    requires
        is_permutation(first),
        is_permutation(second),
        first.len() == second.len(),
        first.len() <= u32::MAX,
        0 <= count <= survivors(first, second, points).len(),
    ensures
        partly_filled(
            first,
            points,
            survivors(first, second, points).take(count),
            filled(template(first, points), survivors(first, second, points).take(count)),
        ),
    decreases count,
{
    let n = first.len();
    let start = template(first, points);
    let all = survivors(first, second, points);
    let done = all.take(count);
    if count == 0 {
        assert(filled(start, done) == start);
        assert forall|i: int|
            0 <= i < start.len() && #[trigger] start[i] != UNASSIGNED implies start[i]
            < start.len() && (in_segments(first, points, start[i]) || done.contains(start[i])) by {
            assert(frozen(points, i) && first[i] == start[i]);
        }
    } else {
        lemma_fill_progress(first, second, points, count - 1);
        lemma_survivors_characterized(first, second, points, second.len() as int);
        lemma_survivor_has_room(first, second, points, count - 1);
        let before = all.take(count - 1);
        let partial = filled(start, before);
        let city = all[count - 1];
        assert(done.drop_last() =~= before);
        assert(done.last() == city);
        assert(filled(start, done) == placed(partial, city));
        assert(displaced(first, points, city));
        assert(city < n) by {
            let i = choose|i: int| 0 <= i < first.len() && first[i] == city;
            assert(first[i] < first.len());
        }
        assert(!partial.contains(city)) by {
            if partial.contains(city) {
                let i = choose|i: int| 0 <= i < partial.len() && partial[i] == city;
                assert(partial[i] != UNASSIGNED);
                assert(before.contains(partial[i]));
                let k = choose|k: int| 0 <= k < before.len() && before[k] == city;
                assert(all[k] == before[k]);
                assert(all[k] != all[count - 1]);
            }
        }
        partial.index_of_first_ensures(UNASSIGNED);
        let slot = partial.index_of_first(UNASSIGNED)->Some_0;
        let next = partial.update(slot, city);
        assert(filled(start, done) == next);
        assert forall|i: int| 0 <= i < next.len() && frozen(points, i) implies #[trigger] next[i]
            == first[i] by {
            assert(partial[i] == first[i]);
            assert(first[i] < first.len());
        }
        assert forall|i: int|
            0 <= i < next.len() && #[trigger] next[i] != UNASSIGNED implies next[i] < next.len()
            && (in_segments(first, points, next[i]) || done.contains(next[i])) by {
            if i == slot {
                assert(done[count - 1] == city);
            } else {
                assert(partial[i] == next[i]);
                if before.contains(partial[i]) {
                    let k = choose|k: int| 0 <= k < before.len() && before[k] == partial[i];
                    assert(done[k] == partial[i]);
                }
            }
        }
        assert forall|k: int| 0 <= k < done.len() implies next.contains(#[trigger] done[k]) by {
            if k < count - 1 {
                assert(before[k] == done[k]);
                assert(partial.contains(before[k]));
                let i = choose|i: int| 0 <= i < partial.len() && partial[i] == before[k];
                assert(i != slot);
                assert(next[i] == done[k]);
            } else {
                assert(next[slot] == city);
            }
        }
    }
}

/// The ordered crossover of two permutations of the same cities has a child:
/// a permutation of those cities that agrees with `first` on both segments.
pub proof fn lemma_ordered_child_is_permutation(
    first: Seq<u32>,
    second: Seq<u32>,
    points: Seq<usize>,
)
    requires
        is_permutation(first),
        is_permutation(second),
        first.len() == second.len(),
        first.len() <= u32::MAX,
        segments_fit(first.len(), points),
    ensures
        ordered_child(first, second, points) is Ok,
        is_permutation(ordered_child(first, second, points)->Ok_0),
        ordered_child(first, second, points)->Ok_0.len() == first.len(),
        forall|i: int|
            0 <= i < first.len() && frozen(points, i) ==> (#[trigger] ordered_child(
                first,
                second,
                points,
            )->Ok_0[i]) == first[i],
{
    let n = first.len();
    let all = survivors(first, second, points);
    lemma_permutation_covers(first);
    lemma_permutation_covers(second);
    assert(all_located(first, second, points)) by {
        assert forall|i: int|
            0 <= i < first.len() && displaced(
                first,
                points,
                #[trigger] first[i],
            ) implies second.contains(first[i]) by {
            assert(first[i] < n);
        }
    }
    lemma_fill_progress(first, second, points, all.len() as int);
    lemma_survivors_characterized(first, second, points, second.len() as int);
    assert(all.take(all.len() as int) =~= all);
    let child = filled(template(first, points), all);
    assert(ordered_child(first, second, points) == Ok::<Seq<u32>, TspError>(child));
    assert forall|city: u32| city < n implies #[trigger] child.contains(city) by {
        assert(first.contains(city));
        if in_segments(first, points, city) {
            let i = choose|i: int|
                0 <= i < first.len() && frozen(points, i) && #[trigger] first[i] == city;
            assert(child[i] == city);
        } else {
            assert(second.contains(city));
            let j = choose|j: int| 0 <= j < second.len() && second[j] == city;
            assert(is_last_occurrence(second, j));
            assert(displaced(first, points, second[j]));
            assert(all.contains(city));
            let k = choose|k: int| 0 <= k < all.len() && all[k] == city;
            assert(child.contains(all[k]));
        }
    }
    lemma_cover_is_permutation(child);
}

/// Whether `route` holds `city`.
pub(crate) fn holds(route: &[u32], city: u32) -> (found: bool)
    ensures
        found == route@.contains(city),
{
    let mut x: usize = 0;
    while x < route.len()
        invariant
            x <= route.len(),
            forall|y: int| 0 <= y < x ==> route@[y] != city,
        decreases route.len() - x,
    {
        if route[x] == city {
            return true;
        }
        x += 1;
    }
    false
}

/// Whether the parent holds `city` inside one of the two segments.
pub(crate) fn holds_in_segments(parent: &[u32], points: &[usize], city: u32) -> (found: bool)
    requires
        points@.len() >= 4,
    ensures
        found == in_segments(parent@, points@, city),
{
    let mut i: usize = 0;
    while i < parent.len()
        invariant
            i <= parent.len(),
            points@.len() >= 4,
            forall|x: int| 0 <= x < i && frozen(points@, x) ==> parent@[x] != city,
        decreases parent.len() - i,
    {
        let inside = (points[0] <= i && i <= points[1]) || (points[2] <= i && i <= points[3]);
        if inside && parent[i] == city {
            return true;
        }
        i += 1;
    }
    false
}

/// Whether the city at position `j` does not occur again further right.
pub(crate) fn last_occurrence(route: &[u32], j: usize) -> (last: bool)
    requires
        j < route@.len(),
    ensures
        last == is_last_occurrence(route@, j as int),
{
    let len = route.len();
    let mut k: usize = j + 1;
    while k < len
        invariant
            len == route@.len(),
            j < k <= len,
            forall|x: int| j < x < k ==> #[trigger] route@[x] != route@[j as int],
        decreases len - k,
    {
        if route[k] == route[j] {
            return false;
        }
        k += 1;
    }
    true
}

/// Places `city` in the child: nothing changes where the child holds it
/// already; else it goes to the first unassigned position.
pub(crate) fn place(child: &mut Vec<u32>, city: u32)
    requires
        has_room(old(child)@, city),
    ensures
        final(child)@ == placed(old(child)@, city),
{
    if holds(child.as_slice(), city) {
        return ;
    }
    let mut slot: usize = 0;
    while slot < child.len()
        invariant
            slot <= child.len(),
            child@ == old(child)@,
            !child@.contains(city),
            child@.contains(UNASSIGNED),
            forall|y: int| 0 <= y < slot ==> child@[y] != UNASSIGNED,
        decreases child.len() - slot,
    {
        if child[slot] == UNASSIGNED {
            proof {
                child@.index_of_first_ensures(UNASSIGNED);
            }
            child.set(slot, city);
            return ;
        }
        slot += 1;
    }
    proof {
        let found = choose|i: int| 0 <= i < child@.len() && child@[i] == UNASSIGNED;
        assert(child@[found] != UNASSIGNED);
    }
}

/// Sorts the points in ascending order.
pub fn sort_ascending(points: &mut Vec<usize>)
    ensures
        final(points)@.to_multiset() == old(points)@.to_multiset(),
        final(points)@.len() == old(points)@.len(),
        forall|i: int, j: int|
            0 <= i <= j < final(points)@.len() ==> final(points)@[i] <= final(points)@[j],
{
    let n = points.len();
    let mut i: usize = 1;
    while i < n
        invariant
            n == points@.len(),
            points@.to_multiset() == old(points)@.to_multiset(),
            forall|a: int, b: int| 0 <= a <= b < i && b < n ==> points@[a] <= points@[b],
        decreases n - i,
    {
        let mut j: usize = i;
        while j > 0 && points[j - 1] > points[j]
            invariant
                j <= i < n,
                n == points@.len(),
                points@.to_multiset() == old(points)@.to_multiset(),
                forall|a: int, b: int| 0 <= a <= b < j ==> points@[a] <= points@[b],
                forall|a: int, b: int| j <= a <= b <= i ==> points@[a] <= points@[b],
                forall|a: int, b: int| 0 <= a < j < b <= i ==> points@[a] <= points@[b],
            decreases j,
        {
            let ghost before = points@;
            let left = points[j - 1];
            let right = points[j];
            points.set(j - 1, right);
            points.set(j, left);
            proof {
                broadcast use vstd::multiset::group_multiset_axioms;

                let middle = before.update(j - 1, right);
                vstd::seq_lib::to_multiset_update(before, j - 1, right);
                vstd::seq_lib::to_multiset_update(middle, j as int, left);
                assert(points@ =~= middle.update(j as int, left));
                let bag = before.to_multiset();
                assert(middle.to_multiset() == bag.insert(right).remove(left));
                assert(points@.to_multiset() == middle.to_multiset().insert(left).remove(right));
                assert forall|x: usize| points@.to_multiset().count(x) == bag.count(x) by {
                    vstd::seq_lib::to_multiset_contains(before, left);
                    assert(before.contains(left)) by {
                        assert(before[j - 1] == left);
                    }
                }
                assert(points@.to_multiset() =~= bag);
            }
            j -= 1;
        }
        i += 1;
    }
}

/// Distinct points in ascending order are strictly ascending.
pub proof fn lemma_sorted_distinct(sorted: Seq<usize>, sample: Seq<usize>, length: nat)
    requires
        sorted.to_multiset() == sample.to_multiset(),
        sample.no_duplicates(),
        forall|k: int| 0 <= k < sample.len() ==> #[trigger] sample[k] < length,
        forall|i: int, j: int| 0 <= i <= j < sorted.len() ==> sorted[i] <= sorted[j],
    ensures
        sorted.len() == sample.len(),
        forall|i: int, j: int| 0 <= i < j < sorted.len() ==> sorted[i] < sorted[j],
        forall|k: int| 0 <= k < sorted.len() ==> #[trigger] sorted[k] < length,
{
    broadcast use vstd::seq_lib::to_multiset_len, vstd::seq_lib::to_multiset_contains;

    sample.lemma_multiset_has_no_duplicates();
    sorted.lemma_multiset_has_no_duplicates_conv();
    assert(sorted.len() == sorted.to_multiset().len());
    assert(sample.len() == sample.to_multiset().len());
    assert forall|k: int| 0 <= k < sorted.len() implies #[trigger] sorted[k] < length by {
        assert(sorted.contains(sorted[k]));
        assert(sorted.to_multiset().count(sorted[k]) > 0);
        assert(sample.contains(sorted[k]));
        let x = choose|x: int| 0 <= x < sample.len() && sample[x] == sorted[k];
        assert(sample[x] < length);
    }
}

} // verus!
