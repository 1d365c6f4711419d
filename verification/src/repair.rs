//! The repair that follows a one-point crossover: cities that the child now
//! holds twice make room for the cities it has lost.

use vstd::prelude::*;

use crate::ordered::holds;
use crate::permutation::{is_permutation, lemma_cover_is_permutation};

verus! {

/// The child of a one-point crossover before its repair: the first `cut`
/// cities of `head`, then the cities of `tail` from position `cut` on.
pub open spec fn spliced(head: Seq<u32>, tail: Seq<u32>, cut: int) -> Seq<u32> {
    head.subrange(0, cut) + tail.subrange(cut, tail.len() as int)
}

/// For position `i`, one entry `i` for every position `j` with
/// `i < j < upto` that holds the same city.
pub open spec fn twins_of(child: Seq<u32>, i: int, upto: int) -> Seq<usize>
    decreases upto,
{
    if upto <= 0 {
        Seq::empty()
    } else if i < upto - 1 && child[i] == child[upto - 1] {
        twins_of(child, i, upto - 1).push(i as usize)
    } else {
        twins_of(child, i, upto - 1)
    }
}

/// The positions below `rows` whose city occurs again further right, from
/// left to right, each listed once per later occurrence.
pub open spec fn duplicates_below(child: Seq<u32>, rows: int) -> Seq<usize>
    decreases rows,
{
    if rows <= 0 {
        Seq::empty()
    } else {
        duplicates_below(child, rows - 1) + twins_of(child, rows - 1, child.len() as int)
    }
}

/// The positions whose city occurs again further right, from left to right.
pub open spec fn duplicate_positions(child: Seq<u32>) -> Seq<usize> {
    duplicates_below(child, child.len() as int)
}

/// The cities below `below` that `child` does not hold, in ascending order.
pub open spec fn absent_below(child: Seq<u32>, below: int) -> Seq<u32>
    decreases below,
{
    if below <= 0 {
        Seq::empty()
    } else if child.contains((below - 1) as u32) {
        absent_below(child, below - 1)
    } else {
        absent_below(child, below - 1).push((below - 1) as u32)
    }
}

/// The cities of `0..child.len()` that `child` does not hold, in ascending
/// order.
pub open spec fn absent_cities(child: Seq<u32>) -> Seq<u32> {
    absent_below(child, child.len() as int)
}

/// `child` after the first `count` replacements: replacement `k` writes
/// `cities[k]` at `positions[k]`.
pub open spec fn replaced(
    child: Seq<u32>,
    positions: Seq<usize>,
    cities: Seq<u32>,
    count: int,
) -> Seq<u32>
    decreases count,
{
    if count <= 0 {
        child
    } else {
        replaced(child, positions, cities, count - 1).update(
            positions[count - 1] as int,
            cities[count - 1],
        )
    }
}

/// The repaired child: the duplicated positions, taken from left to right,
/// receive the absent cities, taken in ascending order, for as long as both
/// last.
pub open spec fn repaired(child: Seq<u32>) -> Seq<u32> {
    let positions = duplicate_positions(child);
    let cities = absent_cities(child);
    let count = if positions.len() <= cities.len() {
        positions.len()
    } else {
        cities.len()
    };
    replaced(child, positions, cities, count as int)
}

/// Every entry that position `i` contributes is `i` itself.
pub proof fn lemma_twins_in_bounds(child: Seq<u32>, i: int, upto: int)
    requires
        0 <= i < child.len(),
        upto <= child.len() <= usize::MAX,
    ensures
        forall|k: int|
            0 <= k < twins_of(child, i, upto).len() ==> #[trigger] twins_of(child, i, upto)[k]
                == i,
    decreases upto,
{
    if upto > 0 {
        lemma_twins_in_bounds(child, i, upto - 1);
        let earlier = twins_of(child, i, upto - 1);
        assert forall|k: int| 0 <= k < twins_of(child, i, upto).len() implies #[trigger] twins_of(
            child,
            i,
            upto,
        )[k] == i by {
            if k < earlier.len() {
                assert(twins_of(child, i, upto)[k] == earlier[k]);
            }
        }
    }
}

/// Every listed duplicate is a position of the child.
pub proof fn lemma_duplicates_in_bounds(child: Seq<u32>, rows: int)
    requires
        rows <= child.len() <= usize::MAX,
    ensures
        forall|k: int|
            0 <= k < duplicates_below(child, rows).len() ==> (#[trigger] duplicates_below(
                child,
                rows,
            )[k]) < child.len(),
    decreases rows,
{
    if rows > 0 {
        lemma_duplicates_in_bounds(child, rows - 1);
        lemma_twins_in_bounds(child, rows - 1, child.len() as int);
        let earlier = duplicates_below(child, rows - 1);
        let row = twins_of(child, rows - 1, child.len() as int);
        assert forall|k: int| 0 <= k < duplicates_below(child, rows).len() implies (
        #[trigger] duplicates_below(child, rows)[k]) < child.len() by {
            if k < earlier.len() {
                assert(duplicates_below(child, rows)[k] == earlier[k]);
            } else {
                assert(duplicates_below(child, rows)[k] == row[k - earlier.len()]);
            }
        }
    }
}

/// Whether the city at position `i` occurs again further right.
pub open spec fn has_twin(child: Seq<u32>, i: int) -> bool {
    exists|j: int| i < j < child.len() && #[trigger] child[j] == child[i]
}

/// Whether no city occurs three times.
pub open spec fn at_most_twice(child: Seq<u32>) -> bool {
    forall|i: int, j: int, k: int|
        0 <= i < j < k < child.len() ==> !(#[trigger] child[i] == #[trigger] child[j] && child[i]
            == #[trigger] child[k])
}

/// Whether `x` is one of the first `count` entries of `positions`.
pub open spec fn listed(positions: Seq<usize>, count: int, x: int) -> bool {
    exists|t: int| 0 <= t < count && #[trigger] positions[t] == x
}

/// Position `i` contributes an entry exactly when its city occurs again
/// between `i` and `upto`.
pub proof fn lemma_twins_exist(child: Seq<u32>, i: int, upto: int)
    requires
        0 <= i < child.len(),
        upto <= child.len(),
    ensures
        twins_of(child, i, upto).len() > 0 <==> exists|j: int|
            i < j < upto && #[trigger] child[j] == child[i],
    decreases upto,
{
    if upto > 0 {
        lemma_twins_exist(child, i, upto - 1);
        if i < upto - 1 && child[i] == child[upto - 1] {
            assert(child[upto - 1] == child[i]);
        } else if exists|j: int| i < j < upto && #[trigger] child[j] == child[i] {
            let j = choose|j: int| i < j < upto && #[trigger] child[j] == child[i];
            assert(j < upto - 1);
        }
    }
}

/// Where no city occurs three times, a position contributes at most one
/// entry.
pub proof fn lemma_twins_single(child: Seq<u32>, i: int, upto: int)
    requires
        0 <= i < child.len(),
        upto <= child.len(),
        at_most_twice(child),
    ensures
        twins_of(child, i, upto).len() <= 1,
    decreases upto,
{
    if upto > 0 {
        lemma_twins_single(child, i, upto - 1);
        if i < upto - 1 && child[i] == child[upto - 1] {
            lemma_twins_exist(child, i, upto - 1);
            if twins_of(child, i, upto - 1).len() > 0 {
                let j = choose|j: int| i < j < upto - 1 && #[trigger] child[j] == child[i];
                assert(child[i] == child[j] && child[i] == child[upto - 1]);
            }
        }
    }
}

/// Where no city occurs three times, the duplicates below `rows` are exactly
/// the positions below `rows` whose city occurs again further right, in
/// ascending order.
pub proof fn lemma_duplicates_characterized(child: Seq<u32>, rows: int)
    requires
        rows <= child.len() <= usize::MAX,
        at_most_twice(child),
    ensures
        forall|t: int|
            0 <= t < duplicates_below(child, rows).len() ==> {
                &&& (#[trigger] duplicates_below(child, rows)[t]) < rows
                &&& has_twin(child, duplicates_below(child, rows)[t] as int)
            },
        forall|s: int, t: int|
            0 <= s < t < duplicates_below(child, rows).len() ==> (#[trigger] duplicates_below(
                child,
                rows,
            )[s]) < #[trigger] duplicates_below(child, rows)[t],
        forall|i: int|
            0 <= i < rows && #[trigger] has_twin(child, i) ==> listed(
                duplicates_below(child, rows),
                duplicates_below(child, rows).len() as int,
                i,
            ),
    decreases rows,
{
    if rows > 0 {
        let len = child.len() as int;
        let earlier = duplicates_below(child, rows - 1);
        let row = twins_of(child, rows - 1, len);
        let all = duplicates_below(child, rows);
        lemma_duplicates_characterized(child, rows - 1);
        lemma_twins_in_bounds(child, rows - 1, len);
        lemma_twins_exist(child, rows - 1, len);
        lemma_twins_single(child, rows - 1, len);
        assert(all == earlier + row);
        assert forall|t: int| 0 <= t < all.len() implies {
            &&& (#[trigger] all[t]) < rows
            &&& has_twin(child, all[t] as int)
        } by {
            if t < earlier.len() {
                assert(all[t] == earlier[t]);
            } else {
                assert(all[t] == row[t - earlier.len()]);
                assert(row.len() > 0);
            }
        }
        assert forall|s: int, t: int| 0 <= s < t < all.len() implies (#[trigger] all[s])
            < #[trigger] all[t] by {
            assert(all[s] == earlier[s]);
            if t < earlier.len() {
                assert(all[t] == earlier[t]);
            } else {
                assert(all[t] == row[t - earlier.len()]);
            }
        }
        assert forall|i: int| 0 <= i < rows && #[trigger] has_twin(child, i) implies listed(
            all,
            all.len() as int,
            i,
        ) by {
            if i < rows - 1 {
                assert(listed(earlier, earlier.len() as int, i));
                let t = choose|t: int| 0 <= t < earlier.len() && #[trigger] earlier[t] == i;
                assert(all[t] == i);
            } else {
                assert(row.len() > 0);
                assert(all[earlier.len() as int] == row[0]);
            }
        }
    }
}

/// The absent cities below `below` are exactly the cities below `below` that
/// the child does not hold, in ascending order.
pub proof fn lemma_absent_characterized(child: Seq<u32>, below: int)
    requires
        below <= u32::MAX + 1,
    ensures
        forall|t: int|
            0 <= t < absent_below(child, below).len() ==> {
                &&& (#[trigger] absent_below(child, below)[t]) < below
                &&& !child.contains(absent_below(child, below)[t])
            },
        forall|s: int, t: int|
            0 <= s < t < absent_below(child, below).len() ==> (#[trigger] absent_below(
                child,
                below,
            )[s]) < #[trigger] absent_below(child, below)[t],
        forall|city: u32|
            city < below && !child.contains(city) ==> #[trigger] absent_below(
                child,
                below,
            ).contains(city),
    decreases below,
{
    if below > 0 {
        let earlier = absent_below(child, below - 1);
        let all = absent_below(child, below);
        let top = (below - 1) as u32;
        lemma_absent_characterized(child, below - 1);
        assert forall|t: int| 0 <= t < all.len() implies {
            &&& (#[trigger] all[t]) < below
            &&& !child.contains(all[t])
        } by {
            if t < earlier.len() {
                assert(all[t] == earlier[t]);
            }
        }
        assert forall|s: int, t: int| 0 <= s < t < all.len() implies (#[trigger] all[s])
            < #[trigger] all[t] by {
            assert(all[s] == earlier[s]);
            if t < earlier.len() {
                assert(all[t] == earlier[t]);
            }
        }
        assert forall|city: u32|
            city < below && !child.contains(city) implies #[trigger] all.contains(city) by {
            if city < below - 1 {
                assert(earlier.contains(city));
                let t = choose|t: int| 0 <= t < earlier.len() && earlier[t] == city;
                assert(all[t] == city);
            } else {
                assert(city == top);
                assert(all[all.len() - 1] == top);
            }
        }
    }
}

/// After `count` replacements at distinct positions, replacement `t` is at
/// its position and every other position holds what it held.
pub proof fn lemma_replaced_characterized(
    child: Seq<u32>,
    positions: Seq<usize>,
    cities: Seq<u32>,
    count: int,
)
    requires
        0 <= count <= positions.len(),
        count <= cities.len(),
        forall|k: int| 0 <= k < positions.len() ==> #[trigger] positions[k] < child.len(),
        forall|s: int, t: int|
            0 <= s < t < positions.len() ==> #[trigger] positions[s] < #[trigger] positions[t],
    ensures
        replaced(child, positions, cities, count).len() == child.len(),
        forall|t: int|
            0 <= t < count ==> replaced(
                child,
                positions,
                cities,
                count,
            )[#[trigger] positions[t] as int] == cities[t],
        forall|x: int|
            0 <= x < child.len() && !listed(positions, count, x) ==> #[trigger] replaced(
                child,
                positions,
                cities,
                count,
            )[x] == child[x],
    decreases count,
{
    if count > 0 {
        lemma_replaced_characterized(child, positions, cities, count - 1);
        let earlier = replaced(child, positions, cities, count - 1);
        let now = replaced(child, positions, cities, count);
        assert(now == earlier.update(positions[count - 1] as int, cities[count - 1]));
        assert forall|t: int| 0 <= t < count implies now[#[trigger] positions[t] as int]
            == cities[t] by {
            if t < count - 1 {
                assert(positions[t] < positions[count - 1]);
            }
        }
        assert forall|x: int|
            0 <= x < child.len() && !listed(positions, count, x) implies #[trigger] now[x]
            == child[x] by {
            assert(positions[count - 1] != x);
            if listed(positions, count - 1, x) {
                let t = choose|t: int| 0 <= t < count - 1 && #[trigger] positions[t] == x;
                assert(0 <= t < count && positions[t] == x);
            }
        }
    }
}

/// The repaired child of a one-point crossover between two permutations of
/// the same cities is a permutation of those cities.
pub proof fn lemma_repaired_is_permutation(head: Seq<u32>, tail: Seq<u32>, cut: int)
    requires
        is_permutation(head),
        is_permutation(tail),
        head.len() == tail.len(),
        0 <= cut <= head.len(),
        head.len() <= u32::MAX,
    ensures
        is_permutation(repaired(spliced(head, tail, cut))),
        repaired(spliced(head, tail, cut)).len() == head.len(),
{
    let child = spliced(head, tail, cut);
    let n = head.len() as int;
    let positions = duplicate_positions(child);
    let cities = absent_cities(child);
    assert(child.len() == n);
    assert forall|i: int| 0 <= i < n implies #[trigger] child[i] == (if i < cut {
        head[i]
    } else {
        tail[i]
    }) && child[i] < n by {}
    // Equal cities sit on either side of the cut.
    assert forall|i: int, j: int| 0 <= i < j < n && child[i] == child[j] implies i < cut <= j by {
        if j < cut {
            assert(head[i] != head[j]);
        } else if i >= cut {
            assert(tail[i] != tail[j]);
        }
    }
    assert(at_most_twice(child)) by {
        assert forall|i: int, j: int, k: int| 0 <= i < j < k < child.len() implies !(
        #[trigger] child[i] == #[trigger] child[j] && child[i] == #[trigger] child[k]) by {
            if child[i] == child[j] && child[i] == child[k] {
                assert(i < cut <= j);
                assert(tail[j] != tail[k]);
            }
        }
    }
    lemma_duplicates_characterized(child, n);
    lemma_absent_characterized(child, n);
    // A duplicated position lies before the cut, its twin behind it, and the
    // twin is no duplicated position itself.
    assert forall|x: int| 0 <= x < n && listed(positions, positions.len() as int, x) implies x
        < cut by {
        let t = choose|t: int| 0 <= t < positions.len() && #[trigger] positions[t] == x;
        assert(has_twin(child, positions[t] as int));
        let j = choose|j: int| x < j < child.len() && #[trigger] child[j] == child[x];
        assert(x < cut <= j);
    }
    if cities.len() < positions.len() {
        // Were there fewer absent cities than duplicates, placing them all
        // would complete the child while a duplicate is left.
        let count = cities.len() as int;
        let partial = replaced(child, positions, cities, count);
        lemma_replaced_characterized(child, positions, cities, count);
        assert forall|city: u32| city < n implies #[trigger] partial.contains(city) by {
            if child.contains(city) {
                let x = choose|x: int| 0 <= x < child.len() && child[x] == city;
                if listed(positions, count, x) {
                    let t = choose|t: int| 0 <= t < count && #[trigger] positions[t] == x;
                    assert(has_twin(child, positions[t] as int));
                    let j = choose|j: int| x < j < child.len() && #[trigger] child[j] == child[x];
                    assert(x < cut <= j);
                    if listed(positions, count, j) {
                        let u = choose|u: int| 0 <= u < count && #[trigger] positions[u] == j;
                        assert(listed(positions, positions.len() as int, j));
                    }
                    assert(partial[j] == city);
                } else {
                    assert(partial[x] == city);
                }
            } else {
                assert(cities.contains(city));
                let t = choose|t: int| 0 <= t < cities.len() && cities[t] == city;
                assert(partial[positions[t] as int] == city);
            }
        }
        lemma_cover_is_permutation(partial);
        let spare = positions[count] as int;
        assert(has_twin(child, spare));
        let j = choose|j: int| spare < j < child.len() && #[trigger] child[j] == child[spare];
        assert(listed(positions, positions.len() as int, spare));
        assert(!listed(positions, count, spare)) by {
            if listed(positions, count, spare) {
                let t = choose|t: int| 0 <= t < count && #[trigger] positions[t] == spare;
                assert(positions[t] < positions[count]);
            }
        }
        assert(!listed(positions, count, j)) by {
            if listed(positions, count, j) {
                let u = choose|u: int| 0 <= u < count && #[trigger] positions[u] == j;
                assert(listed(positions, positions.len() as int, j));
            }
        }
        assert(partial[spare] == child[spare]);
        assert(partial[j] == child[j]);
        assert(false);
    }
    let count = positions.len() as int;
    let mended = repaired(child);
    assert(mended == replaced(child, positions, cities, count));
    lemma_replaced_characterized(child, positions, cities, count);
    assert forall|x: int| 0 <= x < n implies #[trigger] mended[x] < n by {
        if listed(positions, count, x) {
            let t = choose|t: int| 0 <= t < count && #[trigger] positions[t] == x;
            assert(mended[positions[t] as int] == cities[t]);
        }
    }
    assert forall|x: int, y: int| 0 <= x < y < n implies mended[x] != mended[y] by {
        if listed(positions, count, x) {
            let t = choose|t: int| 0 <= t < count && #[trigger] positions[t] == x;
            assert(mended[positions[t] as int] == cities[t]);
            if listed(positions, count, y) {
                let u = choose|u: int| 0 <= u < count && #[trigger] positions[u] == y;
                assert(mended[positions[u] as int] == cities[u]);
                assert(t != u);
                if t < u {
                    assert(cities[t] < cities[u]);
                } else {
                    assert(cities[u] < cities[t]);
                }
            } else {
                assert(mended[y] == child[y]);
                assert(child.contains(child[y]));
            }
        } else {
            assert(mended[x] == child[x]);
            if listed(positions, count, y) {
                let u = choose|u: int| 0 <= u < count && #[trigger] positions[u] == y;
                assert(mended[positions[u] as int] == cities[u]);
                assert(child.contains(child[x]));
            } else {
                assert(mended[y] == child[y]);
                if child[x] == child[y] {
                    assert(has_twin(child, x));
                }
            }
        }
    }
    assert(mended.no_duplicates()) by {
        assert forall|x: int, y: int|
            0 <= x < mended.len() && 0 <= y < mended.len() && x != y implies mended[x]
            != mended[y] by {
            if x < y {
                assert(mended[x] != mended[y]);
            } else {
                assert(mended[y] != mended[x]);
            }
        }
    }
}

/// The cities of `0..child.len()` that `child` does not hold, ascending.
pub(crate) fn collect_absent(child: &Vec<u32>) -> (absent: Vec<u32>)
    requires
        child@.len() <= u32::MAX,
    ensures
        absent@ == absent_cities(child@),
{
    let mut absent: Vec<u32> = Vec::new();
    let mut city: usize = 0;
    while city < child.len()
        invariant
            city <= child.len() <= u32::MAX,
            absent@ == absent_below(child@, city as int),
        decreases child.len() - city,
    {
        if !holds(child.as_slice(), city as u32) {
            absent.push(city as u32);
        }
        city += 1;
    }
    absent
}

/// The positions of `child` whose city occurs again further right.
pub(crate) fn collect_duplicates(child: &Vec<u32>) -> (duplicates: Vec<usize>)
    ensures
        duplicates@ == duplicate_positions(child@),
{
    let mut duplicates: Vec<usize> = Vec::new();
    let len = child.len();
    let mut i: usize = 0;
    while i < len
        invariant
            i <= len,
            len == child@.len(),
            duplicates@ == duplicates_below(child@, i as int),
        decreases len - i,
    {
        let mut j: usize = 0;
        while j < len
            invariant
                i < len,
                j <= len,
                len == child@.len(),
                duplicates@ == duplicates_below(child@, i as int) + twins_of(
                    child@,
                    i as int,
                    j as int,
                ),
            decreases len - j,
        {
            if child[i] == child[j] && i < j {
                duplicates.push(i);
            }
            j += 1;
        }
        i += 1;
    }
    duplicates
}

} // verus!
