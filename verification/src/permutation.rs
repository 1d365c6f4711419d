//! Permutations of the cities `0..n`, and the counting facts about them that
//! the operators rest on.

use vstd::prelude::*;

verus! {

/// Whether `route` visits each of the cities `0..route.len()` exactly once.
///
/// Stated as: no city occurs twice and every city is below the length. That
/// every city below the length then occurs is [`lemma_permutation_covers`].
pub open spec fn is_permutation(route: Seq<u32>) -> bool {
    &&& route.no_duplicates()
    &&& forall|i: int| 0 <= i < route.len() ==> #[trigger] route[i] < route.len()
}

/// Whether every city below `n` occurs in `route`.
pub open spec fn covers(route: Seq<u32>, n: nat) -> bool {
    forall|city: u32| city < n ==> #[trigger] route.contains(city)
}

/// The route `0, 1, .., n - 1`.
pub open spec fn identity_route(n: nat) -> Seq<u32> {
    Seq::new(n, |i: int| i as u32)
}

/// The route with the cities at positions `i` and `j` exchanged.
pub open spec fn swapped(route: Seq<u32>, i: int, j: int) -> Seq<u32> {
    route.update(i, route[j]).update(j, route[i])
}

/// The identity route is a permutation.
pub proof fn lemma_identity_is_permutation(n: nat)
    requires
        n <= u32::MAX,
    ensures
        is_permutation(identity_route(n)),
{
}

/// A route that holds every city below `n` has at least `n` positions.
pub proof fn lemma_cover_needs_room(route: Seq<u32>, n: nat)
    requires
        covers(route, n),
        n <= u32::MAX + 1,
    ensures
        route.len() >= n,
    decreases n,
{
    if n > 0 {
        let top = (n - 1) as u32;
        assert(route.contains(top));
        let at = choose|at: int| 0 <= at < route.len() && route[at] == top;
        let rest = route.remove(at);
        route.remove_ensures(at);
        assert forall|city: u32| city < n - 1 implies #[trigger] rest.contains(city) by {
            assert(route.contains(city));
            let x = choose|x: int| 0 <= x < route.len() && route[x] == city;
            if x < at {
                assert(rest[x] == city);
            } else {
                assert(rest[x - 1] == city);
            }
        }
        lemma_cover_needs_room(rest, (n - 1) as nat);
    }
}

/// A route without repeated cities, all of them below `n`, has at most `n`
/// positions.
pub proof fn lemma_distinct_needs_cities(route: Seq<u32>, n: nat)
    requires
        route.no_duplicates(),
        forall|i: int| 0 <= i < route.len() ==> #[trigger] route[i] < n,
    ensures
        route.len() <= n,
    decreases n,
{
    if n == 0 {
        if route.len() > 0 {
            assert(route[0] < n);
        }
    } else {
        let top = (n - 1) as u32;
        if route.contains(top) {
            let at = choose|at: int| 0 <= at < route.len() && route[at] == top;
            let rest = route.remove(at);
            route.remove_ensures(at);
            assert forall|i: int| 0 <= i < rest.len() implies #[trigger] rest[i] < n - 1 by {
                if i < at {
                    assert(rest[i] == route[i]);
                } else {
                    assert(rest[i] == route[i + 1]);
                }
            }
            assert(rest.no_duplicates()) by {
                assert forall|i: int, j: int|
                    0 <= i < rest.len() && 0 <= j < rest.len() && i != j implies rest[i]
                    != rest[j] by {
                    let a = if i < at { i } else { i + 1 };
                    let b = if j < at { j } else { j + 1 };
                    assert(rest[i] == route[a] && rest[j] == route[b]);
                }
            }
            lemma_distinct_needs_cities(rest, (n - 1) as nat);
        } else {
            assert forall|i: int| 0 <= i < route.len() implies #[trigger] route[i] < n - 1 by {
                assert(route.contains(route[i]));
            }
            lemma_distinct_needs_cities(route, (n - 1) as nat);
        }
    }
}

/// A permutation holds every city below its length: its set of cities is
/// exactly `0..n`.
pub proof fn lemma_permutation_covers(route: Seq<u32>)
    requires
        is_permutation(route),
    ensures
        covers(route, route.len()),
        forall|city: u32| route.contains(city) <==> city < route.len(),
    decreases route.len(),
{
    let n = route.len();
    if n > 0 {
        let top = (n - 1) as u32;
        if !route.contains(top) {
            assert forall|i: int| 0 <= i < route.len() implies #[trigger] route[i] < n - 1 by {
                assert(route.contains(route[i]));
            }
            lemma_distinct_needs_cities(route, (n - 1) as nat);
        }
        let at = choose|at: int| 0 <= at < route.len() && route[at] == top;
        let rest = route.remove(at);
        route.remove_ensures(at);
        assert(is_permutation(rest)) by {
            assert forall|i: int, j: int|
                0 <= i < rest.len() && 0 <= j < rest.len() && i != j implies rest[i]
                != rest[j] by {
                let a = if i < at { i } else { i + 1 };
                let b = if j < at { j } else { j + 1 };
                assert(rest[i] == route[a] && rest[j] == route[b]);
            }
            assert forall|i: int| 0 <= i < rest.len() implies #[trigger] rest[i] < rest.len() by {
                let a = if i < at { i } else { i + 1 };
                assert(rest[i] == route[a]);
            }
        }
        lemma_permutation_covers(rest);
        assert forall|city: u32| city < n implies #[trigger] route.contains(city) by {
            if city != top {
                assert(rest.contains(city));
                let x = choose|x: int| 0 <= x < rest.len() && rest[x] == city;
                let a = if x < at { x } else { x + 1 };
                assert(route[a] == city);
            }
        }
    }
    assert forall|city: u32| route.contains(city) implies city < route.len() by {
        let x = choose|x: int| 0 <= x < route.len() && route[x] == city;
        assert(route[x] < route.len());
    }
}

/// A route of `n` positions that holds every city below `n` is a permutation.
pub proof fn lemma_cover_is_permutation(route: Seq<u32>)
    requires
        covers(route, route.len()),
        route.len() <= u32::MAX + 1,
    ensures
        is_permutation(route),
{
    let n = route.len();
    assert forall|i: int| 0 <= i < route.len() implies !(exists|j: int|
        0 <= j < route.len() && j != i && route[j] == route[i]) && #[trigger] route[i] < n by {
        if (exists|j: int| 0 <= j < route.len() && j != i && route[j] == route[i]) || route[i]
            >= n {
            // Position `i` can be spared: the rest still holds every city.
            let rest = route.remove(i);
            route.remove_ensures(i);
            assert forall|city: u32| city < n implies #[trigger] rest.contains(city) by {
                assert(route.contains(city));
                let x = choose|x: int| 0 <= x < route.len() && route[x] == city;
                let y = if x != i {
                    x
                } else {
                    choose|j: int| 0 <= j < route.len() && j != i && route[j] == route[i]
                };
                if y < i {
                    assert(rest[y] == city);
                } else {
                    assert(rest[y - 1] == city);
                }
            }
            lemma_cover_needs_room(rest, n);
        }
    }
}

/// Rearranging the positions of a permutation gives a permutation.
pub proof fn lemma_rearranged_is_permutation(
    before: Seq<u32>,
    after: Seq<u32>,
    origin: spec_fn(int) -> int,
)
    requires
        is_permutation(before),
        after.len() == before.len(),
        forall|i: int|
            0 <= i < after.len() ==> 0 <= #[trigger] origin(i) < before.len() && after[i]
                == before[origin(i)],
        forall|i: int, j: int|
            0 <= i < j < after.len() ==> #[trigger] origin(i) != #[trigger] origin(j),
    ensures
        is_permutation(after),
{
    assert forall|i: int, j: int|
        0 <= i < after.len() && 0 <= j < after.len() && i != j implies after[i] != after[j] by {
        assert(origin(i) != origin(j)) by {
            if i < j {
            } else {
                assert(j < i);
            }
        }
        assert(after[i] == before[origin(i)] && after[j] == before[origin(j)]);
    }
    assert forall|i: int| 0 <= i < after.len() implies #[trigger] after[i] < after.len() by {
        assert(after[i] == before[origin(i)]);
    }
}

/// A route that holds the same cities as a permutation, each as often, is a
/// permutation.
pub proof fn lemma_shuffled_is_permutation(before: Seq<u32>, after: Seq<u32>)
    requires
        is_permutation(before),
        after.to_multiset() == before.to_multiset(),
    ensures
        is_permutation(after),
        after.len() == before.len(),
{
    broadcast use vstd::seq_lib::to_multiset_len, vstd::seq_lib::to_multiset_contains;

    before.lemma_multiset_has_no_duplicates();
    after.lemma_multiset_has_no_duplicates_conv();
    assert(after.len() == after.to_multiset().len());
    assert(before.len() == before.to_multiset().len());
    assert forall|i: int| 0 <= i < after.len() implies #[trigger] after[i] < after.len() by {
        assert(after.contains(after[i]));
        assert(after.to_multiset().count(after[i]) > 0);
        assert(before.contains(after[i]));
        let x = choose|x: int| 0 <= x < before.len() && before[x] == after[i];
        assert(before[x] < before.len());
    }
}

/// Exchanging two positions of a permutation gives a permutation.
pub proof fn lemma_swapped_is_permutation(route: Seq<u32>, i: int, j: int)
    requires
        is_permutation(route),
        0 <= i < route.len(),
        0 <= j < route.len(),
    ensures
        is_permutation(swapped(route, i, j)),
{
    let origin = |x: int|
        if x == i {
            j
        } else if x == j {
            i
        } else {
            x
        };
    lemma_rearranged_is_permutation(route, swapped(route, i, j), origin);
}

} // verus!
