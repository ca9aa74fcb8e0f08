//! The square table of pairwise distances between cities.
use vstd::prelude::*;

verus! {

/// `m` is an `n` by `n` table.
pub open spec fn is_square<T>(m: Seq<Vec<T>>, n: nat) -> bool {
    m.len() == n && forall|i: int| 0 <= i < n ==> (#[trigger] m[i])@.len() == n
}

/// The table of pairwise distances between `n` cities: `zero` on the
/// diagonal, `dist(i, j)` above it, and below it the mirror image of what is
/// above, so that the table is symmetric.
pub fn build_symmetric<T: Copy, F: Fn(usize, usize) -> T>(n: usize, zero: T, dist: &F) -> (m: Vec<
    Vec<T>,
>)
    requires
        forall|i: usize, j: usize| i < j < n ==> #[trigger] dist.requires((i, j)),
    ensures
        is_square(m@, n as nat),
        forall|i: int| 0 <= i < n ==> (#[trigger] m@[i])@[i] == zero,
        forall|i: int, j: int| 0 <= i < n && 0 <= j < n ==> #[trigger] m@[i]@[j] == m@[j]@[i],
        forall|i: int, j: int|
            0 <= i < j < n ==> dist.ensures((i as usize, j as usize), #[trigger] m@[i]@[j]),
{
    let mut m: Vec<Vec<T>> = Vec::new();
    let mut i: usize = 0;
    while i < n
        invariant
            i <= n,
            forall|a: usize, b: usize| a < b < n ==> #[trigger] dist.requires((a, b)),
            m@.len() == i,
            forall|a: int| 0 <= a < i ==> (#[trigger] m@[a])@.len() == n,
            forall|a: int| 0 <= a < i ==> (#[trigger] m@[a])@[a] == zero,
            forall|a: int, b: int| 0 <= a < i && 0 <= b < i ==> #[trigger] m@[a]@[b] == m@[b]@[a],
            forall|a: int, b: int|
                0 <= a < b < n && a < i ==> dist.ensures(
                    (a as usize, b as usize),
                    #[trigger] m@[a]@[b],
                ),
        decreases n - i,
    {
        let mut row: Vec<T> = Vec::new();
        let mut j: usize = 0;
        while j < n
            invariant
                i < n,
                j <= n,
                m@.len() == i,
                forall|a: usize, b: usize| a < b < n ==> #[trigger] dist.requires((a, b)),
                forall|a: int| 0 <= a < i ==> (#[trigger] m@[a])@.len() == n,
                row@.len() == j,
                forall|b: int| 0 <= b < j && b < i ==> row@[b] == (#[trigger] m@[b])@[i as int],
                j > i ==> row@[i as int] == zero,
                forall|b: int| i < b < j ==> dist.ensures((i, b as usize), #[trigger] row@[b]),
            decreases n - j,
        {
            if j < i {
                let v: T = m[j][i];
                row.push(v);
            } else if j == i {
                row.push(zero);
            } else {
                let v: T = dist(i, j);
                row.push(v);
            }
            j = j + 1;
        }
        m.push(row);
        i = i + 1;
    }
    m
}

/// `total` is the length of `route` through the table `m`: `zero` for a route
/// of at most one city, else the length of the route without its last city
/// followed, by `plus`, by the entry for its last step.
pub open spec fn is_route_total<T, F: Fn(T, T) -> T>(
    plus: F,
    m: Seq<Vec<T>>,
    route: Seq<usize>,
    zero: T,
    total: T,
) -> bool
    decreases route.len(),
{
    if route.len() <= 1 {
        total == zero
    } else {
        exists|prev: T|
            #![trigger plus.ensures((prev, m[route[route.len() - 2] as int]@[route.last() as int]), total)]
            is_route_total(plus, m, route.drop_last(), zero, prev) && plus.ensures(
                (prev, m[route[route.len() - 2] as int]@[route.last() as int]),
                total,
            )
    }
}

/// The length of `route` through the square table `m`: the entries for each
/// pair of consecutive cities, summed by `plus` from `zero`. A route of at
/// most one city has no step, so its length is `zero` whatever the table.
pub fn route_total<T: Copy, F: Fn(T, T) -> T>(
    m: &Vec<Vec<T>>,
    route: &Vec<usize>,
    zero: T,
    plus: &F,
) -> (total: T)
    requires
        route@.len() >= 2 ==> is_square(m@, m@.len()),
        route@.len() >= 2 ==> forall|k: int| 0 <= k < route@.len() ==> #[trigger] route@[k] < m@.len(),
        forall|a: T, b: T| #[trigger] plus.requires((a, b)),
    ensures
        is_route_total(*plus, m@, route@, zero, total),
        route@.len() <= 1 ==> total == zero,
{
    let mut total: T = zero;
    if route.len() <= 1 {
        return total;
    }
    let mut k: usize = 1;
    while k < route.len()
        invariant
            1 <= k <= route@.len(),
            is_square(m@, m@.len()),
            forall|k: int| 0 <= k < route@.len() ==> #[trigger] route@[k] < m@.len(),
            forall|a: T, b: T| #[trigger] plus.requires((a, b)),
            is_route_total(*plus, m@, route@.subrange(0, k as int), zero, total),
        decreases route@.len() - k,
    {
        let from = route[k - 1];
        let to = route[k];
        let step: T = m[from][to];
        let ghost prev = total;
        total = plus(total, step);
        k = k + 1;
        proof {
            let head = route@.subrange(0, k as int);
            assert(head.drop_last() =~= route@.subrange(0, k - 1));
            assert(plus.ensures((prev, m@[head[head.len() - 2] as int]@[head.last() as int]), total));
        }
    }
    assert(route@.subrange(0, route@.len() as int) =~= route@);
    total
}

} // verus!
