//! The candidate model that a local-search driver explores: generation of a
//! random tour, duplication, and the neighbour move.
use vstd::prelude::*;
use rand::rngs::ThreadRng;
use crate::cost::{cost_of, is_cost_function, key_of};
use crate::random::{draw_usize, shuffle_cities};
use crate::route::{
    close_loop, closed, identity_route, identity_seq, is_closed, is_closed_tour, is_permutation,
    open_part, reversal_move, reversed_between, swap_move, swapped,
};

verus! {

broadcast use vstd::seq_lib::group_to_multiset_ensures;

/// A working route of the search: a closed route over city indices.
pub struct Candidate {
    pub route: Vec<usize>,
}

/// The two positions of a neighbour move drawn as `x` and `y` on an open
/// route of `len` cities, smaller first.
pub open spec fn move_positions(x: usize, y: usize, len: nat) -> (int, int) {
    let p = (x as int) % (len as int);
    let q = (y as int) % (len as int);
    if p < q {
        (p, q)
    } else {
        (q, p)
    }
}

/// `r` is the neighbour of the closed route `route` for the positions `a`
/// and `b`: the pairwise swap and the segment reversal are each closed into a
/// loop and keyed as closed tours; the swap wins where its key is strictly
/// smaller, else the reversal.
pub open spec fn is_neighbour_at<F: Fn(&Vec<usize>) -> u64>(
    cost: F,
    route: Seq<usize>,
    r: Seq<usize>,
    a: int,
    b: int,
) -> bool {
    let open = route.drop_last();
    let by_swap = closed(swapped(open, a, b));
    let by_reversal = closed(reversed_between(open, a, b));
    exists|ks: u64, kv: u64|
        #![trigger cost_of(cost, by_swap, ks), cost_of(cost, by_reversal, kv)]
        cost_of(cost, by_swap, ks) && cost_of(cost, by_reversal, kv) && r == if ks < kv {
            by_swap
        } else {
            by_reversal
        }
}

/// A route of at most three entries, so at most two cities, is too small to
/// perturb.
pub open spec fn too_small_to_tweak(route: Seq<usize>) -> bool {
    route.len() <= 3
}

/// A deep copy of a candidate.
pub fn clone_candidate(candidate: &Candidate) -> (r: Candidate)
    ensures
        r.route@ == candidate.route@,
{
    Candidate { route: crate::route::copy_route(&candidate.route) }
}

/// The route of `order`, the cities `0..n` in some order, closed into a loop.
pub fn candidate_from_order(order: Vec<usize>, n: usize) -> (r: Candidate)
    requires
        n >= 1,
        is_permutation(order@, n as nat),
    ensures
        r.route@ == closed(order@),
        is_closed_tour(r.route@, n as nat),
{
    assert(order@.to_multiset().len() == n) by {
        assert(identity_seq(n as nat).len() == n);
    }
    Candidate { route: close_loop(order) }
}

/// A random tour over the cities `0..n`: a shuffled order of the cities,
/// closed by returning to the first of them.
pub fn generate_candidate(n: usize, rng: &mut ThreadRng) -> (r: Candidate)
    requires
        n >= 1,
    ensures
        is_closed_tour(r.route@, n as nat),
        r.route@.len() == n + 1,
{
    let mut order = identity_route(n);
    shuffle_cities(&mut order, rng);
    assert(order@.len() == n) by {
        assert(order@.to_multiset().len() == identity_seq(n as nat).to_multiset().len());
    }
    candidate_from_order(order, n)
}

/// The neighbour of `candidate` for the draws `x` and `y`: the positions are
/// the draws modulo the number of cities, smaller first; of the pairwise
/// swap and the segment reversal at those positions, each closed into a loop,
/// the cheaper wins, the reversal on equal keys. A route of at most three entries is copied.
pub fn tweak_with_draws<F: Fn(&Vec<usize>) -> u64>(
    candidate: &Candidate,
    x: usize,
    y: usize,
    cost: &F,
) -> (r: Candidate)
    requires
        is_closed(candidate.route@),
        is_cost_function(*cost),
    ensures
        too_small_to_tweak(candidate.route@) ==> r.route@ == candidate.route@,
        !too_small_to_tweak(candidate.route@) ==> is_neighbour_at(
            *cost,
            candidate.route@,
            r.route@,
            move_positions(x, y, (candidate.route@.len() - 1) as nat).0,
            move_positions(x, y, (candidate.route@.len() - 1) as nat).1,
        ),
        r.route@.len() == candidate.route@.len(),
        is_closed(r.route@),
        r.route@.drop_last().to_multiset() == candidate.route@.drop_last().to_multiset(),
{
    if candidate.route.len() <= 3 {
        return clone_candidate(candidate);
    }
    let open = open_part(&candidate.route);
    let len = open.len();
    let p = x % len;
    let q = y % len;
    let (a, b) = if p < q {
        (p, q)
    } else {
        (q, p)
    };
    let by_swap = close_loop(swap_move(&open, a, b));
    let by_reversal = close_loop(reversal_move(&open, a, b));
    let ks = key_of(cost, &by_swap);
    let kv = key_of(cost, &by_reversal);
    let r = if ks < kv {
        by_swap
    } else {
        by_reversal
    };
    assert(is_neighbour_at(*cost, candidate.route@, r@, a as int, b as int));
    Candidate { route: r }
}

/// A random neighbour of `candidate`: two positions are drawn from `rng` and
/// the move is made as `tweak_with_draws` makes it.
pub fn tweak_candidate<F: Fn(&Vec<usize>) -> u64>(
    candidate: &Candidate,
    rng: &mut ThreadRng,
    cost: &F,
) -> (r: Candidate)
    requires
        is_closed(candidate.route@),
        is_cost_function(*cost),
    ensures
        too_small_to_tweak(candidate.route@) ==> r.route@ == candidate.route@,
        !too_small_to_tweak(candidate.route@) ==> exists|a: int, b: int|
            0 <= a <= b < candidate.route@.len() - 1 && is_neighbour_at(
                *cost,
                candidate.route@,
                r.route@,
                a,
                b,
            ),
        r.route@.len() == candidate.route@.len(),
        is_closed(r.route@),
        r.route@.drop_last().to_multiset() == candidate.route@.drop_last().to_multiset(),
        forall|n: nat|
            is_closed_tour(candidate.route@, n) ==> #[trigger] is_closed_tour(r.route@, n),
{
    if candidate.route.len() <= 3 {
        return clone_candidate(candidate);
    }
    let x = draw_usize(rng);
    let y = draw_usize(rng);
    let r = tweak_with_draws(candidate, x, y, cost);
    let ghost len = (candidate.route@.len() - 1) as nat;
    assert(0 <= move_positions(x, y, len).0 <= move_positions(x, y, len).1 < len);
    r
}

} // verus!
