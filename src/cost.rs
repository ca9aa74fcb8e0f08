//! Cost keys: how the caller tells the library which of two routes is shorter.
//!
//! A cost function maps a route to a key whose order is the order of the
//! route lengths: the shorter route has the smaller key. For non-negative
//! lengths held as IEEE-754 doubles, the bit pattern of the length is such a
//! key.
use vstd::prelude::*;

verus! {

/// `k` is a key that `cost` gives for a route holding the cities `s`.
pub open spec fn cost_of<F: Fn(&Vec<usize>) -> u64>(cost: F, s: Seq<usize>, k: u64) -> bool {
    exists|v: Vec<usize>| v@ == s && #[trigger] cost.ensures((&v,), k)
}

/// `cost` may be called on every route, and its key depends on the cities of
/// the route alone.
pub open spec fn is_cost_function<F: Fn(&Vec<usize>) -> u64>(cost: F) -> bool {
    &&& forall|v: &Vec<usize>| #[trigger] cost.requires((v,))
    &&& forall|v: &Vec<usize>, w: &Vec<usize>, k1: u64, k2: u64|
        v@ == w@ && #[trigger] cost.ensures((v,), k1) && #[trigger] cost.ensures((w,), k2)
            ==> k1 == k2
}

/// A cost function gives one key per route.
pub proof fn lemma_cost_unique<F: Fn(&Vec<usize>) -> u64>(cost: F, s: Seq<usize>, k1: u64, k2: u64)
    requires
        is_cost_function(cost),
        cost_of(cost, s, k1),
        cost_of(cost, s, k2),
    ensures
        k1 == k2,
{
    let v = choose|v: Vec<usize>| v@ == s && #[trigger] cost.ensures((&v,), k1);
    let w = choose|w: Vec<usize>| w@ == s && #[trigger] cost.ensures((&w,), k2);
    assert(cost.ensures((&v,), k1) && cost.ensures((&w,), k2));
}

/// Calls `cost` on `route`.
pub fn key_of<F: Fn(&Vec<usize>) -> u64>(cost: &F, route: &Vec<usize>) -> (k: u64)
    requires
        is_cost_function(*cost),
    ensures
        cost_of(*cost, route@, k),
{
    let k = cost(route);
    assert(cost.ensures((route,), k));
    k
}

} // verus!
