//! Exhaustive search over every closed tour anchored at city 0.
use vstd::prelude::*;
use crate::cost::{cost_of, is_cost_function, key_of};
use crate::route::{copy_route, identity_seq, is_closed_tour};

verus! {

broadcast use vstd::seq_lib::group_to_multiset_ensures;

/// `t` begins with `prefix`, goes on with the cities of `rest` in some order
/// and then returns to the first city of `prefix`.
pub open spec fn completes(t: Seq<usize>, prefix: Seq<usize>, rest: Seq<usize>) -> bool {
    &&& prefix.len() >= 1
    &&& t.len() == prefix.len() + rest.len() + 1
    &&& t.subrange(0, prefix.len() as int) == prefix
    &&& t.subrange(prefix.len() as int, t.len() - 1).to_multiset() == rest.to_multiset()
    &&& t.last() == prefix[0]
}

/// A closed tour over the cities `0..n` that starts (and ends) at city 0.
pub open spec fn is_anchored_tour(t: Seq<usize>, n: nat) -> bool {
    is_closed_tour(t, n) && t[0] == 0
}

/// `s` comes no later than `t` in lexicographic order.
pub open spec fn lex_le(s: Seq<usize>, t: Seq<usize>) -> bool {
    s == t || exists|i: int|
        #![trigger s[i], t[i]]
        0 <= i < s.len() && i < t.len() && s.subrange(0, i) == t.subrange(0, i) && s[i] < t[i]
}

/// The values of `s` rise strictly.
pub open spec fn is_ascending(s: Seq<usize>) -> bool {
    forall|a: int, b: int| 0 <= a < b < s.len() ==> s[a] < s[b]
}

/// `r` is an anchored tour over `0..n` whose key is no larger than the key of
/// any other anchored tour over `0..n`, and of the anchored tours with that
/// least key it is the first in lexicographic order.
pub open spec fn is_first_shortest_anchored_tour<F: Fn(&Vec<usize>) -> u64>(
    cost: F,
    r: Seq<usize>,
    n: nat,
) -> bool {
    is_anchored_tour(r, n) && exists|k: u64|
        #![trigger cost_of(cost, r, k)]
        cost_of(cost, r, k) && (forall|t: Seq<usize>, kt: u64|
            is_anchored_tour(t, n) && #[trigger] cost_of(cost, t, kt) ==> k <= kt) && (forall|
            t: Seq<usize>,
            kt: u64,
        | is_anchored_tour(t, n) && #[trigger] cost_of(cost, t, kt) && kt <= k ==> lex_le(r, t))
}

/// Removing one equal element from each of two sequences keeps them equal
/// as multisets, and only equal multisets stay equal.
proof fn lemma_multiset_cancel(s1: Seq<usize>, i: int, s2: Seq<usize>, j: int)
    requires
        0 <= i < s1.len(),
        0 <= j < s2.len(),
        s1[i] == s2[j],
    ensures
        s1.to_multiset() == s2.to_multiset() <==> s1.remove(i).to_multiset()
            == s2.remove(j).to_multiset(),
{
    broadcast use vstd::seq_lib::to_multiset_remove;
    broadcast use vstd::seq_lib::to_multiset_contains;
    broadcast use vstd::multiset::group_multiset_axioms;

    let x = s1[i];
    assert(s1.contains(x));
    assert(s2.contains(x));
    if s1.remove(i).to_multiset() == s2.remove(j).to_multiset() {
        assert forall|y: usize| s1.to_multiset().count(y) == s2.to_multiset().count(y) by {
            assert(s1.remove(i).to_multiset().count(y) == s2.remove(j).to_multiset().count(y));
        }
        assert(s1.to_multiset() =~= s2.to_multiset());
    }
}

/// A completion that goes on with `rest[j]` completes the shorter prefix.
proof fn lemma_completes_extend(t: Seq<usize>, prefix: Seq<usize>, rest: Seq<usize>, j: int)
    requires
        0 <= j < rest.len(),
        prefix.len() >= 1,
    ensures
        completes(t, prefix.push(rest[j]), rest.remove(j)) <==> (completes(t, prefix, rest)
            && t[prefix.len() as int] == rest[j]),
{
    let pl = prefix.len() as int;
    if t.len() == prefix.len() + rest.len() + 1 {
        let sub = t.subrange(pl, t.len() - 1);
        assert(sub.remove(0) =~= t.subrange(pl + 1, t.len() - 1));
        if t[pl] == rest[j] {
            assert(sub[0] == t[pl]);
            lemma_multiset_cancel(sub, 0, rest, j);
        }
        if t.subrange(0, pl + 1) == prefix.push(rest[j]) {
            assert(t.subrange(0, pl) =~= prefix);
            assert(t[pl] == t.subrange(0, pl + 1)[pl]);
        }
        if t.subrange(0, pl) == prefix && t[pl] == rest[j] {
            assert(t.subrange(0, pl + 1) =~= prefix.push(rest[j]));
        }
    }
}

/// A completion of `prefix` by a non-empty `rest` goes on with some city of
/// `rest`.
proof fn lemma_completes_split(t: Seq<usize>, prefix: Seq<usize>, rest: Seq<usize>) -> (j: int)
    requires
        completes(t, prefix, rest),
        rest.len() >= 1,
    ensures
        0 <= j < rest.len(),
        completes(t, prefix.push(rest[j]), rest.remove(j)),
{
    broadcast use vstd::seq_lib::to_multiset_contains;

    let pl = prefix.len() as int;
    let sub = t.subrange(pl, t.len() - 1);
    let x = t[pl];
    assert(sub[0] == x);
    assert(sub.contains(x));
    assert(rest.to_multiset().count(x) > 0);
    assert(rest.contains(x));
    let j = choose|j: int| 0 <= j < rest.len() && rest[j] == x;
    lemma_completes_extend(t, prefix, rest, j);
    j
}

/// The best completion of `prefix` by the cities of `rest`: each recursive
/// call returns the best tour of its own subtree and the caller keeps the
/// first of the strictly cheapest. The cities of `rest` are tried in their
/// ascending order, so the completions are met in lexicographic order.
fn search<F: Fn(&Vec<usize>) -> u64>(prefix: Vec<usize>, rest: Vec<usize>, cost: &F) -> (r: (
    Vec<usize>,
    u64,
))
    requires
        prefix.len() >= 1,
        prefix.len() + rest.len() < usize::MAX,
        is_ascending(rest@),
        is_cost_function(*cost),
    ensures
        completes(r.0@, prefix@, rest@),
        cost_of(*cost, r.0@, r.1),
        forall|t: Seq<usize>, k: u64|
            completes(t, prefix@, rest@) && #[trigger] cost_of(*cost, t, k) ==> r.1 <= k,
        forall|t: Seq<usize>, k: u64|
            completes(t, prefix@, rest@) && #[trigger] cost_of(*cost, t, k) && k <= r.1 ==> lex_le(
                r.0@,
                t,
            ),
    decreases rest.len(),
{
    if rest.len() == 0 {
        let mut tour = copy_route(&prefix);
        tour.push(prefix[0]);
        let k = key_of(cost, &tour);
        proof {
            assert(tour@.subrange(0, prefix.len() as int) =~= prefix@);
            assert(tour@.subrange(prefix.len() as int, tour@.len() - 1) =~= rest@);
            assert forall|t: Seq<usize>| completes(t, prefix@, rest@) implies t == tour@ by {
                assert(t.subrange(0, prefix.len() as int) == prefix@);
                assert forall|i: int| 0 <= i < t.len() implies t[i] == tour@[i] by {
                    if i < prefix.len() {
                        assert(t[i] == t.subrange(0, prefix.len() as int)[i]);
                    }
                }
                assert(t =~= tour@);
            }
            assert forall|t: Seq<usize>, kt: u64|
                completes(t, prefix@, rest@) && #[trigger] cost_of(*cost, t, kt) implies k <= kt by {
                crate::cost::lemma_cost_unique(*cost, t, k, kt);
            }
        }
        return (tour, k);
    }
    let ghost pl = prefix.len() as int;
    let mut best_route: Vec<usize> = Vec::new();
    let mut best_key: u64 = 0;
    let mut j: usize = 0;
    while j < rest.len()
        invariant
            pl == prefix.len(),
            prefix.len() >= 1,
            prefix.len() + rest.len() < usize::MAX,
            is_ascending(rest@),
            is_cost_function(*cost),
            rest.len() >= 1,
            j <= rest.len(),
            j > 0 ==> completes(best_route@, prefix@, rest@),
            j > 0 ==> cost_of(*cost, best_route@, best_key),
            j > 0 ==> exists|i0: int| 0 <= i0 < j && best_route@[pl] == #[trigger] rest@[i0],
            forall|i: int, t: Seq<usize>, k: u64|
                #![trigger completes(t, prefix@.push(rest@[i]), rest@.remove(i)), cost_of(*cost, t, k)]
                0 <= i < j && completes(t, prefix@.push(rest@[i]), rest@.remove(i)) && cost_of(
                    *cost,
                    t,
                    k,
                ) ==> best_key <= k,
            forall|i: int, t: Seq<usize>, k: u64|
                #![trigger completes(t, prefix@.push(rest@[i]), rest@.remove(i)), cost_of(*cost, t, k)]
                0 <= i < j && completes(t, prefix@.push(rest@[i]), rest@.remove(i)) && cost_of(
                    *cost,
                    t,
                    k,
                ) && k <= best_key ==> lex_le(best_route@, t),
        decreases rest.len() - j,
    {
        let mut next_prefix = copy_route(&prefix);
        next_prefix.push(rest[j]);
        let mut next_rest = copy_route(&rest);
        next_rest.remove(j);
        assert(is_ascending(next_rest@)) by {
            assert forall|a: int, b: int| 0 <= a < b < next_rest@.len() implies next_rest@[a]
                < next_rest@[b] by {
                let a0 = if a < j { a } else { a + 1 };
                let b0 = if b < j { b } else { b + 1 };
                assert(next_rest@[a] == rest@[a0]);
                assert(next_rest@[b] == rest@[b0]);
            }
        }
        let (t, k) = search(next_prefix, next_rest, cost);
        proof {
            lemma_completes_extend(t@, prefix@, rest@, j as int);
        }
        if j == 0 || k < best_key {
            best_route = t;
            best_key = k;
        } else {
            proof {
                let i0 = choose|i0: int| 0 <= i0 < j && best_route@[pl] == #[trigger] rest@[i0];
                assert forall|u: Seq<usize>, ku: u64|
                    completes(u, prefix@.push(rest@[j as int]), rest@.remove(j as int)) && cost_of(
                        *cost,
                        u,
                        ku,
                    ) && ku <= best_key implies lex_le(best_route@, u) by {
                    lemma_completes_extend(u, prefix@, rest@, j as int);
                    assert(best_route@.subrange(0, pl) == u.subrange(0, pl));
                    assert(best_route@[pl] < u[pl]);
                }
            }
        }
        j = j + 1;
    }
    proof {
        assert forall|t: Seq<usize>, k: u64|
            completes(t, prefix@, rest@) && #[trigger] cost_of(*cost, t, k) implies best_key <= k
            && (k <= best_key ==> lex_le(best_route@, t)) by {
            let i = lemma_completes_split(t, prefix@, rest@);
        }
    }
    (best_route, best_key)
}

/// The cities `1..n` in order.
fn cities_after_home(n: usize) -> (r: Vec<usize>)
    requires
        n >= 1,
    ensures
        r@ == identity_seq(n as nat).remove(0),
{
    let mut r: Vec<usize> = Vec::new();
    let mut i: usize = 1;
    while i < n
        invariant
            1 <= i <= n,
            r@ == identity_seq(i as nat).remove(0),
        decreases n - i,
    {
        r.push(i);
        i = i + 1;
        assert(r@ =~= identity_seq(i as nat).remove(0));
    }
    r
}

/// The anchored tours over `0..n` are the completions of `[0]` by `1..n`.
proof fn lemma_anchored_is_completion(t: Seq<usize>, n: nat)
    requires
        n >= 1,
    ensures
        is_anchored_tour(t, n) <==> completes(t, seq![0usize], identity_seq(n).remove(0)),
{
    let rest = identity_seq(n).remove(0);
    if t.len() == n + 1 {
        let open = t.drop_last();
        assert(open.remove(0) =~= t.subrange(1, t.len() - 1));
        if t[0] == 0 {
            lemma_multiset_cancel(open, 0, identity_seq(n), 0);
            assert(t.subrange(0, 1) =~= seq![0usize]);
        }
        if t.subrange(0, 1) == seq![0usize] {
            assert(t[0] == t.subrange(0, 1)[0]);
        }
    } else if t.len() >= 1 {
        assert(t.drop_last().to_multiset().len() == t.drop_last().len());
        assert(identity_seq(n).to_multiset().len() == n);
    }
}

/// The shortest closed tour over the cities `0..n`, by trying every order of
/// the cities `1..n` after city 0; of tours with equal keys the first one
/// found, which is the first in lexicographic order, is kept. With no city
/// the route is empty; with one city it is `[0, 0]`.
pub fn best_tour<F: Fn(&Vec<usize>) -> u64>(n: usize, cost: &F) -> (r: Vec<usize>)
    requires
        n < usize::MAX,
        is_cost_function(*cost),
    ensures
        n == 0 ==> r@.len() == 0,
        n >= 1 ==> is_first_shortest_anchored_tour(*cost, r@, n as nat),
        n >= 1 ==> r@.len() == n + 1,
{
    if n == 0 {
        return Vec::new();
    }
    let mut home: Vec<usize> = Vec::new();
    home.push(0);
    let rest = cities_after_home(n);
    let (route, k) = search(home, rest, cost);
    proof {
        assert(home@ =~= seq![0usize]);
        lemma_anchored_is_completion(route@, n as nat);
        assert forall|t: Seq<usize>, kt: u64|
            is_anchored_tour(t, n as nat) && #[trigger] cost_of(*cost, t, kt) implies k <= kt && (kt
            <= k ==> lex_le(route@, t)) by {
            lemma_anchored_is_completion(t, n as nat);
        }
        assert(cost_of(*cost, route@, k));
    }
    route
}

} // verus!
