//! Routes of city indices and the moves between them.
use vstd::prelude::*;

verus! {

broadcast use vstd::seq_lib::group_to_multiset_ensures;

/// The cities `0, 1, ..., n - 1` in order.
pub open spec fn identity_seq(n: nat) -> Seq<usize> {
    Seq::new(n, |i: int| i as usize)
}

/// `s` visits each of the cities `0..n` exactly once.
pub open spec fn is_permutation(s: Seq<usize>, n: nat) -> bool {
    s.to_multiset() == identity_seq(n).to_multiset()
}

/// A route that returns to where it started.
pub open spec fn is_closed(r: Seq<usize>) -> bool {
    r.len() >= 1 && r.last() == r[0]
}

/// A closed tour over the cities `0..n`: every city once, then home again.
pub open spec fn is_closed_tour(r: Seq<usize>, n: nat) -> bool {
    is_closed(r) && is_permutation(r.drop_last(), n)
}

/// The open route `s` closed into a loop by returning to its first city.
pub open spec fn closed(s: Seq<usize>) -> Seq<usize> {
    s.push(s[0])
}

/// `s` with the cities at positions `a` and `b` exchanged.
pub open spec fn swapped(s: Seq<usize>, a: int, b: int) -> Seq<usize> {
    s.update(a, s[b]).update(b, s[a])
}

/// `s` with the cities strictly between positions `a` and `b` in reverse order.
pub open spec fn reversed_between(s: Seq<usize>, a: int, b: int) -> Seq<usize> {
    Seq::new(s.len(), |k: int| if a < k < b { s[a + b - k] } else { s[k] })
}

/// Exchanging two positions keeps the cities of a route.
pub proof fn lemma_swapped_multiset(s: Seq<usize>, a: int, b: int)
    requires
        0 <= a < s.len(),
        0 <= b < s.len(),
    ensures
        swapped(s, a, b).to_multiset() == s.to_multiset(),
        swapped(s, a, b).len() == s.len(),
{
    broadcast use vstd::seq_lib::to_multiset_update;
    broadcast use vstd::multiset::group_multiset_axioms;

    let s1 = s.update(a, s[b]);
    assert(s1.to_multiset() == s.to_multiset().insert(s[b]).remove(s[a]));
    assert(s1.update(b, s[a]).to_multiset() == s1.to_multiset().insert(s[a]).remove(s1[b]));
    if a == b {
        assert(s1 =~= s);
        assert(s1.update(b, s[a]) =~= s);
    } else {
        assert(s1[b] == s[b]);
        assert(s1.update(b, s[a]).to_multiset() =~= s.to_multiset());
    }
}

/// The route `0, 1, ..., n - 1`.
pub fn identity_route(n: usize) -> (r: Vec<usize>)
    ensures
        r@ == identity_seq(n as nat),
{
    let mut r: Vec<usize> = Vec::new();
    let mut i: usize = 0;
    while i < n
        invariant
            i <= n,
            r@ == identity_seq(i as nat),
        decreases n - i,
    {
        r.push(i);
        i = i + 1;
        assert(r@ =~= identity_seq(i as nat));
    }
    r
}

/// Closes an open route by appending its first city.
pub fn close_loop(open: Vec<usize>) -> (r: Vec<usize>)
    requires
        open.len() >= 1,
    ensures
        r@ == closed(open@),
        is_closed(r@),
        r@.drop_last() == open@,
{
    let mut r = open;
    let home = r[0];
    r.push(home);
    assert(r@.drop_last() =~= open@);
    r
}

/// The open part of a closed route: every city but the final return home.
pub fn open_part(route: &Vec<usize>) -> (r: Vec<usize>)
    requires
        route.len() >= 1,
    ensures
        r@ == route@.drop_last(),
{
    let mut r: Vec<usize> = Vec::new();
    let mut i: usize = 0;
    while i + 1 < route.len()
        invariant
            i < route.len(),
            r@ == route@.subrange(0, i as int),
        decreases route.len() - i,
    {
        r.push(route[i]);
        i = i + 1;
        assert(r@ =~= route@.subrange(0, i as int));
    }
    assert(r@ =~= route@.drop_last());
    r
}

/// Pairwise swap: the route with the cities at positions `a` and `b` exchanged.
pub fn swap_move(open: &Vec<usize>, a: usize, b: usize) -> (r: Vec<usize>)
    requires
        a < open.len(),
        b < open.len(),
    ensures
        r@ == swapped(open@, a as int, b as int),
        r@.to_multiset() == open@.to_multiset(),
{
    let mut r = copy_route(open);
    let ca = r[a];
    let cb = r[b];
    r.set(a, cb);
    r.set(b, ca);
    proof {
        lemma_swapped_multiset(open@, a as int, b as int);
    }
    assert(r@ =~= swapped(open@, a as int, b as int));
    r
}

/// Segment reversal: the route with the cities strictly between positions `a`
/// and `b` put in reverse order, the cities outside that segment untouched.
pub fn reversal_move(open: &Vec<usize>, a: usize, b: usize) -> (r: Vec<usize>)
    requires
        a <= b < open.len(),
    ensures
        r@ == reversed_between(open@, a as int, b as int),
        r@.to_multiset() == open@.to_multiset(),
{
    let mut r = copy_route(open);
    if b - a < 2 {
        assert(r@ =~= reversed_between(open@, a as int, b as int));
        return r;
    }
    let mut i: usize = a + 1;
    let mut j: usize = b - 1;
    while i < j
        invariant
            a < i,
            j < b,
            b < open.len(),
            i + j == a + b,
            r@.len() == open@.len(),
            r@.to_multiset() == open@.to_multiset(),
            forall|k: int| 0 <= k < r@.len() ==> #[trigger] r@[k] == if i <= k <= j {
                open@[k]
            } else {
                reversed_between(open@, a as int, b as int)[k]
            },
        decreases b - i,
    {
        let ci = r[i];
        let cj = r[j];
        proof {
            lemma_swapped_multiset(r@, i as int, j as int);
        }
        r.set(i, cj);
        r.set(j, ci);
        i = i + 1;
        j = j - 1;
    }
    assert(r@ =~= reversed_between(open@, a as int, b as int));
    r
}

/// A copy of a route.
pub fn copy_route(route: &Vec<usize>) -> (r: Vec<usize>)
    ensures
        r@ == route@,
{
    let mut r: Vec<usize> = Vec::new();
    let mut i: usize = 0;
    while i < route.len()
        invariant
            i <= route.len(),
            r@ == route@.subrange(0, i as int),
        decreases route.len() - i,
    {
        r.push(route[i]);
        i = i + 1;
        assert(r@ =~= route@.subrange(0, i as int));
    }
    assert(r@ =~= route@);
    r
}

} // verus!
