use rand::Rng;
use travelling_salesman::brute_force::best_tour;
use travelling_salesman::candidate::{
    candidate_from_order, clone_candidate, generate_candidate, tweak_candidate, tweak_with_draws,
    Candidate,
};
use travelling_salesman::matrix::{build_symmetric, route_total};
use travelling_salesman::route::{
    close_loop, identity_route, open_part, reversal_move, swap_move,
};

fn euclid(cities: &[(f64, f64)], i: usize, j: usize) -> f64 {
    ((cities[j].0 - cities[i].0).powi(2) + (cities[j].1 - cities[i].1).powi(2)).sqrt()
}

fn matrix_of(cities: &[(f64, f64)]) -> Vec<Vec<f64>> {
    build_symmetric(cities.len(), 0.0, &|i: usize, j: usize| euclid(cities, i, j))
}

fn length(m: &Vec<Vec<f64>>, route: &Vec<usize>) -> f64 {
    route_total(m, route, 0.0, &|a: f64, b: f64| a + b)
}

fn sorted(mut v: Vec<usize>) -> Vec<usize> {
    v.sort();
    v
}

const FIVE: [(f64, f64); 5] = [(27.0, 78.0), (18.0, 24.0), (48.0, 62.0), (83.0, 77.0), (55.0, 56.0)];

#[test]
fn matrix_is_symmetric_with_zero_diagonal() {
    let m = matrix_of(&FIVE);
    assert_eq!(m.len(), 5);
    for i in 0..5 {
        assert_eq!(m[i].len(), 5);
        assert_eq!(m[i][i], 0.0);
        for j in 0..5 {
            assert_eq!(m[i][j], m[j][i]);
            assert!((m[i][j] - euclid(&FIVE, i, j)).abs() < 1e-12);
        }
    }
}

#[test]
fn matrix_of_no_cities_is_empty() {
    let m = matrix_of(&[]);
    assert!(m.is_empty());
}

#[test]
fn matrix_four_points_entry() {
    let cities = [(27.0, 78.0), (18.0, 24.0), (48.0, 62.0), (83.0, 17.0)];
    let m = matrix_of(&cities);
    assert!((m[0][3] - 82.807005).abs() < 1e-6);
    assert!((m[3][0] - 82.807005).abs() < 1e-6);
}

#[test]
fn route_total_matches_pairwise_sum() {
    let m = matrix_of(&FIVE);
    let route = vec![0, 2, 3, 4, 1, 0];
    let expected = euclid(&FIVE, 0, 2)
        + euclid(&FIVE, 2, 3)
        + euclid(&FIVE, 3, 4)
        + euclid(&FIVE, 4, 1)
        + euclid(&FIVE, 1, 0);
    assert!((length(&m, &route) - expected).abs() < 1e-6);
}

#[test]
fn route_total_of_short_routes_is_zero() {
    let m = matrix_of(&FIVE);
    assert_eq!(length(&m, &vec![]), 0.0);
    assert_eq!(length(&m, &vec![3]), 0.0);
}

#[test]
fn route_total_counts_each_step_in_integers() {
    let m: Vec<Vec<u64>> = build_symmetric(3, 0, &|i: usize, j: usize| (10 * i + j) as u64);
    assert_eq!(m, vec![vec![0, 1, 2], vec![1, 0, 12], vec![2, 12, 0]]);
    let total = route_total(&m, &vec![0, 2, 1, 0], 0u64, &|a: u64, b: u64| a + b);
    assert_eq!(total, 2 + 12 + 1);
}

fn key_of(m: &Vec<Vec<f64>>) -> impl Fn(&Vec<usize>) -> u64 + '_ {
    move |r: &Vec<usize>| length(m, r).to_bits()
}

fn all_orders(rest: &mut Vec<usize>, prefix: &mut Vec<usize>, out: &mut Vec<Vec<usize>>) {
    if rest.is_empty() {
        out.push(prefix.clone());
        return;
    }
    for k in 0..rest.len() {
        let c = rest.remove(k);
        prefix.push(c);
        all_orders(rest, prefix, out);
        prefix.pop();
        rest.insert(k, c);
    }
}

#[test]
fn brute_force_is_optimal_on_small_random_sets() {
    let mut rng = rand::thread_rng();
    for n in 1..=6usize {
        for _ in 0..3 {
            let cities: Vec<(f64, f64)> =
                (0..n).map(|_| (rng.gen_range(0.0..100.0), rng.gen_range(0.0..100.0))).collect();
            let m = matrix_of(&cities);
            let route = best_tour(n, &key_of(&m));
            assert_eq!(route.len(), n + 1);
            assert_eq!(route[0], 0);
            assert_eq!(route[n], 0);
            assert_eq!(sorted(route[..n].to_vec()), (0..n).collect::<Vec<usize>>());
            let best = length(&m, &route);
            let mut orders = Vec::new();
            all_orders(&mut (1..n).collect(), &mut vec![0], &mut orders);
            for mut order in orders {
                order.push(0);
                assert!(best <= length(&m, &order) + 1e-9);
            }
        }
    }
}

#[test]
fn brute_force_on_five_cities() {
    let m = matrix_of(&FIVE);
    let route = best_tour(5, &key_of(&m));
    let best = length(&m, &route);
    let mut orders = Vec::new();
    all_orders(&mut vec![1, 2, 3, 4], &mut vec![0], &mut orders);
    let oracle = orders
        .into_iter()
        .map(|mut o| {
            o.push(0);
            length(&m, &o)
        })
        .fold(f64::INFINITY, f64::min);
    assert_eq!(best, oracle);
}

#[test]
fn brute_force_on_no_city_or_one_city() {
    let empty: Vec<Vec<f64>> = Vec::new();
    let route = best_tour(0, &key_of(&empty));
    assert!(route.is_empty());
    assert_eq!(length(&empty, &route), 0.0);
    let one = matrix_of(&[(3.0, 4.0)]);
    let route = best_tour(1, &key_of(&one));
    assert_eq!(route, vec![0, 0]);
    assert_eq!(length(&one, &route), 0.0);
}

#[test]
fn brute_force_on_two_cities() {
    let m = matrix_of(&[(0.0, 0.0), (3.0, 4.0)]);
    let route = best_tour(2, &key_of(&m));
    assert_eq!(route, vec![0, 1, 0]);
    assert_eq!(length(&m, &route), 10.0);
}

#[test]
fn brute_force_keeps_first_of_equal_tours() {
    let route = best_tour(4, &|_: &Vec<usize>| 5u64);
    assert_eq!(route, vec![0, 1, 2, 3, 0]);
}

fn assert_closed_permutation(route: &[usize], n: usize) {
    assert_eq!(route.len(), n + 1);
    assert_eq!(route[0], route[n]);
    assert_eq!(sorted(route[..n].to_vec()), (0..n).collect::<Vec<usize>>());
}

#[test]
fn generate_gives_closed_permutations() {
    let mut rng = rand::thread_rng();
    for n in 1..=8usize {
        for _ in 0..20 {
            let c = generate_candidate(n, &mut rng);
            assert_closed_permutation(&c.route, n);
        }
    }
}

#[test]
fn tweak_keeps_a_closed_permutation() {
    let mut rng = rand::thread_rng();
    let m = matrix_of(&FIVE);
    let cost = key_of(&m);
    let mut c = generate_candidate(5, &mut rng);
    for _ in 0..200 {
        let next = tweak_candidate(&c, &mut rng, &cost);
        assert_closed_permutation(&next.route, 5);
        c = next;
    }
}

#[test]
fn tweak_leaves_small_routes_alone() {
    let mut rng = rand::thread_rng();
    let m = matrix_of(&FIVE);
    let cost = key_of(&m);
    for route in [vec![0, 0], vec![0, 1, 0], vec![1, 0, 1]] {
        let c = Candidate { route: route.clone() };
        let next = tweak_candidate(&c, &mut rng, &cost);
        assert_eq!(next.route, route);
        assert_eq!(length(&m, &next.route), length(&m, &route));
    }
}

#[test]
fn tweak_prefers_a_strictly_cheaper_swap() {
    let c = Candidate { route: vec![0, 1, 2, 3, 4, 0] };
    let swap_cheaper = |r: &Vec<usize>| if *r == vec![0, 4, 2, 3, 1, 0] { 1u64 } else { 2u64 };
    let next = tweak_with_draws(&c, 9, 1, &swap_cheaper);
    assert_eq!(next.route, vec![0, 4, 2, 3, 1, 0]);
}

#[test]
fn tweak_compares_the_closed_tours() {
    let line = [(0.0, 0.0), (5.0, 0.0), (3.0, 0.0), (1.0, 0.0), (-10.0, 0.0)];
    let m = matrix_of(&line);
    let c = Candidate { route: vec![0, 1, 2, 3, 4, 0] };
    assert_eq!(length(&m, &vec![2, 1, 0, 3, 4]), 19.0);
    assert_eq!(length(&m, &vec![0, 1, 2, 3, 4]), 20.0);
    assert_eq!(length(&m, &vec![2, 1, 0, 3, 4, 2]), 32.0);
    assert_eq!(length(&m, &vec![0, 1, 2, 3, 4, 0]), 30.0);
    let next = tweak_with_draws(&c, 0, 2, &key_of(&m));
    assert_eq!(next.route, vec![0, 1, 2, 3, 4, 0]);
}

#[test]
fn route_total_of_short_routes_ignores_the_table() {
    let empty: Vec<Vec<f64>> = Vec::new();
    assert_eq!(length(&empty, &vec![]), 0.0);
    assert_eq!(length(&empty, &vec![7]), 0.0);
}

#[test]
fn brute_force_keeps_the_lexicographically_first_tour() {
    let prefer = |r: &Vec<usize>| if *r == vec![0, 2, 1, 3, 0] || *r == vec![0, 3, 1, 2, 0] { 1u64 } else { 4u64 };
    assert_eq!(best_tour(4, &prefer), vec![0, 2, 1, 3, 0]);
}

#[test]
fn tweak_takes_the_reversal_on_equal_keys() {
    let c = Candidate { route: vec![0, 1, 2, 3, 4, 0] };
    let flat = |_: &Vec<usize>| 7u64;
    let next = tweak_with_draws(&c, 1, 4, &flat);
    assert_eq!(next.route, vec![0, 1, 3, 2, 4, 0]);
}

#[test]
fn tweak_takes_a_cheaper_reversal() {
    let c = Candidate { route: vec![5, 1, 2, 3, 4, 0, 5] };
    let reversal_cheaper = |r: &Vec<usize>| if *r == vec![5, 4, 3, 2, 1, 0, 5] { 0u64 } else { 9u64 };
    let next = tweak_with_draws(&c, 6, 5, &reversal_cheaper);
    assert_eq!(next.route, vec![5, 4, 3, 2, 1, 0, 5]);
}

#[test]
fn tweak_on_equal_draws_keeps_the_route() {
    let c = Candidate { route: vec![0, 3, 1, 2, 0] };
    let next = tweak_with_draws(&c, 2, 6, &|_: &Vec<usize>| 0u64);
    assert_eq!(next.route, vec![0, 3, 1, 2, 0]);
}

#[test]
fn clone_copies_the_route() {
    let c = Candidate { route: vec![2, 0, 1, 2] };
    let d = clone_candidate(&c);
    assert_eq!(d.route, c.route);
}

#[test]
fn candidate_from_order_closes_the_loop() {
    let c = candidate_from_order(vec![2, 0, 1], 3);
    assert_eq!(c.route, vec![2, 0, 1, 2]);
}

#[test]
fn route_moves() {
    let open = vec![0, 1, 2, 3, 4, 5];
    assert_eq!(swap_move(&open, 1, 4), vec![0, 4, 2, 3, 1, 5]);
    assert_eq!(swap_move(&open, 2, 2), open);
    assert_eq!(reversal_move(&open, 0, 5), vec![0, 4, 3, 2, 1, 5]);
    assert_eq!(reversal_move(&open, 1, 3), vec![0, 1, 2, 3, 4, 5]);
    assert_eq!(reversal_move(&open, 1, 2), open);
    assert_eq!(identity_route(4), vec![0, 1, 2, 3]);
    assert!(identity_route(0).is_empty());
    assert_eq!(close_loop(vec![3, 1, 2]), vec![3, 1, 2, 3]);
    assert_eq!(open_part(&vec![3, 1, 2, 3]), vec![3, 1, 2]);
}
