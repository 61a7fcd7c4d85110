use vstd::prelude::*;

use std::rc::Rc;

use crate::instance::{sq_distance, spec_sq_distance, sq_distance_fits, Coord, Instance};
use crate::random::random_usize;
use rand::XorShiftRng;

verus! {

/// The squared distance between cities `a` and `b`.
pub open spec fn dist(coords: Seq<Coord>, a: int, b: int) -> int {
    spec_sq_distance(coords[a], coords[b])
}

/// Every squared distance between two cities fits the range it is computed in.
pub open spec fn coords_fit(coords: Seq<Coord>) -> bool {
    forall|a: int, b: int|
        0 <= a < coords.len() && 0 <= b < coords.len() ==> #[trigger] sq_distance_fits(
            coords[a],
            coords[b],
        )
}

/// Every entry of `s` names a city.
pub open spec fn cities_in_range(s: Seq<usize>, n: int) -> bool {
    forall|k: int| 0 <= k < s.len() ==> #[trigger] s[k] < n
}

/// `s` visits each of the cities `0..n` exactly once.
pub open spec fn is_permutation(s: Seq<usize>, n: int) -> bool {
    &&& s.len() == n
    &&& cities_in_range(s, n)
    &&& s.no_duplicates()
}

/// The sum of the edges `s[k] -> s[k + 1]` for `lo <= k < hi`.
pub open spec fn edges(coords: Seq<Coord>, s: Seq<usize>, lo: int, hi: int) -> int
    decreases hi - lo,
{
    if hi <= lo {
        0
    } else {
        edges(coords, s, lo, hi - 1) + dist(coords, s[hi - 1] as int, s[hi] as int)
    }
}

/// The length of the open path through `s`.
pub open spec fn path_length(coords: Seq<Coord>, s: Seq<usize>) -> int {
    if s.len() == 0 {
        0
    } else {
        edges(coords, s, 0, s.len() - 1)
    }
}

/// The length of the closed tour through `s`: the path, and the edge back
/// from its last city to its first.
pub open spec fn tour_length(coords: Seq<Coord>, s: Seq<usize>) -> int {
    if s.len() == 0 {
        0
    } else {
        path_length(coords, s) + dist(coords, s.last() as int, s[0] as int)
    }
}

/// A tour over the cities of an instance; the entries of `cities` are indexes
/// of cities, and the tour closes from the last back to the first.
pub struct Tour {
    pub instance: Rc<Instance>,
    pub cost: u64,
    pub cities: Vec<usize>,
}

impl Tour {
    /// The cities of the tour name cities of its instance, and the distances
    /// between them can be computed.
    pub open spec fn wf(&self) -> bool {
        &&& cities_in_range(self.cities@, self.instance.coords@.len() as int)
        &&& coords_fit(self.instance.coords@)
    }

    /// The number of cities in the tour.
    pub fn size(&self) -> (r: usize)
        ensures
            r == self.cities.len(),
    {
        self.cities.len()
    }
}

/// The sum of the distances of cities `0..k` to city `0`.
pub open spec fn star_sum(coords: Seq<Coord>, k: int) -> int
    decreases k,
{
    if k <= 0 {
        0
    } else {
        star_sum(coords, k - 1) + spec_sq_distance(coords[k - 1], coords[0])
    }
}

/// The cost that `new_tour` records: the distances of all cities to the first
/// city, plus the distance from the last city back to the first.
pub open spec fn star_cost(coords: Seq<Coord>) -> int {
    star_sum(coords, coords.len() as int) + spec_sq_distance(coords.last(), coords[0])
}

/// Squared distances are never negative.
pub proof fn lemma_sq_distance_nonneg(c1: Coord, c2: Coord)
    ensures
        spec_sq_distance(c1, c2) >= 0,
{
    let dx = c2.0 - c1.0;
    let dy = c2.1 - c1.1;
    assert(dx * dx >= 0 && dy * dy >= 0) by (nonlinear_arith);
}

/// The squared distance does not depend on the order of the two points.
pub proof fn lemma_sq_distance_symmetric(c1: Coord, c2: Coord)
    ensures
        spec_sq_distance(c1, c2) == spec_sq_distance(c2, c1),
{
    let dx = c2.0 - c1.0;
    let dy = c2.1 - c1.1;
    assert(dx * dx == (-dx) * (-dx) && dy * dy == (-dy) * (-dy)) by (nonlinear_arith);
}

proof fn lemma_star_sum_monotone(coords: Seq<Coord>, k: int, m: int)
    requires
        0 <= k <= m <= coords.len(),
        coords.len() > 0,
    ensures
        0 <= star_sum(coords, k) <= star_sum(coords, m),
    decreases m,
{
    if m > 0 {
        lemma_sq_distance_nonneg(coords[m - 1], coords[0]);
        if k < m {
            lemma_star_sum_monotone(coords, k, m - 1);
        } else {
            lemma_star_sum_monotone(coords, m - 1, m - 1);
        }
    }
}

/// The sum of distances to city `0` starts at nothing and adds, for each
/// further city, its squared distance to city `0`.
pub proof fn lemma_star_sum(coords: Seq<Coord>, k: int)
    requires
        0 <= k,
    ensures
        star_sum(coords, 0) == 0,
        star_sum(coords, k + 1) == star_sum(coords, k) + spec_sq_distance(coords[k], coords[0]),
{
}

/// Cities before `k` give the same sum whatever follows them.
proof fn lemma_star_sum_prefix(coords: Seq<Coord>, c: Coord, k: int)
    requires
        1 <= coords.len(),
        0 <= k <= coords.len(),
    ensures
        star_sum(coords.push(c), k) == star_sum(coords, k),
    decreases k,
{
    if k > 0 {
        lemma_star_sum_prefix(coords, c, k - 1);
        assert(coords.push(c)[k - 1] == coords[k - 1]);
        assert(coords.push(c)[0] == coords[0]);
    }
}

/// The cost that `new_tour` records: a single city costs nothing, and
/// appending a city `c` to the instance adds twice its squared distance to
/// the first city and replaces the closing edge of the old last city (to the
/// first city) by that of `c`.
pub proof fn lemma_new_tour_cost(coords: Seq<Coord>, c: Coord)
    requires
        coords.len() >= 1,
    ensures
        star_cost(seq![c]) == 0,
        star_cost(coords.push(c)) == star_cost(coords) - spec_sq_distance(
            coords[coords.len() - 1],
            coords[0],
        ) + 2 * spec_sq_distance(c, coords[0]),
{
    let n = coords.len() as int;
    let t = coords.push(c);
    lemma_star_sum_prefix(coords, c, n);
    assert(t[n] == c && t[0] == coords[0] && t.last() == c);
    assert(seq![c].last() == c && seq![c][0] == c);
    assert(star_sum(seq![c], 1) == star_sum(seq![c], 0) + spec_sq_distance(seq![c][0], seq![c][0]));
    assert(spec_sq_distance(c, c) == 0) by (nonlinear_arith);
}

/// The tour that visits the cities in the order of the instance.
///
/// Its recorded cost is not the tour length: each city is measured against
/// the first city, not against the city before it, and the closing edge is
/// added.
pub fn new_tour(inst: Rc<Instance>) -> (tour: Tour)
    requires
        inst.coords.len() >= 1,
        coords_fit(inst.coords@),
        star_sum(inst.coords@, inst.coords.len() as int) + spec_sq_distance(
            inst.coords@[inst.coords.len() - 1],
            inst.coords@[0],
        ) <= u64::MAX,
    ensures
        tour.instance == inst,
        tour.cities@ == Seq::new(inst.coords.len() as nat, |k: int| k as usize),
        tour.cost == star_sum(inst.coords@, inst.coords.len() as int) + spec_sq_distance(
            inst.coords@[inst.coords.len() - 1],
            inst.coords@[0],
        ),
        tour.cost == star_cost(inst.coords@),
        tour.wf(),
{
    let n = inst.coords.len();
    let prev_c = inst.coords[0];
    let mut cities: Vec<usize> = Vec::new();
    let mut cost: u64 = 0;
    let mut i: usize = 0;
    while i < n
        invariant
            n == inst.coords.len(),
            n >= 1,
            prev_c == inst.coords@[0],
            coords_fit(inst.coords@),
            star_cost(inst.coords@) <= u64::MAX,
            i <= n,
            cities@ == Seq::new(i as nat, |k: int| k as usize),
            cost == star_sum(inst.coords@, i as int),
        decreases n - i,
    {
        let c = inst.coords[i];
        cities.push(i);
        assert(sq_distance_fits(inst.coords@[i as int], inst.coords@[0]));
        proof {
            lemma_star_sum_monotone(inst.coords@, i + 1, n as int);
            lemma_sq_distance_nonneg(inst.coords@.last(), inst.coords@[0]);
        }
        cost = cost + sq_distance(c, prev_c);
        i = i + 1;
    }
    let last = cities[cities.len() - 1];
    let first = cities[0];
    assert(sq_distance_fits(inst.coords@[last as int], inst.coords@[first as int]));
    cost = cost + sq_distance(inst.coords[last], inst.coords[first]);
    Tour { instance: inst, cost, cities }
}


/// Among the cities `0..j` that `visited` does not hold, the nearest to city
/// `cur`, the one of smallest index among equally near ones; `-1` if every
/// city below `j` is visited.
pub open spec fn nearest_below(coords: Seq<Coord>, visited: Seq<usize>, cur: int, j: int) -> int
    decreases j,
{
    if j <= 0 {
        -1
    } else {
        let b = nearest_below(coords, visited, cur, j - 1);
        if visited.contains((j - 1) as usize) {
            b
        } else if b < 0 || dist(coords, cur, j - 1) < dist(coords, cur, b) {
            j - 1
        } else {
            b
        }
    }
}

/// The first `k` cities of the nearest-neighbour tour from city `0`.
pub open spec fn greedy_prefix(coords: Seq<Coord>, k: nat) -> Seq<usize>
    decreases k,
{
    if k <= 1 {
        seq![0usize]
    } else {
        let p = greedy_prefix(coords, (k - 1) as nat);
        p.push(nearest_below(coords, p, p.last() as int, coords.len() as int) as usize)
    }
}

/// The nearest-neighbour order of all the cities, starting at city `0`.
pub open spec fn greedy_order(coords: Seq<Coord>) -> Seq<usize> {
    greedy_prefix(coords, coords.len())
}

/// What `nearest_below` picks: an unvisited city that no unvisited city
/// below `j` beats, by distance and then by index.
pub proof fn lemma_nearest_below(coords: Seq<Coord>, visited: Seq<usize>, cur: int, j: int)
    requires
        0 <= j <= usize::MAX,
    ensures
        -1 <= nearest_below(coords, visited, cur, j) < j,
        nearest_below(coords, visited, cur, j) >= 0 ==> !visited.contains(
            nearest_below(coords, visited, cur, j) as usize,
        ),
        nearest_below(coords, visited, cur, j) >= 0 ==> forall|m: int|
            0 <= m < j && !(#[trigger] visited.contains(m as usize)) ==> {
                let r = nearest_below(coords, visited, cur, j);
                ||| dist(coords, cur, r) < dist(coords, cur, m)
                ||| (dist(coords, cur, r) == dist(coords, cur, m) && r <= m)
            },
        nearest_below(coords, visited, cur, j) < 0 ==> forall|m: int|
            0 <= m < j ==> #[trigger] visited.contains(m as usize),
    decreases j,
{
    if j > 0 {
        lemma_nearest_below(coords, visited, cur, j - 1);
    }
}

/// A sequence of distinct cities below `n` that is shorter than `n` leaves
/// some city out.
pub proof fn lemma_unvisited_exists(s: Seq<usize>, n: int)
    requires
        s.no_duplicates(),
        cities_in_range(s, n),
        s.len() < n <= usize::MAX,
    ensures
        exists|m: int| 0 <= m < n && !(#[trigger] s.contains(m as usize)),
{
    if forall|m: int| 0 <= m < n ==> #[trigger] s.contains(m as usize) {
        let r = Set::<usize>::range(0, n as usize);
        <usize as vstd::set_lib::FiniteRange>::range_properties(0, n as usize);
        assert(r.subset_of(s.to_set())) by {
            assert forall|u: usize| r.contains(u) implies s.to_set().contains(u) by {
                assert(s.contains(u as int as usize));
            }
        }
        vstd::seq_lib::seq_to_set_is_finite(s);
        vstd::set_lib::lemma_len_subset(r, s.to_set());
        s.unique_seq_to_set();
        assert(false);
    }
}

/// The prefixes of the nearest-neighbour order are distinct cities that start
/// at city `0`.
pub proof fn lemma_greedy_prefix(coords: Seq<Coord>, k: nat)
    requires
        1 <= k <= coords.len() <= usize::MAX,
    ensures
        greedy_prefix(coords, k).len() == k,
        greedy_prefix(coords, k)[0] == 0,
        cities_in_range(greedy_prefix(coords, k), coords.len() as int),
        greedy_prefix(coords, k).no_duplicates(),
    decreases k,
{
    if k > 1 {
        let p = greedy_prefix(coords, (k - 1) as nat);
        lemma_greedy_prefix(coords, (k - 1) as nat);
        let n = coords.len() as int;
        lemma_unvisited_exists(p, n);
        lemma_nearest_below(coords, p, p.last() as int, n);
        let r = nearest_below(coords, p, p.last() as int, n);
        let s = p.push(r as usize);
        assert(s == greedy_prefix(coords, k));
        assert(s.no_duplicates()) by {
            assert forall|a: int, b: int| 0 <= a < b < s.len() implies s[a] != s[b] by {
                if b == s.len() - 1 {
                    assert(p.contains(s[a]));
                }
            }
        }
    }
}

/// A shorter prefix of the nearest-neighbour order is a prefix of a longer one.
pub proof fn lemma_greedy_prefix_take(coords: Seq<Coord>, k: nat, m: nat)
    requires
        1 <= k <= m <= coords.len() <= usize::MAX,
    ensures
        greedy_prefix(coords, k) == greedy_prefix(coords, m).take(k as int),
    decreases m,
{
    lemma_greedy_prefix(coords, m);
    if k < m {
        lemma_greedy_prefix_take(coords, k, (m - 1) as nat);
        lemma_greedy_prefix(coords, (m - 1) as nat);
        let p = greedy_prefix(coords, (m - 1) as nat);
        assert(greedy_prefix(coords, m).take(k as int) == p.take(k as int));
    } else {
        assert(greedy_prefix(coords, m).take(k as int) == greedy_prefix(coords, m));
    }
}

/// Edges between positions on which two sequences agree have the same sum.
pub proof fn lemma_edges_agree(coords: Seq<Coord>, s: Seq<usize>, t: Seq<usize>, lo: int, hi: int)
    requires
        forall|k: int| lo <= k <= hi ==> s[k] == t[k],
    ensures
        edges(coords, s, lo, hi) == edges(coords, t, lo, hi),
    decreases hi - lo,
{
    if hi > lo {
        lemma_edges_agree(coords, s, t, lo, hi - 1);
    }
}

/// Sums of edges grow with their range.
pub proof fn lemma_edges_monotone(coords: Seq<Coord>, s: Seq<usize>, lo: int, h1: int, h2: int)
    requires
        lo <= h1 <= h2,
    ensures
        0 <= edges(coords, s, lo, h1) <= edges(coords, s, lo, h2),
    decreases h2 - lo,
{
    if h2 > h1 {
        lemma_sq_distance_nonneg(coords[s[h2 - 1] as int], coords[s[h2] as int]);
        lemma_edges_monotone(coords, s, lo, h1, h2 - 1);
    } else if h1 > lo {
        lemma_sq_distance_nonneg(coords[s[h1 - 1] as int], coords[s[h1] as int]);
        lemma_edges_monotone(coords, s, lo, h1 - 1, h1 - 1);
    }
}

/// Extending a path by one city adds the edge to that city.
pub proof fn lemma_path_push(coords: Seq<Coord>, s: Seq<usize>, x: usize)
    requires
        s.len() >= 1,
    ensures
        path_length(coords, s.push(x)) == path_length(coords, s) + dist(
            coords,
            s.last() as int,
            x as int,
        ),
{
    lemma_edges_agree(coords, s, s.push(x), 0, s.len() - 1);
}

/// A prefix of a path is no longer than the path.
pub proof fn lemma_path_prefix(coords: Seq<Coord>, s: Seq<usize>, k: int)
    requires
        1 <= k <= s.len(),
    ensures
        path_length(coords, s.take(k)) <= path_length(coords, s),
        0 <= path_length(coords, s) <= tour_length(coords, s),
{
    lemma_edges_agree(coords, s, s.take(k), 0, k - 1);
    lemma_edges_monotone(coords, s, 0, k - 1, s.len() - 1);
    lemma_sq_distance_nonneg(coords[s.last() as int], coords[s[0] as int]);
}

/// The tour that starts at the first city and always goes on to the nearest
/// city not yet visited (the one of smallest index among equally near ones).
pub fn new_tour_greedy(inst: Rc<Instance>) -> (tour: Tour)
    requires
        inst.coords.len() >= 1,
        coords_fit(inst.coords@),
        tour_length(inst.coords@, greedy_order(inst.coords@)) <= u64::MAX,
    ensures
        tour.instance == inst,
        tour.cities@ == greedy_order(inst.coords@),
        tour.cost == tour_length(inst.coords@, tour.cities@),
        tour.wf(),
{
    let n = inst.coords.len();
    let ghost coords = inst.coords@;
    let mut curr_city = inst.coords[0];
    let mut done: Vec<bool> = Vec::new();
    let mut z: usize = 0;
    while z < n
        invariant
            z <= n,
            done.len() == z,
            forall|c: int| 0 <= c < z ==> !done[c],
        decreases n - z,
    {
        done.push(false);
        z = z + 1;
    }
    done.set(0, true);
    let mut cities: Vec<usize> = Vec::new();
    cities.push(0);
    let mut cost: u64 = 0;
    proof {
        lemma_greedy_prefix(coords, n as nat);
        lemma_path_prefix(coords, greedy_order(coords), 1);
        assert(cities@ == greedy_prefix(coords, 1));
        assert forall|c: int| 0 <= c < n implies done[c] == cities@.contains(c as usize) by {
            if c != 0 {
                assert(!cities@.contains(c as usize)) by {
                    if cities@.contains(c as usize) {
                        let w = choose|w: int| 0 <= w < cities@.len() && cities@[w] == c as usize;
                    }
                }
            } else {
                assert(cities@[0] == 0);
            }
        }
    }
    while cities.len() < n
        invariant
            n == inst.coords.len(),
            coords == inst.coords@,
            coords_fit(coords),
            tour_length(coords, greedy_order(coords)) <= u64::MAX,
            1 <= cities.len() <= n,
            cities@ == greedy_prefix(coords, cities.len() as nat),
            done.len() == n,
            forall|c: int| 0 <= c < n ==> done[c] == cities@.contains(c as usize),
            curr_city == coords[cities@.last() as int],
            cost == path_length(coords, cities@),
        decreases n - cities.len(),
    {
        let ghost cur = cities@.last() as int;
        proof {
            lemma_greedy_prefix(coords, cities.len() as nat);
            assert(cities@[cities.len() - 1] < n);
        }
        let mut best: usize = n;
        let mut best_d: u64 = 0;
        let mut j: usize = 0;
        while j < n
            invariant
                n == inst.coords.len(),
                coords == inst.coords@,
                coords_fit(coords),
                cities_in_range(cities@, n as int),
                cities.len() >= 1,
                0 <= cur < n,
                cur == cities@.last() as int,
                curr_city == coords[cur],
                done.len() == n,
                forall|c: int| 0 <= c < n ==> done[c] == cities@.contains(c as usize),
                j <= n,
                nearest_below(coords, cities@, cur, j as int) < 0 ==> best == n,
                nearest_below(coords, cities@, cur, j as int) >= 0 ==> best
                    == nearest_below(coords, cities@, cur, j as int) && best_d == dist(
                    coords,
                    cur,
                    best as int,
                ),
            decreases n - j,
        {
            proof {
                lemma_nearest_below(coords, cities@, cur, j as int);
            }
            if !done[j] {
                assert(sq_distance_fits(coords[cur], coords[j as int]));
                let dj = sq_distance(curr_city, inst.coords[j]);
                if best == n || dj < best_d {
                    best = j;
                    best_d = dj;
                }
            }
            j = j + 1;
        }
        proof {
            lemma_unvisited_exists(cities@, n as int);
            lemma_nearest_below(coords, cities@, cur, n as int);
            let k = cities.len() as nat;
            lemma_greedy_prefix_take(coords, k + 1, n as nat);
            lemma_greedy_prefix(coords, n as nat);
            lemma_path_push(coords, cities@, best);
            lemma_path_prefix(coords, greedy_order(coords), (k + 1) as int);
        }
        let ghost before = cities@;
        done.set(best, true);
        cities.push(best);
        cost = cost + best_d;
        proof {
            assert forall|c: int| 0 <= c < n implies done[c] == cities@.contains(c as usize) by {
                if c == best {
                    assert(cities@[cities@.len() - 1] == best);
                } else {
                    if cities@.contains(c as usize) {
                        let w = choose|w: int| 0 <= w < cities@.len() && cities@[w] == c as usize;
                        assert(before[w] == c as usize);
                    }
                    if before.contains(c as usize) {
                        let w = choose|w: int| 0 <= w < before.len() && before[w] == c as usize;
                        assert(cities@[w] == c as usize);
                    }
                }
            }
        }
        curr_city = inst.coords[cities[cities.len() - 1]];
    }
    proof {
        lemma_greedy_prefix(coords, n as nat);
        lemma_path_prefix(coords, cities@, n as int);
    }
    let last = cities[cities.len() - 1];
    let first = cities[0];
    assert(sq_distance_fits(coords[last as int], coords[first as int]));
    cost = cost + sq_distance(inst.coords[last], inst.coords[first]);
    Tour { instance: inst, cost, cities }
}


/// The nearest-neighbour order visits every city once, starts at city `0`,
/// and goes from each city to the nearest city not yet visited, the one of
/// smallest index among equally near ones.
pub proof fn lemma_greedy_order(coords: Seq<Coord>)
    requires
        1 <= coords.len() <= usize::MAX,
    ensures
        is_permutation(greedy_order(coords), coords.len() as int),
        greedy_order(coords)[0] == 0,
        forall|k: int, m: int|
            1 <= k < coords.len() && 0 <= m < coords.len() && !(#[trigger] greedy_order(
                coords,
            ).take(k).contains(m as usize)) ==> {
                let s = greedy_order(coords);
                ||| dist(coords, s[k - 1] as int, s[k] as int) < dist(
                    coords,
                    s[k - 1] as int,
                    m,
                )
                ||| (dist(coords, s[k - 1] as int, s[k] as int) == dist(
                    coords,
                    s[k - 1] as int,
                    m,
                ) && s[k] <= m)
            },
{
    let n = coords.len();
    let s = greedy_order(coords);
    lemma_greedy_prefix(coords, n);
    assert forall|k: int, m: int|
        1 <= k < n && 0 <= m < n && !(#[trigger] s.take(k).contains(m as usize)) implies {
        ||| dist(coords, s[k - 1] as int, s[k] as int) < dist(coords, s[k - 1] as int, m)
        ||| (dist(coords, s[k - 1] as int, s[k] as int) == dist(coords, s[k - 1] as int, m)
            && s[k] <= m)
    } by {
        lemma_greedy_prefix_take(coords, k as nat, n);
        lemma_greedy_prefix_take(coords, (k + 1) as nat, n);
        lemma_greedy_prefix(coords, k as nat);
        let p = greedy_prefix(coords, k as nat);
        assert(greedy_prefix(coords, (k + 1) as nat)[k] == s[k]);
        assert(p.last() == s[k - 1]);
        lemma_nearest_below(coords, p, p.last() as int, n as int);
        lemma_unvisited_exists(p, n as int);
    }
}


/// `i` and `j` are positions that a random local search step may swap: never
/// the first city, and `i` before `j`.
pub open spec fn valid_swap(n: int, i: int, j: int) -> bool {
    1 <= i < j <= n - 1
}

/// The tour `s` with the cities at positions `i` and `j` exchanged.
pub open spec fn swapped(s: Seq<usize>, i: int, j: int) -> Seq<usize> {
    s.update(i, s[j]).update(j, s[i])
}

/// The distance between the cities at positions `a` and `b` of `s`.
pub open spec fn pos_dist(coords: Seq<Coord>, s: Seq<usize>, a: int, b: int) -> int {
    dist(coords, s[a] as int, s[b] as int)
}

/// The change of the edges around position `i` when it receives the city of `j`.
pub open spec fn delta_i1(coords: Seq<Coord>, s: Seq<usize>, i: int, j: int) -> int {
    pos_dist(coords, s, i - 1, j) - pos_dist(coords, s, i - 1, i)
}

/// The change of the edge after position `i` when it receives the city of `j`.
pub open spec fn delta_i2(coords: Seq<Coord>, s: Seq<usize>, i: int, j: int) -> int {
    pos_dist(coords, s, j, i + 1) - pos_dist(coords, s, i, i + 1)
}

/// The change of the edge before position `j` when it receives the city of `i`.
pub open spec fn delta_j1(coords: Seq<Coord>, s: Seq<usize>, i: int, j: int) -> int {
    pos_dist(coords, s, j - 1, i) - pos_dist(coords, s, j - 1, j)
}

/// The change of the edge after position `j` (closing the tour if `j` is
/// last) when it receives the city of `i`.
pub open spec fn delta_j2(coords: Seq<Coord>, s: Seq<usize>, i: int, j: int) -> int {
    let nj = (j + 1) % (s.len() as int);
    pos_dist(coords, s, i, nj) - pos_dist(coords, s, j, nj)
}

/// The change of tour length that swapping positions `i` and `j` makes, as
/// the search computes it; adjacent positions share their middle edge.
pub open spec fn spec_swap_delta(coords: Seq<Coord>, s: Seq<usize>, i: int, j: int) -> int {
    delta_i1(coords, s, i, j) + delta_j2(coords, s, i, j) + (if i + 1 == j {
        0
    } else {
        delta_j1(coords, s, i, j) + delta_i2(coords, s, i, j)
    })
}

/// The sums that the computation of the swap change forms fit in `i64`.
pub open spec fn swap_delta_fits(coords: Seq<Coord>, s: Seq<usize>, i: int, j: int) -> bool {
    let a = delta_i1(coords, s, i, j) + delta_j2(coords, s, i, j);
    let b = delta_j1(coords, s, i, j) + delta_i2(coords, s, i, j);
    &&& i64::MIN <= a <= i64::MAX
    &&& i + 1 != j ==> i64::MIN <= b <= i64::MAX
    &&& i64::MIN <= spec_swap_delta(coords, s, i, j) <= i64::MAX
}

/// Every swap that a random local search step may draw can be computed.
pub open spec fn swaps_fit(coords: Seq<Coord>, s: Seq<usize>) -> bool {
    forall|i: int, j: int|
        valid_swap(s.len() as int, i, j) ==> #[trigger] swap_delta_fits(coords, s, i, j)
}

/// `cost + delta`, wrapped into the 64-bit unsigned range.
pub open spec fn wrapped_add(cost: u64, delta: i64) -> u64 {
    if cost + delta > u64::MAX {
        (cost + delta - 0x1_0000_0000_0000_0000) as u64
    } else if cost + delta < 0 {
        (cost + delta + 0x1_0000_0000_0000_0000) as u64
    } else {
        (cost + delta) as u64
    }
}

/// A sum of edges splits at any position in its range.
pub proof fn lemma_edges_split(coords: Seq<Coord>, s: Seq<usize>, lo: int, m: int, hi: int)
    requires
        lo <= m <= hi,
    ensures
        edges(coords, s, lo, hi) == edges(coords, s, lo, m) + edges(coords, s, m, hi),
    decreases hi - m,
{
    if hi > m {
        lemma_edges_split(coords, s, lo, m, hi - 1);
    }
}

/// The sum of one or two consecutive edges.
proof fn lemma_short_edges(coords: Seq<Coord>, s: Seq<usize>, a: int)
    ensures
        edges(coords, s, a, a + 1) == pos_dist(coords, s, a, a + 1),
        edges(coords, s, a, a + 2) == pos_dist(coords, s, a, a + 1) + pos_dist(
            coords,
            s,
            a + 1,
            a + 2,
        ),
        edges(coords, s, a, a + 3) == pos_dist(coords, s, a, a + 1) + pos_dist(
            coords,
            s,
            a + 1,
            a + 2,
        ) + pos_dist(coords, s, a + 2, a + 3),
{
    reveal_with_fuel(edges, 4);
}

/// Swapping the cities at positions `i` and `j` changes the length of the
/// tour by exactly the change that the random local search computes.
pub proof fn lemma_swap_delta(coords: Seq<Coord>, s: Seq<usize>, i: int, j: int)
    requires
        valid_swap(s.len() as int, i, j),
    ensures
        tour_length(coords, swapped(s, i, j)) == tour_length(coords, s) + spec_swap_delta(
            coords,
            s,
            i,
            j,
        ),
{
    let n = s.len() as int;
    let t = swapped(s, i, j);
    assert(t.len() == n);
    lemma_edges_agree(coords, s, t, 0, i - 1);
    lemma_short_edges(coords, s, i - 1);
    lemma_short_edges(coords, t, i - 1);
    lemma_short_edges(coords, s, j - 1);
    lemma_short_edges(coords, t, j - 1);
    lemma_edges_split(coords, s, 0, i - 1, n - 1);
    lemma_edges_split(coords, t, 0, i - 1, n - 1);
    if j < n - 1 {
        lemma_edges_agree(coords, s, t, j + 1, n - 1);
        assert((j + 1) % n == j + 1) by (nonlinear_arith)
            requires
                0 <= j + 1 < n,
        ;
    } else {
        assert((j + 1) % n == 0) by (nonlinear_arith)
            requires
                j + 1 == n,
                n > 0,
        ;
    }
    if i + 1 < j {
        lemma_edges_agree(coords, s, t, i + 1, j - 1);
        lemma_edges_split(coords, s, i - 1, i + 1, n - 1);
        lemma_edges_split(coords, t, i - 1, i + 1, n - 1);
        lemma_edges_split(coords, s, i + 1, j - 1, n - 1);
        lemma_edges_split(coords, t, i + 1, j - 1, n - 1);
        if j < n - 1 {
            lemma_edges_split(coords, s, j - 1, j + 1, n - 1);
            lemma_edges_split(coords, t, j - 1, j + 1, n - 1);
            assert(edges(coords, t, 0, n - 1) - edges(coords, s, 0, n - 1) == delta_i1(coords, s, i, j)
                + delta_i2(coords, s, i, j) + delta_j1(coords, s, i, j) + delta_j2(coords, s, i, j));
        } else {
            assert(edges(coords, t, 0, n - 1) - edges(coords, s, 0, n - 1) == delta_i1(coords, s, i, j)
                + delta_i2(coords, s, i, j) + delta_j1(coords, s, i, j));
        }
    } else {
        lemma_sq_distance_symmetric(coords[s[i] as int], coords[s[j] as int]);
        if j < n - 1 {
            lemma_edges_split(coords, s, i - 1, j + 1, n - 1);
            lemma_edges_split(coords, t, i - 1, j + 1, n - 1);
            assert(edges(coords, t, 0, n - 1) - edges(coords, s, 0, n - 1) == delta_i1(coords, s, i, j)
                + delta_j2(coords, s, i, j));
        } else {
            assert(edges(coords, t, 0, n - 1) - edges(coords, s, 0, n - 1) == delta_i1(coords, s, i, j));
        }
    }
}

/// The positions that two random numbers select: the first in `1..=n-2`,
/// the second after it, up to `n - 1`.
pub open spec fn swap_from_draws(n: int, r1: int, r2: int) -> (int, int) {
    let i = r1 % (n - 2) + 1;
    (i, r2 % (n - i - 1) + i + 1)
}

/// Every swap that a random local search step may make is selected by some
/// pair of random numbers: the first number picks `i` and the second, on its
/// own, picks any later `j`. In particular, from four cities on, some draws
/// select positions that are not neighbours.
pub proof fn lemma_swap_from_draws_covers(n: int, i: int, j: int)
    requires
        valid_swap(n, i, j),
    ensures
        swap_from_draws(n, i - 1, j - i - 1) == (i, j),
        forall|r2: int| 0 <= r2 ==> #[trigger] swap_from_draws(n, i - 1, r2).0 == i,
        forall|r2: int|
            0 <= r2 ==> #[trigger] swap_from_draws(n, i - 1, r2).1 - i - 1 == r2 % (n - i - 1),
{
    assert((i - 1) % (n - 2) == i - 1) by (nonlinear_arith)
        requires
            0 <= i - 1 < n - 2,
    ;
    assert((j - i - 1) % (n - i - 1) == j - i - 1) by (nonlinear_arith)
        requires
            0 <= j - i - 1 < n - i - 1,
    ;
}

/// The two positions that a random local search step swaps, from two random
/// numbers: the first in `1..=n-2`, the second after it.
pub fn pick_swap(n: usize, r1: usize, r2: usize) -> (ij: (usize, usize))
    requires
        n >= 3,
    ensures
        ij.0 == r1 % ((n - 2) as usize) + 1,
        ij.1 == r2 % ((n - ij.0 - 1) as usize) + ij.0 + 1,
        (ij.0 as int, ij.1 as int) == swap_from_draws(n as int, r1 as int, r2 as int),
        valid_swap(n as int, ij.0 as int, ij.1 as int),
{
    let i = r1 % (n - 2) + 1;
    let j = r2 % (n - i - 1) + i + 1;
    (i, j)
}

impl Tour {
    /// The distance between the cities at positions `a` and `b` of the tour.
    fn dist_between(&self, a: usize, b: usize) -> (r: i64)
        requires
            self.wf(),
            a < self.cities.len(),
            b < self.cities.len(),
        ensures
            r == pos_dist(self.instance.coords@, self.cities@, a as int, b as int),
            r >= 0,
    {
        let ca = self.cities[a];
        let cb = self.cities[b];
        assert(sq_distance_fits(self.instance.coords@[ca as int], self.instance.coords@[cb as int]));
        proof {
            lemma_sq_distance_nonneg(self.instance.coords@[ca as int], self.instance.coords@[cb as int]);
        }
        let tmp = sq_distance(self.instance.coords[ca], self.instance.coords[cb]);
        tmp as i64
    }

    /// The change of tour length that swapping the cities at positions `i`
    /// and `j` makes.
    pub fn swap_delta(&self, i: usize, j: usize) -> (d: i64)
        requires
            self.wf(),
            valid_swap(self.cities.len() as int, i as int, j as int),
            swap_delta_fits(self.instance.coords@, self.cities@, i as int, j as int),
        ensures
            d == spec_swap_delta(self.instance.coords@, self.cities@, i as int, j as int),
    {
        let n = self.cities.len();
        let di_1 = self.dist_between(i - 1, j) - self.dist_between(i - 1, i);
        let di_2 = self.dist_between(j, i + 1) - self.dist_between(i, i + 1);
        let dj_1 = self.dist_between(j - 1, i) - self.dist_between(j - 1, j);
        let dj_2 = self.dist_between(i, (j + 1) % n) - self.dist_between(j, (j + 1) % n);
        di_1 + dj_2 + {
            if (i + 1) == j {
                0
            } else {
                dj_1 + di_2
            }
        }
    }

    /// Draws the two positions of a random local search step and computes
    /// the change of tour length that swapping them makes.
    ///
    /// Whatever the generator gives, the positions are a valid swap and the
    /// change is exact.
    pub fn rls_propose(&self, rng: &mut XorShiftRng) -> (r: (usize, usize, i64))
        requires
            self.wf(),
            self.cities.len() >= 3,
            swaps_fit(self.instance.coords@, self.cities@),
        ensures
            valid_swap(self.cities.len() as int, r.0 as int, r.1 as int),
            r.2 == spec_swap_delta(self.instance.coords@, self.cities@, r.0 as int, r.1 as int),
            exists|r1: usize, r2: usize|
                #[trigger] swap_from_draws(self.cities.len() as int, r1 as int, r2 as int) == (
                    r.0 as int,
                    r.1 as int,
                ),
    {
        let n = self.size();
        let r1 = random_usize(rng);
        let r2 = random_usize(rng);
        let (i, j) = pick_swap(n, r1, r2);
        assert(swap_from_draws(n as int, r1 as int, r2 as int) == (i as int, j as int));
        assert(swap_delta_fits(self.instance.coords@, self.cities@, i as int, j as int));
        let delta = self.swap_delta(i, j);
        (i, j, delta)
    }

    /// Ends a random local search step: when `accepting`, swaps the cities at
    /// positions `i` and `j` and adds `delta` to the cost (wrapping, as the
    /// cost is unsigned). Returns whether the step improves the tour and
    /// whether it was taken.
    pub fn rls_commit(&mut self, i: usize, j: usize, delta: i64, accepting: bool) -> (r: (
        bool,
        bool,
    ))
        requires
            i < old(self).cities.len(),
            j < old(self).cities.len(),
        ensures
            r == (delta < 0, accepting),
            final(self).instance == old(self).instance,
            accepting ==> final(self).cities@ == swapped(old(self).cities@, i as int, j as int),
            accepting ==> final(self).cost == wrapped_add(old(self).cost, delta),
            !accepting ==> *final(self) == *old(self),
            old(self).wf() ==> final(self).wf(),
    {
        let improving = delta < 0;
        if accepting {
            let ci = self.cities[i];
            let cj = self.cities[j];
            self.cities.set(i, cj);
            self.cities.set(j, ci);
            self.cost = self.cost.wrapping_add_signed(delta);
        }
        (improving, accepting)
    }
}


impl Tour {
    /// One step of random local search: draws two positions, computes the
    /// change of tour length that swapping them makes, asks `accept` whether
    /// to take it, and swaps them if so. Returns whether the step improves the
    /// tour and whether it was taken.
    pub fn rls_try_one<F: Fn(i64) -> bool>(&mut self, rng: &mut XorShiftRng, accept: F) -> (r: (
        bool,
        bool,
    ))
        requires
            old(self).wf(),
            old(self).cities.len() >= 3,
            swaps_fit(old(self).instance.coords@, old(self).cities@),
            forall|d: i64| accept.requires((d,)),
        ensures
            final(self).instance == old(self).instance,
            final(self).wf(),
            exists|i: int, j: int|
                {
                    let delta = spec_swap_delta(old(self).instance.coords@, old(self).cities@, i, j);
                    &&& #[trigger] valid_swap(old(self).cities.len() as int, i, j)
                    &&& r.0 == (delta < 0)
                    &&& accept.ensures((delta as i64,), r.1)
                    &&& r.1 ==> final(self).cities@ == swapped(old(self).cities@, i, j)
                        && final(self).cost == wrapped_add(old(self).cost, delta as i64)
                    &&& !r.1 ==> *final(self) == *old(self)
                },
    {
        let (i, j, delta) = self.rls_propose(rng);
        let accepting = accept(delta);
        let r = self.rls_commit(i, j, delta, accepting);
        assert(valid_swap(old(self).cities.len() as int, i as int, j as int));
        r
    }
}

/// A random local search step keeps the recorded cost equal to the tour
/// length, and keeps the tour a permutation of the cities, as long as the new
/// length fits the cost's range.
pub proof fn lemma_rls_step_keeps_cost(
    coords: Seq<Coord>,
    s: Seq<usize>,
    cost: u64,
    i: int,
    j: int,
)
    requires
        valid_swap(s.len() as int, i, j),
        cost == tour_length(coords, s),
        i64::MIN <= spec_swap_delta(coords, s, i, j) <= i64::MAX,
        tour_length(coords, swapped(s, i, j)) <= u64::MAX,
    ensures
        wrapped_add(cost, spec_swap_delta(coords, s, i, j) as i64) == tour_length(
            coords,
            swapped(s, i, j),
        ),
        is_permutation(s, s.len() as int) ==> is_permutation(
            swapped(s, i, j),
            s.len() as int,
        ),
{
    lemma_swap_delta(coords, s, i, j);
    lemma_path_prefix(coords, swapped(s, i, j), 1);
    let t = swapped(s, i, j);
    if is_permutation(s, s.len() as int) {
        assert(t.no_duplicates()) by {
            assert forall|a: int, b: int| 0 <= a < b < t.len() implies t[a] != t[b] by {
                let pa = if a == i {
                    j
                } else if a == j {
                    i
                } else {
                    a
                };
                let pb = if b == i {
                    j
                } else if b == j {
                    i
                } else {
                    b
                };
                assert(t[a] == s[pa] && t[b] == s[pb] && pa != pb);
            }
        }
        assert(cities_in_range(t, s.len() as int)) by {
            assert forall|k: int| 0 <= k < t.len() implies #[trigger] t[k] < s.len() by {
                if k == i {
                    assert(t[k] == s[j]);
                } else if k == j {
                    assert(t[k] == s[i]);
                } else {
                    assert(t[k] == s[k]);
                }
            }
        }
    }
}

/// The positions `(l, r)` that the crossing search examines: the edges
/// `l - 1 -> l` and `r -> r + 1`, with `l` after the first city and `r`
/// after `l`.
pub open spec fn crossing_pos(n: int, l: int, r: int) -> bool {
    1 <= l && l + 1 <= r && r + 2 <= n
}

/// The edges `l - 1 -> l` and `r -> r + 1` cross: exchanging their ends for
/// `l - 1 -> r` and `l -> r + 1` makes them shorter.
pub open spec fn is_crossing(coords: Seq<Coord>, s: Seq<usize>, l: int, r: int) -> bool {
    pos_dist(coords, s, l - 1, l) + pos_dist(coords, s, r, r + 1) > pos_dist(coords, s, l - 1, r)
        + pos_dist(coords, s, l, r + 1)
}

/// Position `(l, r)` comes at or after `(left, right)` in the search order.
pub open spec fn at_or_after(left: int, right: int, l: int, r: int) -> bool {
    (l == left && r >= right) || l > left
}

/// The tour `s` with the segment of positions `l..=r` reversed (a 2-opt move).
pub open spec fn two_opt(s: Seq<usize>, l: int, r: int) -> Seq<usize> {
    Seq::new(
        s.len(),
        |k: int|
            if l <= k <= r {
                s[l + r - k]
            } else {
                s[k]
            },
    )
}

/// Edges along a reversed stretch have the same sum as along the stretch read
/// forwards.
pub proof fn lemma_edges_reversed(
    coords: Seq<Coord>,
    s: Seq<usize>,
    t: Seq<usize>,
    a: int,
    b: int,
    len: int,
)
    requires
        len >= 0,
        forall|k: int| a <= k <= a + len ==> #[trigger] t[k] == s[a + b + len - k],
    ensures
        edges(coords, t, a, a + len) == edges(coords, s, b, b + len),
    decreases len,
{
    if len > 0 {
        lemma_edges_reversed(coords, s, t, a, b + 1, len - 1);
        assert(t[a + len - 1] == s[b + 1] && t[a + len] == s[b]);
        lemma_sq_distance_symmetric(coords[s[b] as int], coords[s[b + 1] as int]);
        lemma_edges_split(coords, s, b, b + 1, b + len);
        lemma_short_edges(coords, s, b);
    }
}

/// Reversing the segment between the two edges of a crossing shortens the
/// tour by the difference of the crossing's two sides.
pub proof fn lemma_crossing_improves(coords: Seq<Coord>, s: Seq<usize>, l: int, r: int)
    requires
        crossing_pos(s.len() as int, l, r),
    ensures
        tour_length(coords, two_opt(s, l, r)) == tour_length(coords, s) - (pos_dist(
            coords,
            s,
            l - 1,
            l,
        ) + pos_dist(coords, s, r, r + 1)) + (pos_dist(coords, s, l - 1, r) + pos_dist(
            coords,
            s,
            l,
            r + 1,
        )),
        is_crossing(coords, s, l, r) ==> tour_length(coords, two_opt(s, l, r)) < tour_length(
            coords,
            s,
        ),
{
    let n = s.len() as int;
    let t = two_opt(s, l, r);
    lemma_edges_agree(coords, s, t, 0, l - 1);
    lemma_edges_agree(coords, s, t, r + 1, n - 1);
    lemma_edges_reversed(coords, s, t, l, l, r - l);
    lemma_edges_split(coords, s, 0, l - 1, n - 1);
    lemma_edges_split(coords, t, 0, l - 1, n - 1);
    lemma_edges_split(coords, s, l - 1, l, n - 1);
    lemma_edges_split(coords, t, l - 1, l, n - 1);
    lemma_edges_split(coords, s, l, r, n - 1);
    lemma_edges_split(coords, t, l, r, n - 1);
    lemma_edges_split(coords, s, r, r + 1, n - 1);
    lemma_edges_split(coords, t, r, r + 1, n - 1);
    lemma_short_edges(coords, s, l - 1);
    lemma_short_edges(coords, t, l - 1);
    lemma_short_edges(coords, s, r);
    lemma_short_edges(coords, t, r);
    assert(t[l] == s[r] && t[r] == s[l] && t[l - 1] == s[l - 1] && t[r + 1] == s[r + 1]);
    assert(t[0] == s[0] && t.last() == s.last());
}

/// The search for crossing edges of a tour, from a position onwards.
pub struct TourCrossing<'a> {
    tour: &'a Tour,
    left: usize,
    right: usize,
}

impl<'a> TourCrossing<'a> {
    /// The tour that is searched.
    pub closed spec fn searched(&self) -> &'a Tour {
        self.tour
    }

    /// The next position to examine.
    pub closed spec fn position(&self) -> (int, int) {
        (self.left as int, self.right as int)
    }

    /// The search stands after the first city, with its right edge after its
    /// left one.
    pub closed spec fn wf(&self) -> bool {
        1 <= self.left && self.left + 1 <= self.right
    }

    /// The next crossing at or after the current position, in the order of
    /// positions `(l, r)`, first by `l` and then by `r`; `None` when there is
    /// none left, after which the search stays done.
    pub fn next(&mut self) -> (res: Option<(usize, usize)>)
        requires
            old(self).wf(),
            old(self).searched().wf(),
            old(self).searched().cities.len() < usize::MAX,
        ensures
            final(self).wf(),
            final(self).searched() == old(self).searched(),
            ({
                let t = old(self).searched();
                let coords = t.instance.coords@;
                let s = t.cities@;
                let n = s.len() as int;
                let (left, right) = old(self).position();
                match res {
                    Some((l, r)) => {
                        &&& crossing_pos(n, l as int, r as int)
                        &&& at_or_after(left, right, l as int, r as int)
                        &&& is_crossing(coords, s, l as int, r as int)
                        &&& forall|l2: int, r2: int|
                            crossing_pos(n, l2, r2) && at_or_after(left, right, l2, r2) && (l2
                                < l || (l2 == l && r2 < r)) ==> !#[trigger] is_crossing(
                                coords,
                                s,
                                l2,
                                r2,
                            )
                        &&& final(self).position() == (l as int, r + 1)
                    },
                    None => {
                        &&& forall|l2: int, r2: int|
                            crossing_pos(n, l2, r2) && at_or_after(left, right, l2, r2)
                                ==> !#[trigger] is_crossing(coords, s, l2, r2)
                        &&& final(self).position().0 >= n
                    },
                }
            }),
    {
        let ghost left0 = old(self).left as int;
        let ghost right0 = old(self).right as int;
        let ghost coords = old(self).tour.instance.coords@;
        let ghost s = old(self).tour.cities@;
        let n = self.tour.size();
        loop
            invariant
                1 <= self.left && self.left + 1 <= self.right,
                self.tour == old(self).tour,
                left0 == old(self).left,
                right0 == old(self).right,
                n < usize::MAX,
                self.tour.wf(),
                coords == self.tour.instance.coords@,
                s == self.tour.cities@,
                n == s.len(),
                at_or_after(left0, right0, self.left as int, self.right as int),
                forall|l2: int, r2: int|
                    crossing_pos(n as int, l2, r2) && at_or_after(left0, right0, l2, r2)
                        && !at_or_after(self.left as int, self.right as int, l2, r2)
                        ==> !#[trigger] is_crossing(coords, s, l2, r2),
            decreases n + 1 - self.left, n + 1 - self.right,
        {
            if self.left >= n {
                return None;
            }
            if self.right >= n - 1 {
                self.left = self.left + 1;
                self.right = self.left + 1;
                continue;
            }
            let a = self.tour.dist_between(self.left - 1, self.left);
            let b = self.tour.dist_between(self.right, self.right + 1);
            let c = self.tour.dist_between(self.left - 1, self.right);
            let d = self.tour.dist_between(self.left, self.right + 1);
            if (a as u64) + (b as u64) > (c as u64) + (d as u64) {
                self.right = self.right + 1;
                return Some((self.left, self.right - 1));
            }
            self.right = self.right + 1;
        }
    }
}

impl Tour {
    /// The search for crossing edges from the start of the tour.
    pub fn crossings<'a>(&'a self) -> (c: TourCrossing<'a>)
        ensures
            c.wf(),
            c.searched() == self,
            c.position() == (1int, 2int),
    {
        TourCrossing { tour: self, left: 1, right: 2 }
    }
}

} // verus!
