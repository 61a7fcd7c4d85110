use vstd::prelude::*;

use std::rc::Rc;

use crate::instance::Item;
use crate::tsp::{cities_in_range, is_permutation, Tour};

verus! {

/// The weight that item `u` adds at tour position `k`: its weight if it is
/// picked and its city comes at or before position `k` of the tour.
pub open spec fn contribution(
    items: Seq<Item>,
    is_in: Seq<bool>,
    pos: Seq<usize>,
    k: int,
    u: int,
) -> int {
    if is_in[u] && pos[items[u].in_city as int] <= k {
        items[u].weight as int
    } else {
        0
    }
}

/// The weight carried at tour position `k`, counting the items below `t`.
pub open spec fn weight_at(items: Seq<Item>, is_in: Seq<bool>, pos: Seq<usize>, k: int, t: int) -> int
    decreases t,
{
    if t <= 0 {
        0
    } else {
        weight_at(items, is_in, pos, k, t - 1) + contribution(items, is_in, pos, k, t - 1)
    }
}

/// The total weight of the picked items below `t`.
pub open spec fn picked_weight(items: Seq<Item>, is_in: Seq<bool>, t: int) -> int
    decreases t,
{
    if t <= 0 {
        0
    } else {
        picked_weight(items, is_in, t - 1) + (if is_in[t - 1] {
            items[t - 1].weight as int
        } else {
            0
        })
    }
}

/// The weights carried along the tour are those that the selection `sel`
/// puts on each position.
pub open spec fn carries(
    city_weight: Seq<u64>,
    items: Seq<Item>,
    sel: Seq<bool>,
    pos: Seq<usize>,
) -> bool {
    forall|k: int|
        0 <= k < city_weight.len() ==> #[trigger] city_weight[k] == weight_at(
            items,
            sel,
            pos,
            k,
            sel.len() as int,
        )
}

/// The position of city `c` in `s`: its last occurrence, or `0` if it does
/// not occur.
pub open spec fn position_of(s: Seq<usize>, c: usize) -> int {
    if s.contains(c) {
        choose|i: int| 0 <= i < s.len() && s[i] == c && forall|j: int| i < j < s.len() ==> s[j] != c
    } else {
        0
    }
}

/// The integer part of a knapsack that travels along a tour: the remaining
/// capacity, which items are picked, the weight carried at each position of
/// the tour, and the position of each city in the tour.
pub struct Knapsack {
    pub rem_cap: u64,
    pub tour: Rc<Tour>,
    pub is_in: Vec<bool>,
    pub city_weight: Vec<u64>,
    pub city_idx_in_tour: Vec<usize>,
}

/// A change of one item of the selection that has been applied to the
/// carried weights, and not yet to the selection.
pub struct ItemFlip {
    pub item: usize,
    pub adding: bool,
    pub start: usize,
    pub weight: u64,
}

impl Knapsack {
    /// The items of the instance.
    pub open spec fn items(&self) -> Seq<Item> {
        self.tour.instance.items@
    }

    /// The number of cities of the tour.
    pub open spec fn n(&self) -> int {
        self.tour.cities.len() as int
    }

    /// Sizes and indexes that the operations rely on, for the selection `sel`.
    pub open spec fn shape_ok(&self, sel: Seq<bool>) -> bool {
        &&& self.city_weight.len() == self.n()
        &&& self.city_idx_in_tour.len() == self.n()
        &&& sel.len() == self.is_in.len()
        &&& forall|c: int| 0 <= c < self.n() ==> #[trigger] self.city_idx_in_tour[c] < self.n()
        &&& forall|u: int|
            0 <= u < sel.len() && #[trigger] sel[u] ==> u < self.items().len()
                && self.items()[u].in_city < self.n()
    }

    /// The knapsack is consistent: the remaining capacity is the capacity
    /// less the weight of the picked items, and the weight carried at each
    /// position is that of the picked items whose city comes at or before it.
    pub open spec fn wf(&self) -> bool {
        &&& self.shape_ok(self.is_in@)
        &&& self.rem_cap + picked_weight(self.items(), self.is_in@, self.is_in.len() as int)
            == self.tour.instance.capacity
        &&& carries(self.city_weight@, self.items(), self.is_in@, self.city_idx_in_tour@)
    }

    /// The flipped selection of `f`.
    pub open spec fn flipped(&self, f: ItemFlip) -> Seq<bool> {
        self.is_in@.update(f.item as int, !self.is_in@[f.item as int])
    }

    /// `f` has been applied to the carried weights of a consistent knapsack,
    /// and not to its selection or its remaining capacity.
    pub open spec fn pending(&self, f: ItemFlip) -> bool {
        &&& f.item < self.is_in.len()
        &&& f.item < self.items().len()
        &&& f.adding == !self.is_in@[f.item as int]
        &&& f.weight == self.items()[f.item as int].weight
        &&& self.items()[f.item as int].in_city < self.n()
        &&& f.start == self.city_idx_in_tour@[self.items()[f.item as int].in_city as int]
        &&& f.adding ==> f.weight <= self.rem_cap
        &&& self.shape_ok(self.is_in@)
        &&& self.shape_ok(self.flipped(f))
        &&& self.rem_cap + picked_weight(self.items(), self.is_in@, self.is_in.len() as int)
            == self.tour.instance.capacity
        &&& carries(self.city_weight@, self.items(), self.flipped(f), self.city_idx_in_tour@)
    }

    /// The item that a random step draws from the random number `r`: one of
    /// the first `m - 1` of the `m` items.
    pub open spec fn drawn(&self, r: usize) -> int {
        (r % ((self.is_in.len() - 1) as usize)) as int
    }

    /// A random step on `r` can be taken: there are two items or more, the
    /// drawn item exists, and if it is not turned away for its weight, it
    /// lies in a city of the tour.
    pub open spec fn can_draw(&self, r: usize) -> bool {
        &&& self.is_in.len() >= 2
        &&& self.drawn(r) < self.items().len()
        &&& (self.is_in@[self.drawn(r)] || self.items()[self.drawn(r)].weight <= self.rem_cap)
            ==> self.items()[self.drawn(r)].in_city < self.n()
    }
}


/// Changing whether item `i` is picked changes the weight carried at a
/// position by that item's contribution alone.
pub proof fn lemma_weight_at_flip(
    items: Seq<Item>,
    is_in: Seq<bool>,
    pos: Seq<usize>,
    k: int,
    t: int,
    i: int,
)
    requires
        0 <= i < is_in.len(),
        t <= is_in.len(),
    ensures
        ({
            let sel = is_in.update(i, !is_in[i]);
            weight_at(items, sel, pos, k, t) == weight_at(items, is_in, pos, k, t) + (if i < t {
                contribution(items, sel, pos, k, i) - contribution(items, is_in, pos, k, i)
            } else {
                0
            })
        }),
    decreases t,
{
    if t > 0 {
        lemma_weight_at_flip(items, is_in, pos, k, t - 1, i);
    }
}

/// Changing whether item `i` is picked changes the picked weight by that
/// item's weight.
pub proof fn lemma_picked_weight_flip(items: Seq<Item>, is_in: Seq<bool>, t: int, i: int)
    requires
        0 <= i < is_in.len(),
        t <= is_in.len(),
    ensures
        ({
            let sel = is_in.update(i, !is_in[i]);
            picked_weight(items, sel, t) == picked_weight(items, is_in, t) + (if i < t {
                if is_in[i] {
                    -(items[i].weight as int)
                } else {
                    items[i].weight as int
                }
            } else {
                0
            })
        }),
    decreases t,
{
    if t > 0 {
        lemma_picked_weight_flip(items, is_in, t - 1, i);
    }
}

/// The weight carried at a position is at most the picked weight.
pub proof fn lemma_weight_at_bounds(items: Seq<Item>, is_in: Seq<bool>, pos: Seq<usize>, k: int, t: int)
    requires
        t <= is_in.len(),
    ensures
        0 <= weight_at(items, is_in, pos, k, t) <= picked_weight(items, is_in, t),
    decreases t,
{
    if t > 0 {
        lemma_weight_at_bounds(items, is_in, pos, k, t - 1);
    }
}

/// With nothing picked, nothing is carried.
proof fn lemma_nothing_picked(items: Seq<Item>, is_in: Seq<bool>, pos: Seq<usize>, k: int, t: int)
    requires
        t <= is_in.len(),
        forall|u: int| 0 <= u < is_in.len() ==> !#[trigger] is_in[u],
    ensures
        weight_at(items, is_in, pos, k, t) == 0,
        picked_weight(items, is_in, t) == 0,
    decreases t,
{
    if t > 0 {
        lemma_nothing_picked(items, is_in, pos, k, t - 1);
    }
}

/// The carried weights with `weight` added (or, when not `adding`, taken
/// away) at every position from `start` on.
pub open spec fn shift_weights(cw: Seq<u64>, start: int, weight: u64, adding: bool) -> Seq<u64> {
    Seq::new(
        cw.len(),
        |k: int|
            if k >= start {
                if adding {
                    (cw[k] + weight) as u64
                } else {
                    (cw[k] - weight) as u64
                }
            } else {
                cw[k]
            },
    )
}

/// In a tour that visits every city once, the position recorded for the
/// city at position `i` is `i`.
pub proof fn lemma_position_of_permutation(s: Seq<usize>, i: int)
    requires
        is_permutation(s, s.len() as int),
        0 <= i < s.len(),
    ensures
        position_of(s, s[i]) == i,
{
    assert(s.contains(s[i]));
    let q = position_of(s, s[i]);
    if q != i {
        assert(s[q] == s[i]);
    }
}

impl Knapsack {
    /// An empty knapsack on a tour: nothing picked, the whole capacity left,
    /// nothing carried, and for each city its position in the tour.
    pub fn new(t: Rc<Tour>) -> (k: Knapsack)
        requires
            cities_in_range(t.cities@, t.cities.len() as int),
            t.instance.items_num <= usize::MAX,
        ensures
            k.tour == t,
            k.rem_cap == t.instance.capacity,
            k.is_in@ == Seq::new(t.instance.items_num as nat, |u: int| false),
            k.city_weight@ == Seq::new(t.cities.len() as nat, |c: int| 0u64),
            k.city_idx_in_tour.len() == t.cities.len(),
            forall|c: int|
                0 <= c < t.cities.len() ==> #[trigger] k.city_idx_in_tour@[c] == position_of(
                    t.cities@,
                    c as usize,
                ),
            k.wf(),
    {
        let m = t.instance.items_num as usize;
        let n = t.size();
        let mut aux: Vec<usize> = Vec::new();
        let mut z: usize = 0;
        while z < n
            invariant
                z <= n,
                aux@ == Seq::new(z as nat, |c: int| 0usize),
            decreases n - z,
        {
            aux.push(0);
            z = z + 1;
        }
        let mut i: usize = 0;
        while i < n
            invariant
                n == t.cities.len(),
                cities_in_range(t.cities@, n as int),
                aux.len() == n,
                i <= n,
                forall|c: int|
                    0 <= c < n ==> {
                        let s = t.cities@.take(i as int);
                        if s.contains(c as usize) {
                            &&& #[trigger] aux@[c] < i
                            &&& s[aux@[c] as int] == c as usize
                            &&& forall|j: int| aux@[c] < j < i ==> s[j] != c as usize
                        } else {
                            aux@[c] == 0
                        }
                    },
            decreases n - i,
        {
            let c = t.cities[i];
            let ghost prev = t.cities@.take(i as int);
            let ghost next = t.cities@.take(i + 1);
            assert(next == prev.push(c));
            aux.set(c, i);
            proof {
                assert forall|d: int| 0 <= d < n implies {
                    if next.contains(d as usize) {
                        &&& #[trigger] aux@[d] < i + 1
                        &&& next[aux@[d] as int] == d as usize
                        &&& forall|j: int| aux@[d] < j < i + 1 ==> next[j] != d as usize
                    } else {
                        aux@[d] == 0
                    }
                } by {
                    if d == c as int {
                        assert(next[i as int] == c);
                    } else {
                        if next.contains(d as usize) {
                            let w = choose|w: int| 0 <= w < next.len() && next[w] == d as usize;
                            assert(prev[w] == d as usize);
                            assert(prev.contains(d as usize));
                        }
                        if prev.contains(d as usize) {
                            let w = choose|w: int| 0 <= w < prev.len() && prev[w] == d as usize;
                            assert(next[w] == d as usize);
                        }
                    }
                }
            }
            i = i + 1;
        }
        assert(t.cities@.take(n as int) == t.cities@);
        let mut is_in: Vec<bool> = Vec::new();
        let mut u: usize = 0;
        while u < m
            invariant
                u <= m,
                is_in@ == Seq::new(u as nat, |v: int| false),
            decreases m - u,
        {
            is_in.push(false);
            u = u + 1;
        }
        let mut city_weight: Vec<u64> = Vec::new();
        let mut w: usize = 0;
        while w < n
            invariant
                w <= n,
                city_weight@ == Seq::new(w as nat, |c: int| 0u64),
            decreases n - w,
        {
            city_weight.push(0);
            w = w + 1;
        }
        let k = Knapsack {
            rem_cap: t.instance.capacity,
            tour: t,
            is_in,
            city_weight,
            city_idx_in_tour: aux,
        };
        proof {
            let items = k.items();
            lemma_nothing_picked(items, k.is_in@, k.city_idx_in_tour@, 0, m as int);
            assert forall|c: int| 0 <= c < n implies #[trigger] k.city_idx_in_tour@[c]
                == position_of(k.tour.cities@, c as usize) by {
                let s = k.tour.cities@;
                if s.contains(c as usize) {
                    let p = aux@[c] as int;
                    assert(0 <= p < s.len() && s[p] == c as usize && forall|j: int|
                        p < j < s.len() ==> s[j] != c as usize);
                    let q = position_of(s, c as usize);
                    assert(0 <= q < s.len() && s[q] == c as usize && forall|j: int|
                        q < j < s.len() ==> s[j] != c as usize);
                    if p < q {
                        assert(s[q] != c as usize);
                    }
                    if q < p {
                        assert(s[p] != c as usize);
                    }
                }
            }
            assert forall|kk: int| 0 <= kk < k.city_weight.len() implies #[trigger] k.city_weight@[kk]
                == weight_at(items, k.is_in@, k.city_idx_in_tour@, kk, k.is_in.len() as int) by {
                lemma_nothing_picked(items, k.is_in@, k.city_idx_in_tour@, kk, m as int);
            }
        }
        k
    }

    /// Applies `f` to the carried weights: adds (or takes away) the item's
    /// weight at every position from the position of its city on.
    fn shift(&mut self, f: &ItemFlip)
        requires
            f.start <= old(self).city_weight.len(),
            forall|k: int|
                f.start <= k < old(self).city_weight.len() ==> {
                    let w = #[trigger] old(self).city_weight@[k];
                    if f.adding {
                        w + f.weight <= u64::MAX
                    } else {
                        w >= f.weight
                    }
                },
        ensures
            final(self).city_weight@ == shift_weights(
                old(self).city_weight@,
                f.start as int,
                f.weight,
                f.adding,
            ),
            final(self).tour == old(self).tour,
            final(self).is_in == old(self).is_in,
            final(self).rem_cap == old(self).rem_cap,
            final(self).city_idx_in_tour == old(self).city_idx_in_tour,
    {
        let ghost before = self.city_weight@;
        let n = self.city_weight.len();
        let mut k = f.start;
        while k < n
            invariant
                f.start <= k <= n == self.city_weight.len() == before.len(),
                forall|q: int|
                    f.start <= q < before.len() ==> {
                        let w = #[trigger] before[q];
                        if f.adding {
                            w + f.weight <= u64::MAX
                        } else {
                            w >= f.weight
                        }
                    },
                forall|q: int|
                    0 <= q < n ==> #[trigger] self.city_weight@[q] == (if f.start <= q < k {
                        shift_weights(before, f.start as int, f.weight, f.adding)[q]
                    } else {
                        before[q]
                    }),
                self.tour == old(self).tour,
                self.is_in == old(self).is_in,
                self.rem_cap == old(self).rem_cap,
                self.city_idx_in_tour == old(self).city_idx_in_tour,
            decreases n - k,
        {
            let w = self.city_weight[k];
            assert(w == before[k as int]);
            if f.adding {
                self.city_weight.set(k, w + f.weight);
            } else {
                self.city_weight.set(k, w - f.weight);
            }
            k = k + 1;
        }
        assert(self.city_weight@ == shift_weights(before, f.start as int, f.weight, f.adding));
    }

    /// Starts a random step on the selection: draws item `r % (m - 1)` (of
    /// the `m` items; the last one is never drawn) and, unless it is not
    /// picked and does not fit the remaining capacity, applies its change to
    /// the carried weights.
    pub fn flip_begin(&mut self, r: usize) -> (res: Option<ItemFlip>)
        requires
            old(self).wf(),
            old(self).can_draw(r),
        ensures
            ({
                let i = old(self).drawn(r);
                let item = old(self).items()[i];
                &&& final(self).tour == old(self).tour
                &&& final(self).is_in == old(self).is_in
                &&& final(self).rem_cap == old(self).rem_cap
                &&& final(self).city_idx_in_tour == old(self).city_idx_in_tour
                &&& res is None <==> (!old(self).is_in@[i] && item.weight > old(self).rem_cap)
                &&& res is None ==> final(self).city_weight == old(self).city_weight
                &&& res matches Some(f) ==> {
                    &&& f.item == i
                    &&& f.adding == !old(self).is_in@[i]
                    &&& f.weight == item.weight
                    &&& f.start == old(self).city_idx_in_tour@[item.in_city as int]
                    &&& final(self).city_weight@ == shift_weights(
                        old(self).city_weight@,
                        f.start as int,
                        f.weight,
                        f.adding,
                    )
                    &&& final(self).pending(f)
                }
            }),
    {
        let m = self.is_in.len();
        let i = r % (m - 1);
        let it_weight = self.tour.instance.items[i].weight;
        if !self.is_in[i] && it_weight > self.rem_cap {
            return None;
        }
        let adding = !self.is_in[i];
        let city = self.tour.instance.items[i].in_city as usize;
        let start = self.city_idx_in_tour[city];
        let f = ItemFlip { item: i, adding, start, weight: it_weight };
        let ghost items = self.items();
        let ghost pos = self.city_idx_in_tour@;
        let ghost sel = self.flipped(f);
        proof {
            assert forall|k: int| f.start <= k < self.city_weight.len() implies {
                let w = #[trigger] self.city_weight@[k];
                if f.adding {
                    w + f.weight <= u64::MAX
                } else {
                    w >= f.weight
                }
            } by {
                lemma_weight_at_flip(items, self.is_in@, pos, k, m as int, i as int);
                lemma_weight_at_bounds(items, sel, pos, k, m as int);
                lemma_picked_weight_flip(items, self.is_in@, m as int, i as int);
                assert(self.city_weight@[k] == weight_at(items, self.is_in@, pos, k, m as int));
            }
        }
        self.shift(&f);
        proof {
            assert forall|c: int| 0 <= c < self.n() implies #[trigger] self.city_idx_in_tour[c]
                < self.n() by {
                assert(old(self).city_idx_in_tour[c] < old(self).n());
            }
            assert forall|u: int| 0 <= u < sel.len() && #[trigger] sel[u] implies u
                < self.items().len() && self.items()[u].in_city < self.n() by {
                if u != i {
                    assert(old(self).is_in@[u]);
                }
            }
            assert forall|k: int| 0 <= k < self.city_weight.len() implies #[trigger] self.city_weight@[k]
                == weight_at(items, sel, pos, k, sel.len() as int) by {
                lemma_weight_at_flip(items, old(self).is_in@, pos, k, m as int, i as int);
                assert(old(self).city_weight@[k] == weight_at(items, old(self).is_in@, pos, k, m as int));
            }
        }
        Some(f)
    }

    /// Abandons a pending change: takes it back from the carried weights.
    pub fn flip_revert(&mut self, f: ItemFlip)
        requires
            old(self).pending(f),
        ensures
            final(self).tour == old(self).tour,
            final(self).is_in == old(self).is_in,
            final(self).rem_cap == old(self).rem_cap,
            final(self).city_idx_in_tour == old(self).city_idx_in_tour,
            final(self).city_weight@ == shift_weights(
                old(self).city_weight@,
                f.start as int,
                f.weight,
                !f.adding,
            ),
            final(self).wf(),
    {
        let ghost items = self.items();
        let ghost pos = self.city_idx_in_tour@;
        let ghost sel = self.flipped(f);
        let ghost m = self.is_in.len() as int;
        let ghost i = f.item as int;
        let g = ItemFlip { item: f.item, adding: !f.adding, start: f.start, weight: f.weight };
        proof {
            assert(sel.update(i, !sel[i]) == self.is_in@);
            assert forall|k: int| g.start <= k < self.city_weight.len() implies {
                let w = #[trigger] self.city_weight@[k];
                if g.adding {
                    w + g.weight <= u64::MAX
                } else {
                    w >= g.weight
                }
            } by {
                lemma_weight_at_flip(items, self.is_in@, pos, k, m, i);
                lemma_weight_at_bounds(items, self.is_in@, pos, k, m);
                assert(self.city_weight@[k] == weight_at(items, sel, pos, k, m));
            }
        }
        self.shift(&g);
        proof {
            assert forall|k: int| 0 <= k < self.city_weight.len() implies #[trigger] self.city_weight@[k]
                == weight_at(items, self.is_in@, pos, k, m) by {
                lemma_weight_at_flip(items, self.is_in@, pos, k, m, i);
                assert(old(self).city_weight@[k] == weight_at(items, sel, pos, k, m));
            }
        }
    }

    /// Completes a pending change: flips the item in the selection and
    /// updates the remaining capacity.
    pub fn flip_commit(&mut self, f: ItemFlip)
        requires
            old(self).pending(f),
        ensures
            final(self).tour == old(self).tour,
            final(self).is_in@ == old(self).flipped(f),
            final(self).rem_cap == (if f.adding {
                old(self).rem_cap - f.weight
            } else {
                old(self).rem_cap + f.weight
            }),
            final(self).city_idx_in_tour == old(self).city_idx_in_tour,
            final(self).city_weight == old(self).city_weight,
            final(self).wf(),
    {
        let ghost items = self.items();
        let ghost m = self.is_in.len() as int;
        proof {
            lemma_picked_weight_flip(items, self.is_in@, m, f.item as int);
            lemma_weight_at_bounds(items, self.is_in@, self.city_idx_in_tour@, 0, m);
            lemma_weight_at_bounds(items, self.flipped(f), self.city_idx_in_tour@, 0, m);
        }
        let b = self.is_in[f.item];
        self.is_in.set(f.item, !b);
        if f.adding {
            self.rem_cap = self.rem_cap - f.weight;
        } else {
            self.rem_cap = self.rem_cap + f.weight;
        }
    }
}

/// Two consistent knapsacks on the same tour, with the same selection and
/// the same city positions, carry the same weights.
pub proof fn lemma_weights_determined(a: Knapsack, b: Knapsack)
    requires
        a.wf(),
        b.wf(),
        a.tour == b.tour,
        a.is_in@ == b.is_in@,
        a.city_idx_in_tour@ == b.city_idx_in_tour@,
    ensures
        a.city_weight@ == b.city_weight@,
{
    assert(a.city_weight@ =~= b.city_weight@) by {
        assert forall|k: int| 0 <= k < a.city_weight.len() implies a.city_weight@[k]
            == b.city_weight@[k] by {
            assert(a.city_weight@[k] == weight_at(a.items(), a.is_in@, a.city_idx_in_tour@, k, a.is_in.len() as int));
            assert(b.city_weight@[k] == weight_at(b.items(), b.is_in@, b.city_idx_in_tour@, k, b.is_in.len() as int));
        }
    }
}

/// Starting a change and then abandoning it gives back the knapsack it
/// started from.
pub proof fn lemma_flip_revert_restores(k0: Knapsack, k1: Knapsack, k2: Knapsack, f: ItemFlip)
    requires
        k0.wf(),
        k1.tour == k0.tour,
        k1.is_in == k0.is_in,
        k1.rem_cap == k0.rem_cap,
        k1.city_idx_in_tour == k0.city_idx_in_tour,
        k1.pending(f),
        k2.tour == k1.tour,
        k2.is_in == k1.is_in,
        k2.rem_cap == k1.rem_cap,
        k2.city_idx_in_tour == k1.city_idx_in_tour,
        k2.wf(),
    ensures
        k2.tour == k0.tour,
        k2.is_in@ == k0.is_in@,
        k2.rem_cap == k0.rem_cap,
        k2.city_idx_in_tour@ == k0.city_idx_in_tour@,
        k2.city_weight@ == k0.city_weight@,
{
    lemma_weights_determined(k2, k0);
}

} // verus!
