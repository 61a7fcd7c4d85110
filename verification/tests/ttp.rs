use std::rc::Rc;

use rand::SeedableRng;
use rand::XorShiftRng;
use ttp::instance::{
    nth_word, read_coords, read_instance, read_item, read_val_at, sq_distance, Coord, Instance,
    Item,
};
use ttp::knapsack::Knapsack;
use ttp::text::{is_white_space, line_chars, parse_i64, parse_u64, word_spans};
use ttp::tsp::{new_tour, new_tour_greedy, pick_swap, Tour};

fn instance_of(coords: Vec<Coord>, items: Vec<Item>, capacity: u64) -> Instance {
    Instance {
        name: "test".to_string(),
        dimension: coords.len() as u64,
        capacity,
        items_num: items.len() as u64,
        coords,
        items,
    }
}

fn length(coords: &[Coord], cities: &[usize]) -> u64 {
    let n = cities.len();
    let mut total = 0;
    for k in 0..n {
        total += sq_distance(coords[cities[k]], coords[cities[(k + 1) % n]]);
    }
    total
}

fn sample_coords() -> Vec<Coord> {
    vec![(0, 0), (10, 0), (1, 0), (5, 5)]
}

#[test]
fn sq_distance_values() {
    assert_eq!(sq_distance((0, 0), (3, 4)), 25);
    assert_eq!(sq_distance((3, 4), (0, 0)), 25);
    assert_eq!(sq_distance((-2, 7), (-2, 7)), 0);
    assert_eq!(sq_distance((-1, -1), (2, 3)), 25);
}

#[test]
fn white_space_and_words() {
    assert!(is_white_space(' '));
    assert!(is_white_space('\t'));
    assert!(is_white_space('\u{a0}'));
    assert!(is_white_space('\u{3000}'));
    assert!(!is_white_space('a'));
    let cs = line_chars("  ab\tc \u{2003}de ");
    let spans = word_spans(&cs);
    assert_eq!(spans, vec![(2, 4), (5, 6), (8, 10)]);
    for c in ['\u{b}', '\u{85}', '\u{1680}', '\u{2028}', '\u{202f}', 'x', '-'] {
        assert_eq!(is_white_space(c), c.is_whitespace());
    }
}

#[test]
fn integer_parsing() {
    let cs = line_chars("+17 -9223372036854775808 18446744073709551615 18446744073709551616 - 1x");
    let spans = word_spans(&cs);
    assert_eq!(parse_u64(&cs, spans[0].0, spans[0].1), Some(17));
    assert_eq!(parse_i64(&cs, spans[0].0, spans[0].1), Some(17));
    assert_eq!(parse_u64(&cs, spans[1].0, spans[1].1), None);
    assert_eq!(parse_i64(&cs, spans[1].0, spans[1].1), Some(i64::MIN));
    assert_eq!(parse_u64(&cs, spans[2].0, spans[2].1), Some(u64::MAX));
    assert_eq!(parse_i64(&cs, spans[2].0, spans[2].1), None);
    assert_eq!(parse_u64(&cs, spans[3].0, spans[3].1), None);
    assert_eq!(parse_i64(&cs, spans[4].0, spans[4].1), None);
    assert_eq!(parse_u64(&cs, spans[5].0, spans[5].1), None);
    assert_eq!(parse_u64(&cs, 0, 0), None);
}

#[test]
fn header_values() {
    assert_eq!(read_val_at("DIMENSION:\t280", 1), Some(280));
    assert_eq!(read_val_at("NUMBER OF ITEMS: \t279", 3), Some(279));
    assert_eq!(read_val_at("NUMBER OF ITEMS:", 3), None);
    assert_eq!(read_val_at("CAPACITY OF KNAPSACK: x", 3), None);
    assert_eq!(nth_word("PROBLEM NAME: \ta280-TTP", 2), Some("a280-TTP".to_string()));
    assert_eq!(nth_word("MIN SPEED: \t0.1", 2), Some("0.1".to_string()));
    assert_eq!(nth_word("MIN SPEED:", 2), None);
}

#[test]
fn coords_and_items() {
    assert_eq!(read_coords("1\t288\t-149"), Some((288, -149)));
    assert_eq!(read_coords("1 288"), None);
    assert_eq!(read_coords("1 a 3"), None);
    assert_eq!(
        read_item("2\t101\t1\t2"),
        Some(Item { index: 2, profit: 101, weight: 1, in_city: 2 })
    );
    assert_eq!(read_item("2 -5 3 4 extra"), Some(Item { index: 2, profit: -5, weight: 3, in_city: 4 }));
    assert_eq!(read_item("2 101 1"), None);
    assert_eq!(read_item("2 101 -1 2"), None);
}

fn sample_text() -> Vec<String> {
    [
        "PROBLEM NAME: \tsmall-TTP",
        "KNAPSACK DATA TYPE: bounded strongly corr",
        "DIMENSION:\t3",
        "NUMBER OF ITEMS: \t2",
        "CAPACITY OF KNAPSACK: \t25",
        "MIN SPEED: \t0.1",
        "MAX SPEED: \t1",
        "RENTING RATIO: \t5.61",
        "EDGE_WEIGHT_TYPE:\tCEIL_2D",
        "NODE_COORD_SECTION\t(INDEX, X, Y): ",
        "1\t0\t0",
        "2\t3\t4",
        "3\t-6\t8",
        "ITEMS SECTION\t(INDEX, PROFIT, WEIGHT, ASSIGNED NODE NUMBER): ",
        "1\t101\t1\t2",
        "2\t202\t2\t3",
    ]
    .iter()
    .map(|s| s.to_string())
    .collect()
}

#[test]
fn reads_an_instance() {
    let inst = read_instance(&sample_text()).unwrap();
    assert_eq!(inst.name, "small-TTP");
    assert_eq!(inst.dimension, 3);
    assert_eq!(inst.items_num, 2);
    assert_eq!(inst.capacity, 25);
    assert_eq!(inst.coords, vec![(0, 0), (3, 4), (-6, 8)]);
    assert_eq!(
        inst.items,
        vec![
            Item { index: 1, profit: 101, weight: 1, in_city: 2 },
            Item { index: 2, profit: 202, weight: 2, in_city: 3 },
        ]
    );
}

#[test]
fn rejects_broken_instances() {
    let mut short = sample_text();
    short.pop();
    assert!(read_instance(&short).is_none());
    let mut bad = sample_text();
    bad[11] = "2\t3".to_string();
    assert!(read_instance(&bad).is_none());
    let mut no_speed = sample_text();
    no_speed[6] = "MAX SPEED:".to_string();
    assert!(read_instance(&no_speed).is_none());
    let mut bad_dim = sample_text();
    bad_dim[2] = "DIMENSION: three".to_string();
    assert!(read_instance(&bad_dim).is_none());
    assert!(read_instance(&Vec::new()).is_none());
}

#[test]
fn reads_an_empty_instance() {
    let mut text = sample_text();
    text[2] = "DIMENSION: 0".to_string();
    text[3] = "NUMBER OF ITEMS: 0".to_string();
    text.truncate(8);
    let inst = read_instance(&text).unwrap();
    assert!(inst.coords.is_empty() && inst.items.is_empty());
}

#[test]
fn tour_in_instance_order() {
    let tour = new_tour(Rc::new(instance_of(sample_coords(), vec![], 0)));
    assert_eq!(tour.cities, vec![0, 1, 2, 3]);
    // Each city against the first, plus the closing edge.
    assert_eq!(tour.cost, 0 + 100 + 1 + 50 + 50);
    assert_eq!(tour.size(), 4);
}

#[test]
fn greedy_tour() {
    let tour = new_tour_greedy(Rc::new(instance_of(sample_coords(), vec![], 0)));
    assert_eq!(tour.cities, vec![0, 2, 3, 1]);
    assert_eq!(tour.cost, 1 + 41 + 50 + 100);
    assert_eq!(tour.cost, length(&sample_coords(), &tour.cities));
}

#[test]
fn greedy_tour_breaks_ties_by_index() {
    let coords = vec![(0, 0), (-1, 0), (1, 0), (0, 3)];
    let tour = new_tour_greedy(Rc::new(instance_of(coords.clone(), vec![], 0)));
    assert_eq!(tour.cities, vec![0, 1, 2, 3]);
    assert_eq!(tour.cost, length(&coords, &tour.cities));
    let single = new_tour_greedy(Rc::new(instance_of(vec![(7, 7)], vec![], 0)));
    assert_eq!(single.cities, vec![0]);
    assert_eq!(single.cost, 0);
}

#[test]
fn swap_positions() {
    assert_eq!(pick_swap(4, 0, 0), (1, 2));
    assert_eq!(pick_swap(4, 3, 5), (2, 3));
    assert_eq!(pick_swap(10, 17, 100), (2, 5));
    assert_eq!(pick_swap(3, usize::MAX, usize::MAX), (1, 2));
}

#[test]
fn swap_delta_is_the_change_of_length() {
    let coords = vec![(0, 0), (10, 0), (1, 0), (5, 5), (-3, 7), (2, -9)];
    let tour = new_tour_greedy(Rc::new(instance_of(coords.clone(), vec![], 0)));
    let n = tour.size();
    for i in 1..n - 1 {
        for j in i + 1..n {
            let mut swapped = tour.cities.clone();
            swapped.swap(i, j);
            let expected = length(&coords, &swapped) as i64 - length(&coords, &tour.cities) as i64;
            assert_eq!(tour.swap_delta(i, j), expected, "swap {} {}", i, j);
        }
    }
}

#[test]
fn commit_applies_or_keeps() {
    let coords = sample_coords();
    let mut tour = new_tour_greedy(Rc::new(instance_of(coords.clone(), vec![], 0)));
    let delta = tour.swap_delta(1, 2);
    assert_eq!(delta, 80);
    assert_eq!(tour.rls_commit(1, 2, delta, false), (false, false));
    assert_eq!(tour.cities, vec![0, 2, 3, 1]);
    assert_eq!(tour.cost, 192);
    assert_eq!(tour.rls_commit(1, 2, delta, true), (false, true));
    assert_eq!(tour.cities, vec![0, 3, 2, 1]);
    assert_eq!(tour.cost, 272);
    assert_eq!(tour.cost, length(&coords, &tour.cities));
    let back = tour.swap_delta(1, 2);
    assert_eq!(tour.rls_commit(1, 2, back, true), (true, true));
    assert_eq!(tour.cost, 192);
}

#[test]
fn random_steps_keep_the_cost() {
    let coords = vec![(0, 0), (10, 0), (1, 0), (5, 5), (-3, 7), (2, -9), (4, 4)];
    let mut tour: Tour = new_tour_greedy(Rc::new(instance_of(coords.clone(), vec![], 0)));
    let mut rng = XorShiftRng::from_seed([1, 2, 3, 4]);
    for step in 0..200 {
        let (i, j, delta) = tour.rls_propose(&mut rng);
        assert!(1 <= i && i < j && j < tour.size());
        tour.rls_commit(i, j, delta, step % 3 == 0);
        assert_eq!(tour.cost, length(&coords, &tour.cities));
    }
}

#[test]
fn finds_crossings() {
    let coords = vec![(0, 0), (2, 2), (2, 0), (0, 2)];
    let tour = new_tour(Rc::new(instance_of(coords, vec![], 0)));
    let mut search = tour.crossings();
    assert_eq!(search.next(), Some((1, 2)));
    assert_eq!(search.next(), None);
    assert_eq!(search.next(), None);
    let straight = new_tour(Rc::new(instance_of(vec![(0, 0), (1, 0), (2, 0), (3, 0), (4, 0)], vec![], 0)));
    assert_eq!(straight.crossings().next(), None);
}

#[test]
fn crossings_are_improving_two_opt_moves() {
    let coords = vec![(0, 0), (9, 1), (2, 7), (8, 8), (1, 3), (6, 2), (3, 9)];
    let tour = new_tour(Rc::new(instance_of(coords.clone(), vec![], 0)));
    let n = tour.size();
    let mut found = Vec::new();
    let mut search = tour.crossings();
    while let Some(p) = search.next() {
        found.push(p);
    }
    let mut expected = Vec::new();
    for l in 1..n {
        for r in l + 1..n - 1 {
            let mut moved = tour.cities.clone();
            moved[l..=r].reverse();
            if length(&coords, &moved) < length(&coords, &tour.cities) {
                expected.push((l, r));
            }
        }
    }
    assert!(!found.is_empty());
    assert_eq!(found, expected);
}

fn knapsack_tour() -> Rc<Tour> {
    let items = vec![
        Item { index: 1, profit: 10, weight: 5, in_city: 2 },
        Item { index: 2, profit: 20, weight: 7, in_city: 1 },
        Item { index: 3, profit: 30, weight: 1, in_city: 3 },
    ];
    Rc::new(new_tour_greedy(Rc::new(instance_of(sample_coords(), items, 10))))
}

#[test]
fn new_knapsack() {
    let k = Knapsack::new(knapsack_tour());
    assert_eq!(k.rem_cap, 10);
    assert_eq!(k.is_in, vec![false, false, false]);
    assert_eq!(k.city_weight, vec![0, 0, 0, 0]);
    // Tour 0, 2, 3, 1: position of each city.
    assert_eq!(k.city_idx_in_tour, vec![0, 3, 1, 2]);
}

#[test]
fn flips_items() {
    let mut k = Knapsack::new(knapsack_tour());
    let f = k.flip_begin(0).unwrap();
    assert_eq!((f.item, f.adding, f.start, f.weight), (0, true, 1, 5));
    assert_eq!(k.city_weight, vec![0, 5, 5, 5]);
    k.flip_commit(f);
    assert_eq!(k.is_in, vec![true, false, false]);
    assert_eq!(k.rem_cap, 5);
    // Item 1 weighs 7: it does not fit.
    assert!(k.flip_begin(1).is_none());
    assert_eq!(k.city_weight, vec![0, 5, 5, 5]);
    // Drawing 2 falls on item 0 again (the last item is never drawn).
    let g = k.flip_begin(2).unwrap();
    assert_eq!((g.item, g.adding, g.start, g.weight), (0, false, 1, 5));
    assert_eq!(k.city_weight, vec![0, 0, 0, 0]);
    k.flip_revert(g);
    assert_eq!(k.city_weight, vec![0, 5, 5, 5]);
    assert_eq!(k.is_in, vec![true, false, false]);
    assert_eq!(k.rem_cap, 5);
    let h = k.flip_begin(4).unwrap();
    k.flip_commit(h);
    assert_eq!(k.is_in, vec![false, false, false]);
    assert_eq!(k.rem_cap, 10);
    assert_eq!(k.city_weight, vec![0, 0, 0, 0]);
}

#[test]
fn try_one_follows_the_acceptance() {
    let coords = vec![(0, 0), (10, 0), (1, 0), (5, 5), (-3, 7), (2, -9), (4, 4)];
    let mut tour: Tour = new_tour_greedy(Rc::new(instance_of(coords.clone(), vec![], 0)));
    let mut rng = XorShiftRng::from_seed([9, 8, 7, 6]);
    let before = tour.cities.clone();
    let cost = tour.cost;
    assert_eq!(tour.rls_try_one(&mut rng, |_| false).1, false);
    assert_eq!(tour.cities, before);
    assert_eq!(tour.cost, cost);
    for _ in 0..100 {
        let (improving, taken) = tour.rls_try_one(&mut rng, |d| d < 0);
        assert_eq!(improving, taken);
        assert_eq!(tour.cost, length(&coords, &tour.cities));
    }
    assert!(tour.cost <= cost);
    let (_, taken) = tour.rls_try_one(&mut rng, |_| true);
    assert!(taken);
    assert_eq!(tour.cost, length(&coords, &tour.cities));
}
