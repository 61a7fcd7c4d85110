use vstd::prelude::*;

use crate::text::{
    line_chars, parse_i64, parse_u64, spec_parse_i64, spec_parse_u64, word_spans, words,
};

verus! {

/// A point of the plane with integer coordinates.
pub type Coord = (i64, i64);

/// An item of the knapsack part of an instance.
#[derive(Debug, Clone, Copy, PartialEq, Eq)]
pub struct Item {
    pub index: u64,
    pub profit: i64,
    pub weight: u64,
    pub in_city: u64,
}

/// The squared euclidean distance of two points, over the integers.
pub open spec fn spec_sq_distance(c1: Coord, c2: Coord) -> int {
    (c2.0 - c1.0) * (c2.0 - c1.0) + (c2.1 - c1.1) * (c2.1 - c1.1)
}

/// The squared distance of two points fits the signed 64-bit range in
/// which it is computed.
pub open spec fn sq_distance_fits(c1: Coord, c2: Coord) -> bool {
    spec_sq_distance(c1, c2) <= i64::MAX
}

proof fn lemma_square_bound(d: int)
    requires
        d * d <= i64::MAX,
    ensures
        -3037000500 <= d <= 3037000500,
{
    if d > 3037000500 {
        assert(d * d > 3037000500 * 3037000500) by (nonlinear_arith)
            requires d > 3037000500;
    } else if d < -3037000500 {
        assert(d * d > 3037000500 * 3037000500) by (nonlinear_arith)
            requires d < -3037000500;
    }
}

/// Squared euclidean distance between two points.
pub fn sq_distance(c1: Coord, c2: Coord) -> (r: u64)
    requires
        sq_distance_fits(c1, c2),
    ensures
        r == spec_sq_distance(c1, c2),
{
    let (x, y) = c1;
    let (a, b) = c2;
    proof {
        let dx = a - x;
        let dy = b - y;
        assert(dx * dx >= 0 && dy * dy >= 0) by (nonlinear_arith);
        lemma_square_bound(dx);
        lemma_square_bound(dy);
        assert(dx * dx <= 3037000500 * 3037000500) by (nonlinear_arith)
            requires -3037000500 <= dx <= 3037000500;
        assert(dy * dy <= 3037000500 * 3037000500) by (nonlinear_arith)
            requires -3037000500 <= dy <= 3037000500;
    }
    let dx = a - x;
    let dy = b - y;
    (dx * dx + dy * dy) as u64
}


/// An instance: cities of the plane and the items that lie in them.
///
/// The speeds and the renting ratio of the text format are floating-point
/// values; the reader requires them to be present and leaves them to the caller.
pub struct Instance {
    pub name: String,
    pub dimension: u64,
    pub capacity: u64,
    pub items_num: u64,
    pub coords: Vec<Coord>,
    pub items: Vec<Item>,
}

/// The `n`-th word of a line, if it has one.
pub open spec fn spec_word(line: Seq<char>, n: int) -> Option<Seq<char>> {
    if 0 <= n < words(line).len() {
        Some(words(line)[n])
    } else {
        None
    }
}

/// The `n`-th word of a line read as an unsigned integer.
pub open spec fn spec_val_at(line: Seq<char>, n: int) -> Option<u64> {
    match spec_word(line, n) {
        Some(w) => spec_parse_u64(w),
        None => None,
    }
}

/// A coordinates line: an index, then the two coordinates.
pub open spec fn spec_read_coords(line: Seq<char>) -> Option<Coord> {
    let w = words(line);
    if w.len() >= 3 && spec_parse_i64(w[1]) is Some && spec_parse_i64(w[2]) is Some {
        Some((spec_parse_i64(w[1])->0, spec_parse_i64(w[2])->0))
    } else {
        None
    }
}

/// An item line: index, profit, weight and city, in that order.
pub open spec fn spec_read_item(line: Seq<char>) -> Option<Item> {
    let w = words(line);
    if w.len() >= 4 && spec_parse_u64(w[0]) is Some && spec_parse_i64(w[1]) is Some
        && spec_parse_u64(w[2]) is Some && spec_parse_u64(w[3]) is Some {
        Some(
            Item {
                index: spec_parse_u64(w[0])->0,
                profit: spec_parse_i64(w[1])->0,
                weight: spec_parse_u64(w[2])->0,
                in_city: spec_parse_u64(w[3])->0,
            },
        )
    } else {
        None
    }
}

/// The characters of the `k`-th line.
pub open spec fn line_at(ls: Seq<String>, k: int) -> Seq<char> {
    ls[k]@
}

/// The number of cities that the header announces.
pub open spec fn header_dimension(ls: Seq<String>) -> u64 {
    spec_val_at(line_at(ls, 2), 1)->0
}

/// The number of items that the header announces.
pub open spec fn header_items_num(ls: Seq<String>) -> u64 {
    spec_val_at(line_at(ls, 3), 3)->0
}

/// The capacity that the header announces.
pub open spec fn header_capacity(ls: Seq<String>) -> u64 {
    spec_val_at(line_at(ls, 4), 3)->0
}

/// The line of the `k`-th city.
pub open spec fn coords_line(k: int) -> int {
    10 + k
}

/// The line of the `k`-th item, after the cities and one section line.
pub open spec fn item_line(dimension: int, k: int) -> int {
    11 + dimension + k
}

/// The header of an instance text: the name (third word of the first line),
/// the dimension (second word of the third line), the number of items and the
/// capacity (fourth words of the next two lines), and a third word on each of
/// the three lines that follow.
pub open spec fn header_ok(ls: Seq<String>) -> bool {
    &&& ls.len() >= 8
    &&& words(line_at(ls, 0)).len() > 2
    &&& spec_val_at(line_at(ls, 2), 1) is Some
    &&& spec_val_at(line_at(ls, 3), 3) is Some
    &&& spec_val_at(line_at(ls, 4), 3) is Some
    &&& words(line_at(ls, 5)).len() > 2
    &&& words(line_at(ls, 6)).len() > 2
    &&& words(line_at(ls, 7)).len() > 2
}

/// A whole instance text: a header, then after two more lines one line per
/// city, then one more line and one line per item.
pub open spec fn instance_text_ok(ls: Seq<String>) -> bool {
    &&& header_ok(ls)
    &&& forall|k: int|
        0 <= k < header_dimension(ls) ==> coords_line(k) < ls.len() && #[trigger] spec_read_coords(
            line_at(ls, coords_line(k)),
        ) is Some
    &&& forall|k: int|
        0 <= k < header_items_num(ls) ==> item_line(header_dimension(ls) as int, k) < ls.len()
            && #[trigger] spec_read_item(line_at(ls, item_line(header_dimension(ls) as int, k)))
            is Some
}

/// The `n`-th word of `line`.
pub fn nth_word(line: &str, n: usize) -> (r: Option<String>)
    ensures
        r matches Some(w) ==> spec_word(line@, n as int) == Some(w@),
        r is None ==> spec_word(line@, n as int) is None,
{
    let cs = line_chars(line);
    let spans = word_spans(&cs);
    if n < spans.len() {
        let (a, b) = spans[n];
        let w = line.substring_char(a, b);
        Some(w.to_owned())
    } else {
        None
    }
}

/// The `n`-th word of `line` read as an unsigned integer.
pub fn read_val_at(line: &str, n: usize) -> (r: Option<u64>)
    ensures
        r == spec_val_at(line@, n as int),
{
    let cs = line_chars(line);
    let spans = word_spans(&cs);
    if n < spans.len() {
        let (a, b) = spans[n];
        parse_u64(&cs, a, b)
    } else {
        None
    }
}

/// Reads the coordinates of a city from its line.
pub fn read_coords(line: &str) -> (r: Option<Coord>)
    ensures
        r == spec_read_coords(line@),
{
    let cs = line_chars(line);
    let spans = word_spans(&cs);
    if spans.len() < 3 {
        return None;
    }
    let x = parse_i64(&cs, spans[1].0, spans[1].1);
    let y = parse_i64(&cs, spans[2].0, spans[2].1);
    match (x, y) {
        (Some(x), Some(y)) => Some((x, y)),
        _ => None,
    }
}

/// Reads an item from its line.
pub fn read_item(line: &str) -> (r: Option<Item>)
    ensures
        r == spec_read_item(line@),
{
    let cs = line_chars(line);
    let spans = word_spans(&cs);
    if spans.len() < 4 {
        return None;
    }
    let idx = parse_u64(&cs, spans[0].0, spans[0].1);
    let profit = parse_i64(&cs, spans[1].0, spans[1].1);
    let weight = parse_u64(&cs, spans[2].0, spans[2].1);
    let city = parse_u64(&cs, spans[3].0, spans[3].1);
    match (idx, profit, weight, city) {
        (Some(idx), Some(profit), Some(weight), Some(city)) => Some(
            Item { index: idx, profit: profit, weight: weight, in_city: city },
        ),
        _ => None,
    }
}


/// Reads an instance from the lines of its text.
///
/// Succeeds exactly on the texts that `instance_text_ok` describes; the fields
/// are then those that the header, the city lines and the item lines give.
pub fn read_instance(lines: &Vec<String>) -> (r: Option<Instance>)
    ensures
        r is Some <==> instance_text_ok(lines@),
        r matches Some(inst) ==> {
            &&& inst.name@ == words(line_at(lines@, 0))[2]
            &&& inst.dimension == header_dimension(lines@)
            &&& inst.items_num == header_items_num(lines@)
            &&& inst.capacity == header_capacity(lines@)
            &&& inst.coords.len() == inst.dimension
            &&& inst.items.len() == inst.items_num
            &&& forall|k: int|
                #![trigger inst.coords@[k]]
                0 <= k < inst.coords.len() ==> Some(inst.coords@[k]) == spec_read_coords(
                    line_at(lines@, coords_line(k)),
                )
            &&& forall|k: int|
                #![trigger inst.items@[k]]
                0 <= k < inst.items.len() ==> Some(inst.items@[k]) == spec_read_item(
                    line_at(lines@, item_line(inst.dimension as int, k)),
                )
        },
{
    if lines.len() < 8 {
        return None;
    }
    let name = match nth_word(lines[0].as_str(), 2) {
        Some(w) => w,
        None => return None,
    };
    let dimension = match read_val_at(lines[2].as_str(), 1) {
        Some(v) => v,
        None => return None,
    };
    let items_num = match read_val_at(lines[3].as_str(), 3) {
        Some(v) => v,
        None => return None,
    };
    let capacity = match read_val_at(lines[4].as_str(), 3) {
        Some(v) => v,
        None => return None,
    };
    let mut k: usize = 5;
    while k < 8
        invariant
            5 <= k <= 8 <= lines.len(),
            forall|m: int| 5 <= m < k ==> words(#[trigger] line_at(lines@, m)).len() > 2,
        decreases 8 - k,
    {
        if nth_word(lines[k].as_str(), 2).is_none() {
            return None;
        }
        k = k + 1;
    }
    assert(header_ok(lines@));
    let n_lines = lines.len() as u64;
    let mut coords: Vec<Coord> = Vec::new();
    let mut c: u64 = 0;
    while c < dimension
        invariant
            header_ok(lines@),
            dimension == header_dimension(lines@),
            n_lines == lines.len(),
            c <= dimension,
            coords.len() == c,
            forall|m: int|
                #![trigger coords@[m]]
                0 <= m < c ==> coords_line(m) < lines.len() && Some(coords@[m]) == spec_read_coords(
                    line_at(lines@, coords_line(m)),
                ),
        decreases dimension - c,
    {
        if c >= n_lines || n_lines - c <= 10 {
            assert(!(coords_line(c as int) < lines.len()));
            return None;
        }
        let line_no = (10 + c) as usize;
        match read_coords(lines[line_no].as_str()) {
            Some(p) => coords.push(p),
            None => {
                assert(spec_read_coords(line_at(lines@, coords_line(c as int))) is None);
                return None;
            },
        }
        c = c + 1;
    }
    assert forall|m: int| 0 <= m < header_dimension(lines@) implies coords_line(m) < lines.len()
        && #[trigger] spec_read_coords(line_at(lines@, coords_line(m))) is Some by {
        assert(Some(coords@[m]) == spec_read_coords(line_at(lines@, coords_line(m))));
    }
    let mut items: Vec<Item> = Vec::new();
    let mut t: u64 = 0;
    while t < items_num
        invariant
            header_ok(lines@),
            dimension == header_dimension(lines@),
            items_num == header_items_num(lines@),
            n_lines == lines.len(),
            t <= items_num,
            items.len() == t,
            forall|m: int|
                #![trigger items@[m]]
                0 <= m < t ==> item_line(dimension as int, m) < lines.len() && Some(items@[m])
                    == spec_read_item(line_at(lines@, item_line(dimension as int, m))),
        decreases items_num - t,
    {
        if dimension >= n_lines || t >= n_lines - dimension || n_lines - dimension - t <= 11 {
            assert(!(item_line(dimension as int, t as int) < lines.len()));
            return None;
        }
        let line_no = (11 + dimension + t) as usize;
        match read_item(lines[line_no].as_str()) {
            Some(it) => items.push(it),
            None => {
                assert(spec_read_item(line_at(lines@, item_line(dimension as int, t as int))) is None);
                return None;
            },
        }
        t = t + 1;
    }
    assert forall|m: int| 0 <= m < header_items_num(lines@) implies item_line(
        header_dimension(lines@) as int,
        m,
    ) < lines.len() && #[trigger] spec_read_item(
        line_at(lines@, item_line(header_dimension(lines@) as int, m)),
    ) is Some by {
        assert(Some(items@[m]) == spec_read_item(line_at(lines@, item_line(dimension as int, m))));
    }
    Some(Instance { name, dimension, capacity, items_num, coords, items })
}

} // verus!
