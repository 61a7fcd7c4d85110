use vstd::prelude::*;

verus! {

broadcast use vstd::string::group_string_axioms;

/// The characters of a line, in order.
pub fn line_chars(line: &str) -> (v: Vec<char>)
    ensures
        v@ == line@,
{
    let mut v: Vec<char> = Vec::new();
    for c in it: line.chars()
        invariant
            v@ == it.seq().take(it.index()),
            it.seq() == line@,
    {
        v.push(c);
    }
    v
}

} // verus!

verus! {

/// Unicode `White_Space` characters, as `char::is_whitespace` classifies them.
pub open spec fn spec_is_white_space(c: char) -> bool {
    let u = c as u32;
    ||| 0x9 <= u <= 0xd
    ||| u == 0x20
    ||| u == 0x85
    ||| u == 0xa0
    ||| u == 0x1680
    ||| 0x2000 <= u <= 0x200a
    ||| u == 0x2028
    ||| u == 0x2029
    ||| u == 0x202f
    ||| u == 0x205f
    ||| u == 0x3000
}

/// Whether `c` separates words.
pub fn is_white_space(c: char) -> (b: bool)
    ensures
        b == spec_is_white_space(c),
{
    let u = c as u32;
    (0x9 <= u && u <= 0xd) || u == 0x20 || u == 0x85 || u == 0xa0 || u == 0x1680 || (0x2000 <= u
        && u <= 0x200a) || u == 0x2028 || u == 0x2029 || u == 0x202f || u == 0x205f || u == 0x3000
}

/// The words of `s`: its maximal runs of characters that are not white space,
/// in order.
pub open spec fn words(s: Seq<char>) -> Seq<Seq<char>>
    decreases s.len(),
{
    if s.len() == 0 {
        seq![]
    } else {
        let w = words(s.drop_last());
        let c = s.last();
        if spec_is_white_space(c) {
            w
        } else if s.len() >= 2 && !spec_is_white_space(s[s.len() - 2]) {
            w.update(w.len() - 1, w.last().push(c))
        } else {
            w.push(seq![c])
        }
    }
}

/// A sequence that ends in a character other than white space has a word.
pub proof fn lemma_words_nonempty(s: Seq<char>)
    requires
        s.len() > 0,
        !spec_is_white_space(s.last()),
    ensures
        words(s).len() > 0,
    decreases s.len(),
{
    if s.len() >= 2 && !spec_is_white_space(s[s.len() - 2]) {
        assert(s.drop_last().last() == s[s.len() - 2]);
        lemma_words_nonempty(s.drop_last());
    }
}

/// The spans `[start, end)` of the words of `s`.
pub fn word_spans(s: &Vec<char>) -> (spans: Vec<(usize, usize)>)
    ensures
        spans.len() == words(s@).len(),
        forall|k: int|
            #![trigger spans[k]]
            0 <= k < spans.len() ==> spans[k].0 < spans[k].1 <= s.len() && s@.subrange(
                spans[k].0 as int,
                spans[k].1 as int,
            ) == words(s@)[k],
{
    let mut spans: Vec<(usize, usize)> = Vec::new();
    let mut in_word = false;
    let mut start: usize = 0;
    let mut i: usize = 0;
    while i < s.len()
        invariant
            i <= s.len(),
            in_word ==> start < i,
            in_word <==> (i > 0 && !spec_is_white_space(s@[i - 1])),
            words(s@.take(i as int)).len() == spans.len() + (if in_word { 1int } else { 0 }),
            forall|k: int|
                #![trigger spans[k]]
                0 <= k < spans.len() ==> spans[k].0 < spans[k].1 <= i && s@.subrange(
                    spans[k].0 as int,
                    spans[k].1 as int,
                ) == words(s@.take(i as int))[k],
            in_word ==> words(s@.take(i as int)).last() == s@.subrange(start as int, i as int),
        decreases s.len() - i,
    {
        let c = s[i];
        let ghost prev = s@.take(i as int);
        let ghost next = s@.take(i + 1);
        assert(next.drop_last() == prev);
        assert(next.last() == c);
        if is_white_space(c) {
            if in_word {
                spans.push((start, i));
                in_word = false;
            }
        } else {
            if !in_word {
                start = i;
                in_word = true;
            } else {
                assert(next[next.len() - 2] == s@[i - 1]);
                proof {
                    lemma_words_nonempty(prev);
                }
            }
            assert(s@.subrange(start as int, i + 1) == s@.subrange(start as int, i as int).push(c));
        }
        i = i + 1;
    }
    if in_word {
        spans.push((start, i));
    }
    assert(s@.take(s.len() as int) == s@);
    spans
}

} // verus!

verus! {

/// An ASCII decimal digit.
pub open spec fn is_digit(c: char) -> bool {
    '0' <= c <= '9'
}

/// The value of a digit character.
pub open spec fn digit_value(c: char) -> int {
    (c as u32) - ('0' as u32)
}

/// Every character of `s` is an ASCII decimal digit.
pub open spec fn all_digits(s: Seq<char>) -> bool {
    forall|k: int| 0 <= k < s.len() ==> #[trigger] is_digit(s[k])
}

/// The number that the decimal digits `s` write.
pub open spec fn digits_value(s: Seq<char>) -> int
    decreases s.len(),
{
    if s.len() == 0 {
        0
    } else {
        digits_value(s.drop_last()) * 10 + digit_value(s.last())
    }
}

/// What `u64::from_str` gives for the text `s`: an optional `+`, then one
/// or more decimal digits, whose value fits in 64 bits.
pub open spec fn spec_parse_u64(s: Seq<char>) -> Option<u64> {
    let d = if s.len() > 0 && s[0] == '+' {
        s.drop_first()
    } else {
        s
    };
    if d.len() > 0 && all_digits(d) && digits_value(d) <= u64::MAX {
        Some(digits_value(d) as u64)
    } else {
        None
    }
}

/// What `i64::from_str` gives for the text `s`: an optional `+` or `-`, then
/// one or more decimal digits, whose signed value fits in 64 bits.
pub open spec fn spec_parse_i64(s: Seq<char>) -> Option<i64> {
    if s.len() > 0 && s[0] == '-' {
        let d = s.drop_first();
        if d.len() > 0 && all_digits(d) && digits_value(d) <= 0x8000_0000_0000_0000 {
            Some((-digits_value(d)) as i64)
        } else {
            None
        }
    } else {
        let d = if s.len() > 0 && s[0] == '+' {
            s.drop_first()
        } else {
            s
        };
        if d.len() > 0 && all_digits(d) && digits_value(d) <= i64::MAX {
            Some(digits_value(d) as i64)
        } else {
            None
        }
    }
}

proof fn lemma_digits_value_nonneg(s: Seq<char>)
    requires
        all_digits(s),
    ensures
        digits_value(s) >= 0,
    decreases s.len(),
{
    if s.len() > 0 {
        assert(is_digit(s[s.len() - 1]));
        assert(all_digits(s.drop_last())) by {
            assert forall|k: int| 0 <= k < s.drop_last().len() implies #[trigger] is_digit(
                s.drop_last()[k],
            ) by {
                assert(is_digit(s[k]));
            }
        }
        lemma_digits_value_nonneg(s.drop_last());
    }
}

/// A longer run of digits is worth at least as much as its prefix.
proof fn lemma_digits_value_prefix(s: Seq<char>, k: int)
    requires
        all_digits(s),
        0 <= k <= s.len(),
    ensures
        digits_value(s.take(k)) <= digits_value(s),
    decreases s.len(),
{
    if k < s.len() {
        let p = s.drop_last();
        assert(all_digits(p)) by {
            assert forall|m: int| 0 <= m < p.len() implies #[trigger] is_digit(p[m]) by {
                assert(is_digit(s[m]));
            }
        }
        assert(is_digit(s[s.len() - 1]));
        lemma_digits_value_prefix(p, k);
        assert(p.take(k) == s.take(k));
        lemma_digits_value_nonneg(p);
    } else {
        assert(s.take(k) == s);
    }
}

/// The value of the decimal digits `s[start..end]`, where it fits in 64 bits.
fn parse_digits(s: &Vec<char>, start: usize, end: usize) -> (r: Option<u64>)
    requires
        start <= end <= s.len(),
    ensures
        ({
            let d = s@.subrange(start as int, end as int);
            r == (if all_digits(d) && digits_value(d) <= u64::MAX {
                Some(digits_value(d) as u64)
            } else {
                None
            }) && (all_digits(d) ==> digits_value(d) >= 0)
        }),
{
    let ghost d = s@.subrange(start as int, end as int);
    proof {
        if all_digits(d) {
            lemma_digits_value_nonneg(d);
        }
    }
    let mut value: u64 = 0;
    let mut i: usize = start;
    while i < end
        invariant
            start <= i <= end <= s.len(),
            d == s@.subrange(start as int, end as int),
            all_digits(d.take(i - start)),
            value == digits_value(d.take(i - start)),
        decreases end - i,
    {
        let c = s[i];
        let ghost prev = d.take(i - start);
        let ghost next = d.take(i + 1 - start);
        assert(next.drop_last() == prev);
        assert(next.last() == c);
        if !('0' <= c && c <= '9') {
            assert(!is_digit(d[i - start]));
            return None;
        }
        let dig = (c as u32 - '0' as u32) as u64;
        if value > (u64::MAX - dig) / 10 {
            proof {
                assert(value * 10 + dig > u64::MAX) by (nonlinear_arith)
                    requires
                        value > (u64::MAX - dig) / 10,
                        dig <= 9,
                ;
                if all_digits(d) {
                    lemma_digits_value_prefix(d, i + 1 - start);
                }
            }
            return None;
        }
        proof {
            assert(value * 10 + dig <= u64::MAX) by (nonlinear_arith)
                requires
                    value <= (u64::MAX - dig) / 10,
                    dig <= 9,
            ;
            assert(all_digits(next)) by {
                assert forall|m: int| 0 <= m < next.len() implies #[trigger] is_digit(next[m]) by {
                    if m < prev.len() {
                        assert(next[m] == prev[m]);
                    }
                }
            }
        }
        value = value * 10 + dig;
        i = i + 1;
    }
    assert(d.take(end - start) == d);
    Some(value)
}

/// `u64::from_str` on the characters `s[start..end]`.
pub fn parse_u64(s: &Vec<char>, start: usize, end: usize) -> (r: Option<u64>)
    requires
        start <= end <= s.len(),
    ensures
        r == spec_parse_u64(s@.subrange(start as int, end as int)),
{
    let ghost w = s@.subrange(start as int, end as int);
    let mut from = start;
    if start < end && s[start] == '+' {
        from = start + 1;
        assert(w.drop_first() == s@.subrange(from as int, end as int));
    }
    if from == end {
        return None;
    }
    parse_digits(s, from, end)
}

/// `i64::from_str` on the characters `s[start..end]`.
pub fn parse_i64(s: &Vec<char>, start: usize, end: usize) -> (r: Option<i64>)
    requires
        start <= end <= s.len(),
    ensures
        r == spec_parse_i64(s@.subrange(start as int, end as int)),
{
    let ghost w = s@.subrange(start as int, end as int);
    if start < end && s[start] == '-' {
        assert(w.drop_first() == s@.subrange(start + 1, end as int));
        if start + 1 == end {
            return None;
        }
        match parse_digits(s, start + 1, end) {
            Some(m) => {
                if m <= 0x8000_0000_0000_0000 {
                    if m == 0x8000_0000_0000_0000 {
                        assert((-(m as int)) as i64 == i64::MIN);
                        Some(i64::MIN)
                    } else {
                        let r = -(m as i64);
                        assert(r == (-(m as int)) as i64);
                        Some(r)
                    }
                } else {
                    None
                }
            },
            None => None,
        }
    } else {
        let mut from = start;
        if start < end && s[start] == '+' {
            from = start + 1;
            assert(w.drop_first() == s@.subrange(from as int, end as int));
        }
        if from == end {
            return None;
        }
        match parse_digits(s, from, end) {
            Some(m) => {
                if m <= i64::MAX as u64 {
                    Some(m as i64)
                } else {
                    None
                }
            },
            None => None,
        }
    }
}

} // verus!
