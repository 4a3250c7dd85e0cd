use vstd::prelude::*;

use crate::text::{pieces, split_pair, words, words_of};
use crate::tools::has_char;

verus! {

/// The ten signal patterns of a display, and the four output patterns.
pub type SingleInput = (Vec<String>, Vec<String>);

pub open spec fn is_easy_length(n: nat) -> bool {
    n == 2 || n == 3 || n == 4 || n == 7
}

/// How many of the first `k` output patterns of `outputs` have 2, 3, 4 or
/// 7 segments.
pub open spec fn easy_in(outputs: Seq<String>, k: int) -> int
    decreases k,
{
    if k <= 0 {
        0
    } else {
        easy_in(outputs, k - 1) + if is_easy_length(outputs[k - 1]@.len()) {
            1int
        } else {
            0int
        }
    }
}

/// The easy output patterns of the first `k` displays.
pub open spec fn easy_total(input: Seq<SingleInput>, k: int) -> int
    decreases k,
{
    if k <= 0 {
        0
    } else {
        easy_total(input, k - 1) + easy_in(input[k - 1].1@, input[k - 1].1@.len() as int)
    }
}

proof fn lemma_easy_in_bound(outputs: Seq<String>, k: int)
    requires
        0 <= k <= outputs.len(),
    ensures
        0 <= easy_in(outputs, k) <= k,
    decreases k,
{
    if k > 0 {
        lemma_easy_in_bound(outputs, k - 1);
    }
}

/// How many output patterns, over all displays, show a 1, 4, 7 or 8: the
/// digits with 2, 4, 3 and 7 segments.
pub fn part1(input: &[SingleInput]) -> (r: usize)
    requires
        easy_total(input@, input@.len() as int) <= usize::MAX,
    ensures
        r == easy_total(input@, input@.len() as int),
{
    let mut acc: usize = 0;
    let mut e: usize = 0;
    while e < input.len()
        invariant
            e <= input@.len(),
            easy_total(input@, input@.len() as int) <= usize::MAX,
            acc == easy_total(input@, e as int),
        decreases input@.len() - e,
    {
        let outputs = &input[e].1;
        let mut k: usize = 0;
        let mut here: usize = 0;
        while k < outputs.len()
            invariant
                k <= outputs@.len(),
                outputs@ == input@[e as int].1@,
                here == easy_in(outputs@, k as int),
            decreases outputs@.len() - k,
        {
            proof {
                lemma_easy_in_bound(outputs@, k as int);
            }
            let n = outputs[k].as_str().unicode_len();
            if n == 2 || n == 3 || n == 4 || n == 7 {
                here = here + 1;
            }
            k = k + 1;
        }
        proof {
            lemma_easy_total_grows(input@, e + 1, input@.len() as int);
        }
        acc = acc + here;
        e = e + 1;
    }
    acc
}

proof fn lemma_easy_total_grows(input: Seq<SingleInput>, k: int, n: int)
    requires
        0 <= k <= n <= input.len(),
    ensures
        0 <= easy_total(input, k) <= easy_total(input, n),
    decreases n,
{
    if n > 0 {
        lemma_easy_in_bound(input[n - 1].1@, input[n - 1].1@.len() as int);
        if k < n {
            lemma_easy_total_grows(input, k, n - 1);
        } else {
            lemma_easy_total_grows(input, n - 1, n - 1);
        }
    }
}

/// The first `n` candidates that `pattern` does not light, in order.
pub open spec fn unlit(c: Seq<char>, pattern: Seq<char>, n: int) -> Seq<char>
    decreases n,
{
    if n <= 0 {
        seq![]
    } else if !pattern.contains(c[n - 1]) {
        unlit(c, pattern, n - 1).push(c[n - 1])
    } else {
        unlit(c, pattern, n - 1)
    }
}

/// How many of the first `n` patterns light segment `ch`.
pub open spec fn lit_count(patterns: Seq<String>, ch: char, n: int) -> int
    decreases n,
{
    if n <= 0 {
        0
    } else {
        lit_count(patterns, ch, n - 1) + if patterns[n - 1]@.contains(ch) {
            1int
        } else {
            0int
        }
    }
}

/// The first `n` candidates that exactly `count` patterns light, in order.
pub open spec fn lit_exactly_spec(c: Seq<char>, patterns: Seq<String>, count: int, n: int) -> Seq<char>
    decreases n,
{
    if n <= 0 {
        seq![]
    } else if lit_count(patterns, c[n - 1], patterns.len() as int) == count {
        lit_exactly_spec(c, patterns, count, n - 1).push(c[n - 1])
    } else {
        lit_exactly_spec(c, patterns, count, n - 1)
    }
}

pub open spec fn all_unlit(c: Seq<char>, pattern: Seq<char>) -> Seq<char> {
    unlit(c, pattern, c.len() as int)
}

/// The seven candidate lists, one per segment, after ruling out with one
/// pattern: the segments that a 1 (two segments), 7 (three) or 4 (four)
/// does not use cannot be driven by its wires.
pub open spec fn sieve(c: Seq<Seq<char>>, p: Seq<char>) -> Seq<Seq<char>> {
    Seq::new(
        7,
        |i: int|
            if (p.len() == 2 && (i == 0 || i == 1 || i == 3 || i == 4 || i == 6)) || (p.len() == 3
                && (i == 1 || i == 3 || i == 4 || i == 6)) || (p.len() == 4 && (i == 0 || i == 4
                || i == 6)) {
                all_unlit(c[i], p)
            } else {
                c[i]
            },
    )
}

pub open spec fn all_wires() -> Seq<char> {
    seq!['a', 'b', 'c', 'd', 'e', 'f', 'g']
}

/// The candidate lists after sieving with the first `k` patterns.
pub open spec fn sieve_all(patterns: Seq<String>, k: int) -> Seq<Seq<char>>
    decreases k,
{
    if k <= 0 {
        Seq::new(7, |i: int| all_wires())
    } else {
        sieve(sieve_all(patterns, k - 1), patterns[k - 1]@)
    }
}

/// The candidate lists once the patterns are sieved and the counting rules
/// applied: segment 3 loses the candidates of 6, segment 2 those of 0, and
/// segments 3, 1, 2, 5, 4 and 6 keep only the wires lit in 7, 6, 8, 9, 4 and
/// 7 of the patterns.
pub open spec fn wiring(patterns: Seq<String>) -> Seq<Seq<char>> {
    let c = sieve_all(patterns, patterns.len() as int);
    let c3 = all_unlit(c[3], c[6]);
    let c2 = all_unlit(c[2], c[0]);
    Seq::new(
        7,
        |i: int|
            if i == 0 {
                c[0]
            } else if i == 1 {
                lit_exactly_spec(c[1], patterns, 6, c[1].len() as int)
            } else if i == 2 {
                lit_exactly_spec(c2, patterns, 8, c2.len() as int)
            } else if i == 3 {
                lit_exactly_spec(c3, patterns, 7, c3.len() as int)
            } else if i == 4 {
                lit_exactly_spec(c[4], patterns, 4, c[4].len() as int)
            } else if i == 5 {
                lit_exactly_spec(c[5], patterns, 9, c[5].len() as int)
            } else {
                lit_exactly_spec(c[6], patterns, 7, c[6].len() as int)
            },
    )
}

/// The digit an output pattern shows under the wiring `w`: by its number of
/// segments (2, 3, 4, 7 for 1, 7, 4, 8), and for five and six segments by
/// whether it lights the first candidate of segments 1 and 4, or 3 and 2.
/// `None` where a candidate list that is looked at is empty.
pub open spec fn digit(o: Seq<char>, w: Seq<Seq<char>>) -> Option<int> {
    let n = o.len();
    if n == 2 {
        Some(1)
    } else if n == 3 {
        Some(7)
    } else if n == 4 {
        Some(4)
    } else if n == 7 {
        Some(8)
    } else if n == 5 {
        if w[1].len() == 0 {
            None
        } else if o.contains(w[1][0]) {
            Some(5)
        } else if w[4].len() == 0 {
            None
        } else if o.contains(w[4][0]) {
            Some(2)
        } else {
            Some(3)
        }
    } else if n == 6 {
        if w[3].len() == 0 {
            None
        } else if !o.contains(w[3][0]) {
            Some(0)
        } else if w[2].len() == 0 {
            None
        } else if o.contains(w[2][0]) {
            Some(9)
        } else {
            Some(6)
        }
    } else {
        Some(6)
    }
}

/// The number that the first `k` output patterns spell, first digit first.
pub open spec fn reading(outputs: Seq<String>, w: Seq<Seq<char>>, k: int) -> Option<int>
    decreases k,
{
    if k <= 0 {
        Some(0)
    } else {
        match (reading(outputs, w, k - 1), digit(outputs[k - 1]@, w)) {
            (Some(v), Some(d)) => Some(v * 10 + d),
            _ => None,
        }
    }
}

pub open spec fn entry_value(e: SingleInput) -> Option<int> {
    reading(e.1@, wiring(e.0@), e.1@.len() as int)
}

/// The sum of the readings of the first `k` displays.
pub open spec fn readings_total(input: Seq<SingleInput>, k: int) -> Option<int>
    decreases k,
{
    if k <= 0 {
        Some(0)
    } else {
        match (readings_total(input, k - 1), entry_value(input[k - 1])) {
            (Some(a), Some(b)) => Some(a + b),
            _ => None,
        }
    }
}

/// The candidates that `pattern` does not light.
fn without_segments_of(cands: &Vec<char>, pattern: &str) -> (r: Vec<char>)
    ensures
        r@ == all_unlit(cands@, pattern@),
{
    let mut out: Vec<char> = Vec::new();
    let mut i: usize = 0;
    while i < cands.len()
        invariant
            i <= cands@.len(),
            out@ == unlit(cands@, pattern@, i as int),
        decreases cands@.len() - i,
    {
        let c = cands[i];
        if !has_char(pattern, c) {
            out.push(c);
        }
        i = i + 1;
    }
    out
}

/// The candidates not among `others`.
fn without(cands: &Vec<char>, others: &Vec<char>) -> (r: Vec<char>)
    ensures
        r@ == all_unlit(cands@, others@),
{
    let mut out: Vec<char> = Vec::new();
    let mut i: usize = 0;
    while i < cands.len()
        invariant
            i <= cands@.len(),
            out@ == unlit(cands@, others@, i as int),
        decreases cands@.len() - i,
    {
        let c = cands[i];
        let mut found = false;
        let mut k: usize = 0;
        while k < others.len()
            invariant
                k <= others@.len(),
                found == exists|j: int| 0 <= j < k && others@[j] == c,
            decreases others@.len() - k,
        {
            if others[k] == c {
                found = true;
            }
            k = k + 1;
        }
        if !found {
            out.push(c);
        }
        i = i + 1;
    }
    out
}

/// How many of the patterns light segment `c`.
fn lit_in(patterns: &Vec<String>, c: char) -> (r: usize)
    ensures
        r == lit_count(patterns@, c, patterns@.len() as int),
{
    let mut n: usize = 0;
    let mut i: usize = 0;
    while i < patterns.len()
        invariant
            i <= patterns@.len(),
            n <= i,
            n == lit_count(patterns@, c, i as int),
        decreases patterns@.len() - i,
    {
        if has_char(patterns[i].as_str(), c) {
            n = n + 1;
        }
        i = i + 1;
    }
    n
}

/// The candidates that exactly `count` of the patterns light.
fn lit_exactly(cands: &Vec<char>, patterns: &Vec<String>, count: usize) -> (r: Vec<char>)
    ensures
        r@ == lit_exactly_spec(cands@, patterns@, count as int, cands@.len() as int),
{
    let mut out: Vec<char> = Vec::new();
    let mut i: usize = 0;
    while i < cands.len()
        invariant
            i <= cands@.len(),
            out@ == lit_exactly_spec(cands@, patterns@, count as int, i as int),
        decreases cands@.len() - i,
    {
        let c = cands[i];
        if lit_in(patterns, c) == count {
            out.push(c);
        }
        i = i + 1;
    }
    out
}

/// Works out which wire drives which segment of one display from its ten
/// patterns, and reads its output patterns as a number, first pattern first.
fn decode_entry(entry: &SingleInput) -> (r: Option<u64>)
    ensures
        match r {
            Some(v) => entry_value(*entry) == Some(v as int),
            None => match entry_value(*entry) {
                Some(x) => x > u64::MAX,
                None => true,
            },
        },
{
    let patterns = &entry.0;
    let mut c0 = vec!['a', 'b', 'c', 'd', 'e', 'f', 'g'];
    let mut c1 = vec!['a', 'b', 'c', 'd', 'e', 'f', 'g'];
    let mut c2 = vec!['a', 'b', 'c', 'd', 'e', 'f', 'g'];
    let mut c3 = vec!['a', 'b', 'c', 'd', 'e', 'f', 'g'];
    let mut c4 = vec!['a', 'b', 'c', 'd', 'e', 'f', 'g'];
    let c5 = vec!['a', 'b', 'c', 'd', 'e', 'f', 'g'];
    let mut c6 = vec!['a', 'b', 'c', 'd', 'e', 'f', 'g'];
    proof {
        assert(seq![c0@, c1@, c2@, c3@, c4@, c5@, c6@] =~= sieve_all(patterns@, 0));
    }
    // discard impossible positions
    let mut p: usize = 0;
    while p < patterns.len()
        invariant
            p <= patterns@.len(),
            seq![c0@, c1@, c2@, c3@, c4@, c5@, c6@] == sieve_all(patterns@, p as int),
        decreases patterns@.len() - p,
    {
        let ghost before = seq![c0@, c1@, c2@, c3@, c4@, c5@, c6@];
        let pattern = patterns[p].as_str();
        let len = pattern.unicode_len();
        if len == 2 {
            c0 = without_segments_of(&c0, pattern);
            c1 = without_segments_of(&c1, pattern);
            c3 = without_segments_of(&c3, pattern);
            c4 = without_segments_of(&c4, pattern);
            c6 = without_segments_of(&c6, pattern);
        }
        if len == 3 {
            c1 = without_segments_of(&c1, pattern);
            c3 = without_segments_of(&c3, pattern);
            c4 = without_segments_of(&c4, pattern);
            c6 = without_segments_of(&c6, pattern);
        }
        if len == 4 {
            c0 = without_segments_of(&c0, pattern);
            c4 = without_segments_of(&c4, pattern);
            c6 = without_segments_of(&c6, pattern);
        }
        proof {
            assert(seq![c0@, c1@, c2@, c3@, c4@, c5@, c6@] =~= sieve(before, patterns@[p as int]@));
        }
        p = p + 1;
    }
    let ghost sieved = seq![c0@, c1@, c2@, c3@, c4@, c5@, c6@];
    c3 = without(&c3, &c6);
    c2 = without(&c2, &c0);
    // the number of patterns lighting each segment is the same on every display
    c3 = lit_exactly(&c3, patterns, 7);
    c1 = lit_exactly(&c1, patterns, 6);
    c2 = lit_exactly(&c2, patterns, 8);
    let c5 = lit_exactly(&c5, patterns, 9);
    c4 = lit_exactly(&c4, patterns, 4);
    c6 = lit_exactly(&c6, patterns, 7);
    let ghost w = wiring(patterns@);
    proof {
        assert(seq![c0@, c1@, c2@, c3@, c4@, c5@, c6@] =~= w);
    }
    let outputs = &entry.1;
    let mut value: u64 = 0;
    let mut k: usize = 0;
    while k < outputs.len()
        invariant
            k <= outputs@.len(),
            outputs@ == entry.1@,
            w == wiring(entry.0@),
            w[1] == c1@ && w[2] == c2@ && w[3] == c3@ && w[4] == c4@,
            reading(outputs@, w, k as int) == Some(value as int),
        decreases outputs@.len() - k,
    {
        let digit_pattern = outputs[k].as_str();
        let n = digit_pattern.unicode_len();
        let d: u64 = if n == 2 {
            1
        } else if n == 3 {
            7
        } else if n == 4 {
            4
        } else if n == 7 {
            8
        } else if n == 5 {
            if c1.len() == 0 {
                proof {
                    lemma_reading_fails(outputs@, w, k + 1, outputs@.len() as int);
                }
                return None;
            }
            if has_char(digit_pattern, c1[0]) {
                5
            } else {
                if c4.len() == 0 {
                    proof {
                        lemma_reading_fails(outputs@, w, k + 1, outputs@.len() as int);
                    }
                    return None;
                }
                if has_char(digit_pattern, c4[0]) {
                    2
                } else {
                    3
                }
            }
        } else if n == 6 {
            if c3.len() == 0 {
                proof {
                    lemma_reading_fails(outputs@, w, k + 1, outputs@.len() as int);
                }
                return None;
            }
            if !has_char(digit_pattern, c3[0]) {
                0
            } else {
                if c2.len() == 0 {
                    proof {
                        lemma_reading_fails(outputs@, w, k + 1, outputs@.len() as int);
                    }
                    return None;
                }
                if has_char(digit_pattern, c2[0]) {
                    9
                } else {
                    6
                }
            }
        } else {
            6
        };
        proof {
            assert(digit(outputs@[k as int]@, w) == Some(d as int));
            assert(reading(outputs@, w, k + 1) == Some(value * 10 + d));
        }
        let next = match value.checked_mul(10) {
            Some(t) => t.checked_add(d),
            None => None,
        };
        match next {
            Some(v) => {
                value = v;
            },
            None => {
                proof {
                    lemma_reading_grows(outputs@, w, k + 1, outputs@.len() as int);
                }
                return None;
            },
        }
        k = k + 1;
    }
    Some(value)
}

proof fn lemma_digit_range(o: Seq<char>, w: Seq<Seq<char>>)
    ensures
        digit(o, w) matches Some(d) ==> 0 <= d <= 9,
{
}

/// Readings only grow as more output patterns are read.
proof fn lemma_reading_grows(outputs: Seq<String>, w: Seq<Seq<char>>, k: int, n: int)
    requires
        0 <= k <= n,
        reading(outputs, w, k) is Some,
    ensures
        0 <= reading(outputs, w, k)->0,
        reading(outputs, w, n) matches Some(b) ==> b >= reading(outputs, w, k)->0,
    decreases n,
{
    lemma_reading_nonneg(outputs, w, k);
    if k < n {
        lemma_reading_grows(outputs, w, k, n - 1);
        lemma_digit_range(outputs[n - 1]@, w);
    }
}

proof fn lemma_reading_nonneg(outputs: Seq<String>, w: Seq<Seq<char>>, k: int)
    ensures
        reading(outputs, w, k) matches Some(v) ==> v >= 0,
    decreases k,
{
    if k > 0 {
        lemma_reading_nonneg(outputs, w, k - 1);
        lemma_digit_range(outputs[k - 1]@, w);
    }
}

/// Totals only grow as more displays are read.
proof fn lemma_total_grows(input: Seq<SingleInput>, k: int, n: int)
    requires
        0 <= k <= n,
        readings_total(input, k) is Some,
    ensures
        0 <= readings_total(input, k)->0,
        readings_total(input, n) matches Some(b) ==> b >= readings_total(input, k)->0,
    decreases n,
{
    lemma_total_nonneg(input, k);
    if k < n {
        lemma_total_grows(input, k, n - 1);
        lemma_reading_nonneg(input[n - 1].1@, wiring(input[n - 1].0@), input[n - 1].1@.len() as int);
    }
}

proof fn lemma_total_nonneg(input: Seq<SingleInput>, k: int)
    ensures
        readings_total(input, k) matches Some(v) ==> v >= 0,
    decreases k,
{
    if k > 0 {
        lemma_total_nonneg(input, k - 1);
        lemma_reading_nonneg(input[k - 1].1@, wiring(input[k - 1].0@), input[k - 1].1@.len() as int);
    }
}

proof fn lemma_reading_fails(outputs: Seq<String>, w: Seq<Seq<char>>, k: int, n: int)
    requires
        1 <= k <= n,
        reading(outputs, w, k) is None,
    ensures
        reading(outputs, w, n) is None,
    decreases n,
{
    if k < n {
        lemma_reading_fails(outputs, w, k, n - 1);
    }
}

proof fn lemma_total_fails(input: Seq<SingleInput>, k: int, n: int)
    requires
        1 <= k <= n,
        readings_total(input, k) is None,
    ensures
        readings_total(input, n) is None,
    decreases n,
{
    if k < n {
        lemma_total_fails(input, k, n - 1);
    }
}

/// The sum of the numbers that the displays show, as `readings_total`
/// reads them; `None` where the patterns of a display leave a segment that
/// a reading looks at without a wire.
pub fn part2(input: &[SingleInput]) -> (r: Option<u64>)
    ensures
        match r {
            Some(v) => readings_total(input@, input@.len() as int) == Some(v as int),
            None => match readings_total(input@, input@.len() as int) {
                Some(x) => x > u64::MAX,
                None => true,
            },
        },
{
    let mut acc: u64 = 0;
    let mut e: usize = 0;
    while e < input.len()
        invariant
            e <= input@.len(),
            readings_total(input@, e as int) == Some(acc as int),
        decreases input@.len() - e,
    {
        match decode_entry(&input[e]) {
            Some(v) => match acc.checked_add(v) {
                Some(t) => {
                    acc = t;
                },
                None => {
                    proof {
                        lemma_total_grows(input@, e + 1, input@.len() as int);
                    }
                    return None;
                },
            },
            None => {
                proof {
                    if entry_value(input@[e as int]) is None {
                        lemma_total_fails(input@, e + 1, input@.len() as int);
                    } else {
                        lemma_total_nonneg(input@, e as int);
                        lemma_total_grows(input@, e + 1, input@.len() as int);
                    }
                }
                return None;
            },
        }
        e = e + 1;
    }
    Some(acc)
}

pub open spec fn strings_view(v: Seq<String>) -> Seq<Seq<char>> {
    v.map_values(|x: String| x@)
}

/// The patterns before the "|" and the outputs after it, as words; `None`
/// where the line has no "|" or more than one.
pub open spec fn display_of(line: Seq<char>) -> Option<(Seq<Seq<char>>, Seq<Seq<char>>)> {
    let ps = pieces(line, '|');
    if ps.len() == 2 {
        Some((words(ps[0]), words(ps[1])))
    } else {
        None
    }
}

/// The displays of the first `k` lines, if all are well formed.
pub open spec fn displays_of(lines: Seq<String>, k: int) -> Option<Seq<(Seq<Seq<char>>, Seq<Seq<char>>)>>
    decreases k,
{
    if k <= 0 {
        Some(seq![])
    } else {
        match (displays_of(lines, k - 1), display_of(lines[k - 1]@)) {
            (Some(ds), Some(d)) => Some(ds.push(d)),
            _ => None,
        }
    }
}

proof fn lemma_displays_fail(lines: Seq<String>, k: int, n: int)
    requires
        1 <= k <= n,
        displays_of(lines, k) is None,
    ensures
        displays_of(lines, n) is None,
    decreases n,
{
    if k < n {
        lemma_displays_fail(lines, k, n - 1);
    }
}

pub open spec fn input_view(v: Seq<SingleInput>) -> Seq<(Seq<Seq<char>>, Seq<Seq<char>>)> {
    v.map_values(|e: SingleInput| (strings_view(e.0@), strings_view(e.1@)))
}

/// The displays, one per line; `None` where a line is not patterns, "|" and
/// outputs.
pub fn read_input(lines: &[String]) -> (r: Option<Vec<SingleInput>>)
    ensures
        match r {
            Some(v) => displays_of(lines@, lines@.len() as int) == Some(input_view(v@)),
            None => displays_of(lines@, lines@.len() as int) is None,
        },
{
    let mut out: Vec<SingleInput> = Vec::new();
    let mut i: usize = 0;
    while i < lines.len()
        invariant
            i <= lines@.len(),
            displays_of(lines@, i as int) == Some(input_view(out@)),
        decreases lines@.len() - i,
    {
        match split_pair(lines[i].as_str(), '|') {
            Some((patterns, outputs)) => {
                let p = words_of(patterns.as_str());
                let o = words_of(outputs.as_str());
                proof {
                    assert(strings_view(p@) =~= words(patterns@));
                    assert(strings_view(o@) =~= words(outputs@));
                }
                let ghost before = out@;
                out.push((p, o));
                proof {
                    assert(input_view(out@) =~= input_view(before).push((strings_view(p@), strings_view(o@))));
                }
            },
            None => {
                proof {
                    lemma_displays_fail(lines@, i + 1, lines@.len() as int);
                }
                return None;
            },
        }
        i = i + 1;
    }
    Some(out)
}

} // verus!
