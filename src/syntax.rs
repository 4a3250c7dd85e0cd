use vstd::prelude::*;

use crate::tools::sorted_u64;

verus! {

pub open spec fn is_opener(c: char) -> bool {
    c == '(' || c == '[' || c == '{' || c == '<'
}

/// `close` is the bracket that closes `open`.
pub open spec fn closes(open: char, close: char) -> bool {
    (open == '(' && close == ')') || (open == '[' && close == ']') || (open == '{' && close == '}')
        || (open == '<' && close == '>')
}

/// The syntax error score of an unexpected character.
pub open spec fn error_score(c: char) -> int {
    if c == ')' {
        3
    } else if c == ']' {
        57
    } else if c == '}' {
        1197
    } else if c == '>' {
        25137
    } else {
        0
    }
}

/// The brackets still open after the first `n` characters of a line, the
/// summed error score of the unexpected characters among them, and whether
/// there was one. A character that is no opening bracket closes the last
/// open one, if any; where it does not match, its error score counts.
pub open spec fn scan(line: Seq<char>, n: int) -> (Seq<char>, int, bool)
    decreases n,
{
    if n <= 0 || n > line.len() {
        (seq![], 0, false)
    } else {
        let (stack, total, corrupted) = scan(line, n - 1);
        let ch = line[n - 1];
        if is_opener(ch) {
            (stack.push(ch), total, corrupted)
        } else if stack.len() == 0 {
            (stack, total, corrupted)
        } else if closes(stack.last(), ch) {
            (stack.drop_last(), total, corrupted)
        } else {
            (stack.drop_last(), total + error_score(ch), true)
        }
    }
}

pub open spec fn line_scan(line: Seq<char>) -> (Seq<char>, int, bool) {
    scan(line, line.len() as int)
}

pub open spec fn opener_value(c: char) -> int {
    if c == '(' {
        1
    } else if c == '[' {
        2
    } else if c == '{' {
        3
    } else {
        4
    }
}

/// The score of closing the open brackets `stack`, innermost (last) first:
/// each closing multiplies the score by 5 and adds the bracket's value.
pub open spec fn completion_score(stack: Seq<char>) -> int
    decreases stack.len(),
{
    if stack.len() == 0 {
        0
    } else {
        5 * completion_score(stack.drop_first()) + opener_value(stack[0])
    }
}

/// The summed error scores of the first `k` lines.
pub open spec fn error_total(lines: Seq<String>, k: int) -> int
    decreases k,
{
    if k <= 0 || k > lines.len() {
        0
    } else {
        error_total(lines, k - 1) + line_scan(lines[k - 1]@).1
    }
}

/// The completion scores of the first `k` lines that have no unexpected
/// character, in order.
pub open spec fn completion_scores(lines: Seq<String>, k: int) -> Seq<u64>
    decreases k,
{
    if k <= 0 || k > lines.len() {
        seq![]
    } else if line_scan(lines[k - 1]@).2 {
        completion_scores(lines, k - 1)
    } else {
        completion_scores(lines, k - 1).push(completion_score(line_scan(lines[k - 1]@).0) as u64)
    }
}

/// The error score of a character.
pub fn score(ch: char) -> (r: i32)
    ensures
        r == error_score(ch),
{
    match ch {
        ')' => 3,
        ']' => 57,
        '}' => 1197,
        '>' => 25137,
        _ => 0,
    }
}

/// Whether `ch2` closes `ch1`, and the error score of `ch2`.
pub fn match_and_score(ch1: char, ch2: char) -> (r: (bool, i32))
    ensures
        r.0 == closes(ch1, ch2),
        r.1 == error_score(ch2),
{
    (
        if ch1 == '(' {
            ch2 == ')'
        } else if ch1 == '[' {
            ch2 == ']'
        } else if ch1 == '{' {
            ch2 == '}'
        } else if ch1 == '<' {
            ch2 == '>'
        } else {
            false
        },
        score(ch2),
    )
}

proof fn lemma_completion_score_nonneg(stack: Seq<char>)
    ensures
        completion_score(stack) >= 0,
    decreases stack.len(),
{
    if stack.len() > 0 {
        lemma_completion_score_nonneg(stack.drop_first());
    }
}

proof fn lemma_completion_score_grows(stack: Seq<char>, i: int)
    requires
        0 <= i <= stack.len(),
    ensures
        0 <= completion_score(stack.subrange(i, stack.len() as int)) <= completion_score(stack),
    decreases i,
{
    lemma_completion_score_nonneg(stack.subrange(i, stack.len() as int));
    if i > 0 {
        lemma_completion_score_grows(stack, i - 1);
        let s = stack.subrange(i - 1, stack.len() as int);
        assert(s.drop_first() =~= stack.subrange(i, stack.len() as int));
    } else {
        assert(stack.subrange(0, stack.len() as int) =~= stack);
    }
}

/// The completion score of the open brackets `stack`.
pub fn score_stack(stack: &[char]) -> (r: Option<i64>)
    requires
        forall|i: int| 0 <= i < stack@.len() ==> is_opener(#[trigger] stack@[i]),
    ensures
        match r {
            Some(v) => v == completion_score(stack@),
            None => completion_score(stack@) > i64::MAX,
        },
{
    let n = stack.len();
    let mut acc: i64 = 0;
    let mut i: usize = n;
    assert(stack@.subrange(n as int, n as int).len() == 0);
    while i > 0
        invariant
            i <= n,
            n == stack@.len(),
            forall|j: int| 0 <= j < stack@.len() ==> is_opener(#[trigger] stack@[j]),
            acc == completion_score(stack@.subrange(i as int, n as int)),
        decreases i,
    {
        proof {
            lemma_completion_score_grows(stack@, i - 1);
            lemma_completion_score_grows(stack@, i as int);
            let s = stack@.subrange(i - 1, n as int);
            assert(s.drop_first() =~= stack@.subrange(i as int, n as int));
        }
        let ch = stack[i - 1];
        let v: i64 = if ch == '(' {
            1
        } else if ch == '[' {
            2
        } else if ch == '{' {
            3
        } else {
            4
        };
        match acc.checked_mul(5) {
            Some(a5) => match a5.checked_add(v) {
                Some(a) => {
                    acc = a;
                },
                None => {
                    return None;
                },
            },
            None => {
                return None;
            },
        }
        i = i - 1;
    }
    assert(stack@.subrange(0, n as int) =~= stack@);
    Some(acc)
}

proof fn lemma_scan_total_grows(line: Seq<char>, k: int, n: int)
    requires
        0 <= k <= n <= line.len(),
    ensures
        0 <= scan(line, k).1 <= scan(line, n).1,
    decreases n,
{
    if k < n {
        lemma_scan_total_grows(line, k, n - 1);
    } else if n > 0 {
        lemma_scan_total_grows(line, n - 1, n - 1);
    }
}

proof fn lemma_scan_opens(line: Seq<char>, n: int)
    requires
        0 <= n <= line.len(),
    ensures
        forall|i: int| 0 <= i < scan(line, n).0.len() ==> is_opener(#[trigger] scan(line, n).0[i]),
    decreases n,
{
    if n > 0 {
        lemma_scan_opens(line, n - 1);
        let st = scan(line, n - 1).0;
        let ch = line[n - 1];
        assert forall|i: int| 0 <= i < scan(line, n).0.len() implies is_opener(
            #[trigger] scan(line, n).0[i],
        ) by {
            if is_opener(ch) {
                assert(scan(line, n).0 == st.push(ch));
                if i < st.len() {
                    assert(is_opener(st[i]));
                }
            } else if st.len() > 0 {
                assert(scan(line, n).0 == st.drop_last());
                assert(is_opener(st[i]));
            }
        }
    }
}

/// Runs `scan` over a whole line; the error total is `None` where it leaves
/// `i32`.
fn scan_line(line: &str) -> (r: (Vec<char>, Option<i32>, bool))
    ensures
        r.0@ == line_scan(line@).0,
        match r.1 {
            Some(t) => t == line_scan(line@).1,
            None => line_scan(line@).1 > i32::MAX,
        },
        r.2 == line_scan(line@).2,
{
    let n = line.unicode_len();
    let mut stack: Vec<char> = Vec::new();
    let mut total: i32 = 0;
    let mut overflow = false;
    let mut corrupted = false;
    let mut i: usize = 0;
    while i < n
        invariant
            i <= n,
            n == line@.len(),
            stack@ == scan(line@, i as int).0,
            corrupted == scan(line@, i as int).2,
            !overflow ==> total == scan(line@, i as int).1,
            overflow ==> scan(line@, i as int).1 > i32::MAX,
        decreases n - i,
    {
        proof {
            lemma_scan_total_grows(line@, i as int, i + 1);
        }
        let ch = line.get_char(i);
        if ch == '(' || ch == '[' || ch == '{' || ch == '<' {
            stack.push(ch);
        } else {
            match stack.pop() {
                Some(prev) => {
                    let (matched, s) = match_and_score(prev, ch);
                    if !matched {
                        if !overflow {
                            match total.checked_add(s) {
                                Some(t) => {
                                    total = t;
                                },
                                None => {
                                    overflow = true;
                                },
                            }
                        }
                        corrupted = true;
                    }
                },
                None => {},
            }
        }
        i = i + 1;
    }
    (stack, if overflow {
        None
    } else {
        Some(total)
    }, corrupted)
}

proof fn lemma_error_total_grows(lines: Seq<String>, k: int, n: int)
    requires
        0 <= k <= n <= lines.len(),
    ensures
        0 <= error_total(lines, k) <= error_total(lines, n),
    decreases n,
{
    if n > 0 {
        if k < n {
            lemma_error_total_grows(lines, k, n - 1);
        } else {
            lemma_error_total_grows(lines, n - 1, n - 1);
        }
        lemma_scan_total_grows(lines[n - 1]@, 0, lines[n - 1]@.len() as int);
    }
}

/// The total syntax error score of all lines; `None` where it leaves `i32`.
pub fn part1(input: &[String]) -> (r: Option<i32>)
    ensures
        match r {
            Some(v) => v == error_total(input@, input@.len() as int),
            None => error_total(input@, input@.len() as int) > i32::MAX,
        },
{
    let mut acc: i32 = 0;
    let mut i: usize = 0;
    while i < input.len()
        invariant
            i <= input@.len(),
            acc == error_total(input@, i as int),
        decreases input@.len() - i,
    {
        proof {
            lemma_error_total_grows(input@, i + 1, input@.len() as int);
            lemma_error_total_grows(input@, i as int, i + 1);
        }
        let (_, line_total, _) = scan_line(input[i].as_str());
        match line_total {
            Some(t) => match acc.checked_add(t) {
                Some(a) => {
                    acc = a;
                },
                None => {
                    return None;
                },
            },
            None => {
                return None;
            },
        }
        i = i + 1;
    }
    Some(acc)
}

/// The completion score of every line without an unexpected character fits
/// `i64`.
pub open spec fn scores_fit(lines: Seq<String>) -> bool {
    forall|i: int|
        0 <= i < lines.len() && !(#[trigger] line_scan(lines[i]@)).2 ==> completion_score(
            line_scan(lines[i]@).0,
        ) <= i64::MAX
}

/// The middle completion score, in ascending order, of the lines without an
/// unexpected character; `None` where there is no such line, or one of their
/// scores leaves `i64`.
pub fn part2(input: &[String]) -> (r: Option<i64>)
    ensures
        ({
            let scores = completion_scores(input@, input@.len() as int);
            match r {
                None => scores.len() == 0 || !scores_fit(input@),
                Some(v) => scores_fit(input@) && scores.len() > 0 && exists|t: Seq<u64>|
                    #![trigger t.to_multiset()]
                    t.to_multiset() == scores.to_multiset()
                        && (forall|a: int, b: int| 0 <= a <= b < t.len() ==> t[a] <= t[b])
                        && v == t[scores.len() as int / 2],
            }
        }),
{
    let mut scores: Vec<u64> = Vec::new();
    let mut i: usize = 0;
    while i < input.len()
        invariant
            i <= input@.len(),
            forall|j: int|
                0 <= j < i && !(#[trigger] line_scan(input@[j]@)).2 ==> completion_score(
                    line_scan(input@[j]@).0,
                ) <= i64::MAX,
            scores@ == completion_scores(input@, i as int),
            forall|j: int| 0 <= j < scores@.len() ==> #[trigger] scores@[j] <= i64::MAX,
        decreases input@.len() - i,
    {
        let (stack, _, corrupted) = scan_line(input[i].as_str());
        if !corrupted {
            proof {
                lemma_scan_opens(input@[i as int]@, input@[i as int]@.len() as int);
            }
            match score_stack(stack.as_slice()) {
                Some(s) => {
                    proof {
                        lemma_completion_score_grows(stack@, 0);
                        assert(stack@.subrange(0, stack@.len() as int) =~= stack@);
                    }
                    scores.push(s as u64);
                    assert(scores@ =~= completion_scores(input@, i + 1));
                },
                None => {
                    return None;
                },
            }
        }
        i = i + 1;
    }
    if scores.len() == 0 {
        return None;
    }
    let sorted = sorted_u64(scores.as_slice());
    let v = sorted[scores.len() / 2];
    proof {
        assert(sorted@[(scores.len() / 2) as int] == v);
        vstd::seq_lib::to_multiset_contains(sorted@, v);
        vstd::seq_lib::to_multiset_contains(scores@, v);
        assert(scores@.contains(v));
        assert(v <= i64::MAX);
    }
    Some(v as i64)
}

} // verus!
