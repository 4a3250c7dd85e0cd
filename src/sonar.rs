use vstd::prelude::*;

use crate::text::{chars_of, decimal, parse_i32};
use crate::tools::pairs;

verus! {

/// How many of the first `n` depths are deeper than the one before.
pub open spec fn count_increases(s: Seq<i32>, n: int) -> int
    decreases n,
{
    if n <= 1 || n > s.len() {
        0
    } else {
        count_increases(s, n - 1) + if s[n - 1] > s[n - 2] {
            1int
        } else {
            0int
        }
    }
}

/// How many windows of three depths, among those starting before `n`, have a
/// larger sum than the window one earlier.
pub open spec fn count_window_increases(s: Seq<i32>, n: int) -> int
    decreases n,
{
    if n <= 0 || n + 3 > s.len() {
        0
    } else {
        count_window_increases(s, n - 1) + if s[n] + s[n + 1] + s[n + 2] > s[n - 1] + s[n]
            + s[n + 1] {
            1int
        } else {
            0int
        }
    }
}

proof fn lemma_count_bounds(s: Seq<i32>, n: int)
    requires
        0 <= n <= s.len(),
    ensures
        0 <= count_increases(s, n) <= n,
    decreases n,
{
    if n > 1 {
        lemma_count_bounds(s, n - 1);
    }
}

/// The number of measurements deeper than the previous one.
pub fn part1(numbers: &[i32]) -> (r: i32)
    requires
        numbers@.len() <= i32::MAX,
    ensures
        r == count_increases(numbers@, numbers@.len() as int),
{
    let windows = pairs(numbers);
    let mut sum: i32 = 0;
    let mut i: usize = 0;
    while i < windows.len()
        invariant
            i <= windows@.len(),
            numbers@.len() <= i32::MAX,
            windows@.len() == 0 ==> numbers@.len() <= 1,
            windows@.len() > 0 ==> windows@.len() == numbers@.len() - 1,
            forall|k: int|
                0 <= k < windows@.len() ==> #[trigger] windows@[k] == (numbers@[k], numbers@[k + 1]),
            sum == count_increases(numbers@, i + 1),
        decreases windows@.len() - i,
    {
        proof {
            lemma_count_bounds(numbers@, i + 1);
        }
        let (a, b) = windows[i];
        if b > a {
            sum = sum + 1;
        }
        i = i + 1;
    }
    if numbers.len() > 0 {
        assert(i + 1 == numbers@.len());
    }
    sum
}

/// The number of sliding windows of three measurements whose sum is larger
/// than that of the window before.
pub fn part2(numbers: &[i32]) -> (r: i32)
    requires
        numbers@.len() <= i32::MAX,
    ensures
        r == count_window_increases(numbers@, numbers@.len() as int - 3),
{
    let n = numbers.len();
    if n < 4 {
        return 0;
    }
    let mut sum: i32 = 0;
    let mut i: usize = 1;
    while i + 3 <= n
        invariant
            1 <= i <= n - 2,
            n == numbers@.len(),
            n <= i32::MAX,
            sum == count_window_increases(numbers@, i - 1),
            0 <= sum < i,
        decreases n - i,
    {
        let later = numbers[i] as i64 + numbers[i + 1] as i64 + numbers[i + 2] as i64;
        let earlier = numbers[i - 1] as i64 + numbers[i] as i64 + numbers[i + 1] as i64;
        if later > earlier {
            sum = sum + 1;
        }
        i = i + 1;
    }
    sum
}

/// The depths written on the first `k` lines, skipping lines that hold no
/// decimal `i32`.
pub open spec fn depths_of(lines: Seq<String>, k: int) -> Seq<i32>
    decreases k,
{
    if k <= 0 {
        seq![]
    } else {
        match decimal(lines[k - 1]@) {
            Some(x) => if i32::MIN <= x <= i32::MAX {
                depths_of(lines, k - 1).push(x as i32)
            } else {
                depths_of(lines, k - 1)
            },
            None => depths_of(lines, k - 1),
        }
    }
}

/// The depth on each line that holds one.
pub fn read_numbers(lines: &[String]) -> (r: Vec<i32>)
    ensures
        r@ == depths_of(lines@, lines@.len() as int),
{
    let mut out: Vec<i32> = Vec::new();
    let mut i: usize = 0;
    while i < lines.len()
        invariant
            i <= lines@.len(),
            out@ == depths_of(lines@, i as int),
        decreases lines@.len() - i,
    {
        let chars = chars_of(lines[i].as_str());
        match parse_i32(chars.as_slice()) {
            Some(v) => {
                out.push(v);
            },
            None => {},
        }
        i = i + 1;
    }
    out
}

} // verus!
