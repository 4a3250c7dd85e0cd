use vstd::prelude::*;

verus! {

/// At least one report; all as long as the first, that length at most 15.
pub open spec fn is_report(d: Seq<String>) -> bool {
    &&& d.len() > 0
    &&& d[0]@.len() <= 15
    &&& forall|r: int| 0 <= r < d.len() ==> (#[trigger] d[r])@.len() == d[0]@.len()
}

/// How many of the reports with indices `rows[..n]` hold something other
/// than '0' in column `col`.
pub open spec fn ones(d: Seq<String>, rows: Seq<int>, col: int, n: int) -> int
    decreases n,
{
    if n <= 0 {
        0
    } else {
        ones(d, rows, col, n - 1) + if d[rows[n - 1]]@[col] == '0' {
            0int
        } else {
            1int
        }
    }
}

pub open spec fn all_rows(d: Seq<String>) -> Seq<int> {
    Seq::new(d.len(), |i: int| i)
}

/// The binary number whose first `k` digits are, for each column, 1 where
/// ones are the majority (or, without `most`, where they are not).
pub open spec fn rate(d: Seq<String>, k: int, most: bool) -> int
    decreases k,
{
    if k <= 0 {
        0
    } else {
        let o = ones(d, all_rows(d), k - 1, d.len() as int);
        let z = d.len() - o;
        rate(d, k - 1, most) * 2 + if (o > z) == most {
            1int
        } else {
            0int
        }
    }
}

proof fn lemma_rate_bound(d: Seq<String>, k: int, most: bool)
    requires
        0 <= k,
    ensures
        0 <= rate(d, k, most) < pow2(k),
    decreases k,
{
    if k > 0 {
        lemma_rate_bound(d, k - 1, most);
    }
}

pub open spec fn pow2(k: int) -> int
    decreases k,
{
    if k <= 0 {
        1
    } else {
        2 * pow2(k - 1)
    }
}

proof fn lemma_pow2_mono(a: int, b: int)
    requires
        0 <= a <= b,
    ensures
        1 <= pow2(a) <= pow2(b),
    decreases b,
{
    if a < b {
        lemma_pow2_mono(a, b - 1);
    } else if b > 0 {
        lemma_pow2_mono(a - 1, b - 1);
    }
}

proof fn lemma_pow2_15()
    ensures
        pow2(15) == 32768,
{
    reveal_with_fuel(pow2, 16);
}

/// Counts the reports among `rows` with a '0' and with anything else in
/// column `col`.
fn count_bits(d: &[String], rows: &Vec<usize>, col: usize) -> (r: (usize, usize))
    requires
        is_report(d@),
        col < d@[0]@.len(),
        forall|i: int| 0 <= i < rows@.len() ==> #[trigger] rows@[i] < d@.len(),
    ensures
        r.1 == ones(d@, rows@.map_values(|x: usize| x as int), col as int, rows@.len() as int),
        r.0 + r.1 == rows@.len(),
{
    let ghost rs = rows@.map_values(|x: usize| x as int);
    let mut zeros: usize = 0;
    let mut ones_count: usize = 0;
    let mut i: usize = 0;
    while i < rows.len()
        invariant
            i <= rows@.len(),
            is_report(d@),
            col < d@[0]@.len(),
            rs == rows@.map_values(|x: usize| x as int),
            forall|j: int| 0 <= j < rows@.len() ==> #[trigger] rows@[j] < d@.len(),
            ones_count == ones(d@, rs, col as int, i as int),
            zeros + ones_count == i,
        decreases rows@.len() - i,
    {
        let r = rows[i];
        assert(d@[r as int]@.len() == d@[0]@.len());
        if d[r].as_str().get_char(col) == '0' {
            zeros = zeros + 1;
        } else {
            ones_count = ones_count + 1;
        }
        i = i + 1;
    }
    (zeros, ones_count)
}

/// The power consumption: the gamma rate (majority bits) times the epsilon
/// rate (the other bits).
pub fn part1(diagnostics: &[String]) -> (r: u32)
    requires
        is_report(diagnostics@),
    ensures
        r == rate(diagnostics@, diagnostics@[0]@.len() as int, true) * rate(
            diagnostics@,
            diagnostics@[0]@.len() as int,
            false,
        ),
{
    let d = diagnostics;
    let width = d[0].as_str().unicode_len();
    let mut all: Vec<usize> = Vec::new();
    let mut k: usize = 0;
    while k < d.len()
        invariant
            k <= d@.len(),
            all@.len() == k,
            forall|j: int| 0 <= j < k ==> #[trigger] all@[j] == j,
        decreases d@.len() - k,
    {
        all.push(k);
        k = k + 1;
    }
    assert(all@.map_values(|x: usize| x as int) =~= all_rows(d@));
    let mut gamma: u32 = 0;
    let mut epsilon: u32 = 0;
    let mut col: usize = 0;
    proof {
        lemma_pow2_15();
    }
    while col < width
        invariant
            col <= width,
            width == d@[0]@.len(),
            is_report(d@),
            all@.map_values(|x: usize| x as int) == all_rows(d@),
            all@.len() == d@.len(),
            forall|j: int| 0 <= j < all@.len() ==> #[trigger] all@[j] == j,
            gamma == rate(d@, col as int, true),
            epsilon == rate(d@, col as int, false),
            pow2(15) == 32768,
        decreases width - col,
    {
        proof {
            lemma_rate_bound(d@, col as int, true);
            lemma_rate_bound(d@, col as int, false);
            lemma_pow2_mono(col as int, 14);
        }
        let (z, o) = count_bits(d, &all, col);
        gamma = gamma * 2;
        epsilon = epsilon * 2;
        if o > z {
            gamma = gamma + 1;
        } else {
            epsilon = epsilon + 1;
        }
        col = col + 1;
    }
    proof {
        lemma_rate_bound(d@, width as int, true);
        lemma_rate_bound(d@, width as int, false);
        lemma_pow2_mono(width as int, 15);
        assert(gamma * epsilon <= 32768 * 32768) by (nonlinear_arith)
            requires
                gamma < 32768,
                epsilon < 32768,
        ;
    }
    gamma * epsilon
}

pub open spec fn is_binary(d: Seq<String>) -> bool {
    forall|r: int, c: int|
        0 <= r < d.len() && 0 <= c < d[r]@.len() ==> #[trigger] d[r]@[c] == '0' || d[r]@[c] == '1'
}

/// The indices among `rows[..n]` of the reports whose column `col` is '0'
/// (or, without `zero`, is not), in order.
pub open spec fn keep(d: Seq<String>, rows: Seq<int>, col: int, zero: bool, n: int) -> Seq<int>
    decreases n,
{
    if n <= 0 {
        seq![]
    } else if (d[rows[n - 1]]@[col] == '0') == zero {
        keep(d, rows, col, zero, n - 1).push(rows[n - 1])
    } else {
        keep(d, rows, col, zero, n - 1)
    }
}

/// The reports left after filtering by the first `k` columns: while more
/// than one is left, keep those with the most common bit of the column (1 on
/// a tie), or without `most` the least common one (0 on a tie).
pub open spec fn rating_rows(d: Seq<String>, k: int, most: bool) -> Seq<int>
    decreases k,
{
    if k <= 0 {
        all_rows(d)
    } else {
        let rows = rating_rows(d, k - 1, most);
        if rows.len() > 1 {
            let o = ones(d, rows, k - 1, rows.len() as int);
            let z = rows.len() - o;
            let keep_one = if most {
                o >= z
            } else {
                z > o
            };
            keep(d, rows, k - 1, !keep_one, rows.len() as int)
        } else {
            rows
        }
    }
}

/// The number written in binary by the first `k` characters of `s`.
pub open spec fn binary_value(s: Seq<char>, k: int) -> int
    decreases k,
{
    if k <= 0 {
        0
    } else {
        binary_value(s, k - 1) * 2 + if s[k - 1] == '1' {
            1int
        } else {
            0int
        }
    }
}

proof fn lemma_binary_value_bound(s: Seq<char>, k: int)
    requires
        0 <= k,
    ensures
        0 <= binary_value(s, k) < pow2(k),
    decreases k,
{
    if k > 0 {
        lemma_binary_value_bound(s, k - 1);
    }
}

/// The rating left after filtering, as `rating_rows` does, or `None` where no
/// report is left.
pub open spec fn rating(d: Seq<String>, most: bool) -> Option<int> {
    let rows = rating_rows(d, d[0]@.len() as int, most);
    if rows.len() == 0 {
        None
    } else {
        Some(binary_value(d[rows[0]]@, d[0]@.len() as int))
    }
}

fn filter_rows(d: &[String], rows: &Vec<usize>, col: usize, zero: bool) -> (r: Vec<usize>)
    requires
        is_report(d@),
        col < d@[0]@.len(),
        forall|i: int| 0 <= i < rows@.len() ==> #[trigger] rows@[i] < d@.len(),
    ensures
        r@.map_values(|x: usize| x as int) == keep(
            d@,
            rows@.map_values(|x: usize| x as int),
            col as int,
            zero,
            rows@.len() as int,
        ),
        forall|i: int| 0 <= i < r@.len() ==> #[trigger] r@[i] < d@.len(),
{
    let ghost rs = rows@.map_values(|x: usize| x as int);
    let mut kept: Vec<usize> = Vec::new();
    let mut i: usize = 0;
    while i < rows.len()
        invariant
            i <= rows@.len(),
            is_report(d@),
            col < d@[0]@.len(),
            rs == rows@.map_values(|x: usize| x as int),
            forall|j: int| 0 <= j < rows@.len() ==> #[trigger] rows@[j] < d@.len(),
            forall|j: int| 0 <= j < kept@.len() ==> #[trigger] kept@[j] < d@.len(),
            kept@.map_values(|x: usize| x as int) == keep(d@, rs, col as int, zero, i as int),
        decreases rows@.len() - i,
    {
        let r = rows[i];
        assert(d@[r as int]@.len() == d@[0]@.len());
        if (d[r].as_str().get_char(col) == '0') == zero {
            kept.push(r);
            assert(kept@.map_values(|x: usize| x as int) =~= keep(
                d@,
                rs,
                col as int,
                zero,
                i + 1,
            ));
        }
        i = i + 1;
    }
    kept
}

/// Filters the reports column by column as `rating_rows` says and reads the
/// one left.
fn find_rating(d: &[String], most: bool) -> (r: Option<u32>)
    requires
        is_report(d@),
        is_binary(d@),
    ensures
        match r {
            Some(v) => rating(d@, most) == Some(v as int),
            None => rating(d@, most) is None,
        },
        r matches Some(v) ==> v < 32768,
{
    let width = d[0].as_str().unicode_len();
    let mut rows: Vec<usize> = Vec::new();
    let mut k: usize = 0;
    while k < d.len()
        invariant
            k <= d@.len(),
            rows@.len() == k,
            forall|j: int| 0 <= j < k ==> #[trigger] rows@[j] == j,
        decreases d@.len() - k,
    {
        rows.push(k);
        k = k + 1;
    }
    assert(rows@.map_values(|x: usize| x as int) =~= all_rows(d@));
    let mut col: usize = 0;
    while col < width
        invariant
            col <= width,
            width == d@[0]@.len(),
            is_report(d@),
            forall|j: int| 0 <= j < rows@.len() ==> #[trigger] rows@[j] < d@.len(),
            rows@.map_values(|x: usize| x as int) == rating_rows(d@, col as int, most),
        decreases width - col,
    {
        if rows.len() > 1 {
            let (z, o) = count_bits(d, &rows, col);
            let keep_one = if most {
                o >= z
            } else {
                z > o
            };
            rows = filter_rows(d, &rows, col, !keep_one);
        }
        col = col + 1;
    }
    if rows.len() == 0 {
        return None;
    }
    let s = d[rows[0]].as_str();
    assert(s@.len() == width);
    let mut v: u32 = 0;
    let mut i: usize = 0;
    proof {
        lemma_pow2_15();
    }
    while i < width
        invariant
            i <= width <= 15,
            s@.len() == width,
            v == binary_value(s@, i as int),
            pow2(15) == 32768,
        decreases width - i,
    {
        proof {
            lemma_binary_value_bound(s@, i as int);
            lemma_pow2_mono(i as int, 14);
        }
        v = v * 2 + if s.get_char(i) == '1' {
            1
        } else {
            0
        };
        i = i + 1;
    }
    proof {
        lemma_binary_value_bound(s@, width as int);
        lemma_pow2_mono(width as int, 15);
    }
    Some(v)
}

/// The life support rating: the oxygen generator rating times the CO2
/// scrubber rating; `None` where filtering leaves no report.
pub fn part2(diagnostics: &[String]) -> (r: Option<u32>)
    requires
        is_report(diagnostics@),
        is_binary(diagnostics@),
    ensures
        match (rating(diagnostics@, true), rating(diagnostics@, false)) {
            (Some(a), Some(b)) => r == Some((a * b) as u32),
            _ => r is None,
        },
{
    let oxygen = find_rating(diagnostics, true);
    let co2 = find_rating(diagnostics, false);
    match (oxygen, co2) {
        (Some(a), Some(b)) => {
            assert(a * b <= 32768 * 32768) by (nonlinear_arith)
                requires
                    a < 32768,
                    b < 32768,
            ;
            Some(a * b)
        },
        _ => None,
    }
}

} // verus!
