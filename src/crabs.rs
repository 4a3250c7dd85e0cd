use vstd::prelude::*;

use crate::text::{parse_list_i64, piece_values_i64, pieces};
use crate::tools::min_max;

verus! {

pub open spec fn distance(a: int, b: int) -> int {
    if a >= b {
        a - b
    } else {
        b - a
    }
}

/// The fuel that moving a crab `d` steps costs when each step costs one more
/// than the step before.
pub open spec fn triangle(d: int) -> int {
    d * (d + 1) / 2
}

/// The fuel for the first `n` crabs to reach `level`, each step costing one
/// (or, with `growing`, one more than the step before).
pub open spec fn fuel(positions: Seq<i64>, level: int, n: int, growing: bool) -> int
    decreases n,
{
    if n <= 0 {
        0
    } else {
        fuel(positions, level, n - 1, growing) + if growing {
            triangle(distance(level, positions[n - 1] as int))
        } else {
            distance(level, positions[n - 1] as int)
        }
    }
}

/// `level` lies between the least and the greatest position.
pub open spec fn in_span(positions: Seq<i64>, level: int) -> bool {
    (exists|i: int| 0 <= i < positions.len() && positions[i] <= level) && (exists|j: int|
        0 <= j < positions.len() && level <= positions[j])
}

/// `r` is the least fuel over all levels between the least and the greatest
/// position.
pub open spec fn is_least_fuel(positions: Seq<i64>, growing: bool, r: int) -> bool {
    &&& exists|level: int|
        in_span(positions, level) && r == fuel(positions, level, positions.len() as int, growing)
    &&& forall|level: int|
        in_span(positions, level) ==> r <= #[trigger] fuel(
            positions,
            level,
            positions.len() as int,
            growing,
        )
}

pub open spec fn crab_input(positions: Seq<i64>) -> bool {
    &&& 2 <= positions.len() <= 1_000_000
    &&& forall|i: int| 0 <= i < positions.len() ==> -1_000_000 <= #[trigger] positions[i] <= 1_000_000
}

proof fn lemma_fuel_bounds(positions: Seq<i64>, level: int, n: int, growing: bool)
    requires
        crab_input(positions),
        0 <= n <= positions.len(),
        -1_000_000 <= level <= 1_000_000,
    ensures
        0 <= fuel(positions, level, n, growing) <= n * 2_000_001_000_000,
    decreases n,
{
    if n > 0 {
        lemma_fuel_bounds(positions, level, n - 1, growing);
        let d = distance(level, positions[n - 1] as int);
        assert(0 <= d <= 2_000_000);
        assert(0 <= triangle(d) <= 2_000_001_000_000) by (nonlinear_arith)
            requires
                0 <= d <= 2_000_000,
                triangle(d) == d * (d + 1) / 2,
        ;
        assert((n - 1) * 2_000_001_000_000 + 2_000_001_000_000 == n * 2_000_001_000_000)
            by (nonlinear_arith);
    }
}

/// The fuel for all crabs to reach `level`.
fn fuel_to(positions: &[i64], level: i64, growing: bool) -> (r: i64)
    requires
        crab_input(positions@),
        -1_000_000 <= level <= 1_000_000,
    ensures
        r == fuel(positions@, level as int, positions@.len() as int, growing),
{
    let mut sum: i64 = 0;
    let mut i: usize = 0;
    while i < positions.len()
        invariant
            i <= positions@.len(),
            crab_input(positions@),
            -1_000_000 <= level <= 1_000_000,
            sum == fuel(positions@, level as int, i as int, growing),
        decreases positions@.len() - i,
    {
        proof {
            lemma_fuel_bounds(positions@, level as int, i + 1, growing);
            assert((i + 1) * 2_000_001_000_000 <= 1_000_000 * 2_000_001_000_000) by (nonlinear_arith)
                requires
                    i + 1 <= 1_000_000,
            ;
        }
        let p = positions[i];
        let d = if level >= p {
            level - p
        } else {
            p - level
        };
        if growing {
            proof {
                assert(0 <= d * (d + 1) <= 4_000_002_000_000) by (nonlinear_arith)
                    requires
                        0 <= d <= 2_000_000,
                ;
            }
            sum = sum + d * (d + 1) / 2;
        } else {
            sum = sum + d;
        }
        i = i + 1;
    }
    sum
}

/// The least fuel over all levels from the least to the greatest position.
fn least_fuel(positions: &[i64], growing: bool) -> (r: i64)
    requires
        crab_input(positions@),
    ensures
        is_least_fuel(positions@, growing, r as int),
{
    let (lo, hi) = min_max(positions).unwrap();
    let ghost lo_i = choose|i: int| 0 <= i < positions@.len() && positions@[i] == lo;
    let ghost hi_i = choose|i: int| 0 <= i < positions@.len() && positions@[i] == hi;
    let mut best = fuel_to(positions, lo, growing);
    let ghost best_level: int = lo as int;
    let mut level = lo;
    assert(in_span(positions@, lo as int)) by {
        assert(positions@[lo_i] <= lo && lo <= positions@[hi_i]);
    }
    while level < hi
        invariant
            crab_input(positions@),
            lo <= level <= hi,
            0 <= lo_i < positions@.len(),
            0 <= hi_i < positions@.len(),
            positions@[lo_i] == lo,
            positions@[hi_i] == hi,
            forall|i: int| 0 <= i < positions@.len() ==> lo <= #[trigger] positions@[i] <= hi,
            in_span(positions@, best_level),
            best == fuel(positions@, best_level, positions@.len() as int, growing),
            forall|l: int|
                lo <= l <= level ==> best <= #[trigger] fuel(
                    positions@,
                    l,
                    positions@.len() as int,
                    growing,
                ),
        decreases hi - level,
    {
        level = level + 1;
        let f = fuel_to(positions, level, growing);
        if f < best {
            best = f;
            proof {
                best_level = level as int;
                assert(positions@[lo_i] <= level && level <= positions@[hi_i]);
            }
        }
    }
    proof {
        assert forall|l: int| in_span(positions@, l) implies best <= #[trigger] fuel(
            positions@,
            l,
            positions@.len() as int,
            growing,
        ) by {
            let i = choose|i: int| 0 <= i < positions@.len() && positions@[i] <= l;
            let j = choose|j: int| 0 <= j < positions@.len() && l <= positions@[j];
            assert(lo <= positions@[i]);
            assert(positions@[j] <= hi);
        }
    }
    best
}

/// The least fuel for all crabs to line up, each step costing one.
pub fn part1(positions: &[i64]) -> (r: i64)
    requires
        crab_input(positions@),
    ensures
        is_least_fuel(positions@, false, r as int),
{
    least_fuel(positions, false)
}

/// The least fuel for all crabs to line up, each step costing one more than
/// the step before.
pub fn part2(positions: &[i64]) -> (r: i64)
    requires
        crab_input(positions@),
    ensures
        is_least_fuel(positions@, true, r as int),
{
    least_fuel(positions, true)
}

/// The positions of the crabs, written as decimal numbers between commas;
/// `None` where a piece is no number.
pub fn read_input(line: &str) -> (r: Option<Vec<i64>>)
    ensures
        match r {
            Some(v) => piece_values_i64(pieces(line@, ','), pieces(line@, ',').len() as int) == Some(v@),
            None => piece_values_i64(pieces(line@, ','), pieces(line@, ',').len() as int) is None,
        },
{
    parse_list_i64(line, ',')
}

} // verus!
