use vstd::prelude::*;

use vstd::arithmetic::div_mod::lemma_fundamental_div_mod_converse;

verus! {

/// A square grid of energy levels.
pub open spec fn is_square(g: Seq<Vec<u8>>) -> bool {
    &&& 0 < g.len() <= 1000
    &&& forall|r: int| 0 <= r < g.len() ==> #[trigger] g[r]@.len() == g.len()
}

/// The cells `(a, b)` and `(x, y)` touch, diagonals included.
pub open spec fn adjacent(x: int, y: int, a: int, b: int) -> bool {
    -1 <= a - x <= 1 && -1 <= b - y <= 1 && !(a == x && b == y)
}

pub open spec fn count_true(v: Seq<bool>, n: int) -> int
    decreases n,
{
    if n <= 0 {
        0
    } else {
        count_true(v, n - 1) + if v[n - 1] {
            1int
        } else {
            0int
        }
    }
}

proof fn lemma_count_true(v: Seq<bool>, n: int)
    requires
        0 <= n <= v.len(),
    ensures
        0 <= count_true(v, n) <= n,
        count_true(v, n) == n <==> forall|i: int| 0 <= i < n ==> #[trigger] v[i],
    decreases n,
{
    if n > 0 {
        lemma_count_true(v, n - 1);
    }
}

proof fn lemma_count_true_set(v: Seq<bool>, i: int, n: int)
    requires
        0 <= i < v.len(),
        0 <= n <= v.len(),
        !v[i],
    ensures
        count_true(v.update(i, true), n) == count_true(v, n) + if i < n {
            1int
        } else {
            0int
        },
    decreases n,
{
    if n > 0 {
        lemma_count_true_set(v, i, n - 1);
    }
}

proof fn lemma_cell_index(a: int, b: int, n: int)
    requires
        0 <= a < n,
        0 <= b < n,
    ensures
        0 <= a * n + b < n * n,
        (a * n + b) / n == a,
        (a * n + b) % n == b,
{
    assert(0 <= a * n + b < n * n) by (nonlinear_arith)
        requires
            0 <= a < n,
            0 <= b < n,
    ;
    lemma_fundamental_div_mod_converse(a * n + b, n, a, b);
}

pub open spec fn b_lt(a: int, b: int) -> bool {
    a < b
}

/// The energy of a cell after a neighbour flashes: one more, but a cell
/// already past 9 stays as it is, as it flashes either way.
pub open spec fn bumped(v: u8) -> u8 {
    if v <= 9 {
        (v + 1) as u8
    } else {
        v
    }
}

/// Flashes cell `(x, y)` of the `n` by `n` grid `cells` (row by row): it is
/// marked as flashed and drops to 0, and each neighbour that has not flashed
/// gains one energy.
fn flash_cell(flashed: &mut Vec<bool>, cells: &mut Vec<u8>, n: usize, x: usize, y: usize)
    requires
        0 < n <= 1000,
        x < n,
        y < n,
        old(cells)@.len() == n * n,
        old(flashed)@.len() == n * n,
        !old(flashed)@[x * n + y],
    ensures
        final(flashed)@ == old(flashed)@.update(x * n + y, true),
        final(cells)@.len() == n * n,
        forall|a: int, b: int|
            0 <= a < n && 0 <= b < n ==> #[trigger] final(cells)@[a * n + b] == if a == x && b == y {
                0
            } else if adjacent(x as int, y as int, a, b) && !old(flashed)@[a * n + b] {
                bumped(old(cells)@[a * n + b])
            } else {
                old(cells)@[a * n + b]
            },
{
    let ghost c0 = cells@;
    proof {
        lemma_cell_index(x as int, y as int, n as int);
        assert(n * n <= 1_000_000) by (nonlinear_arith)
            requires
                n <= 1000,
        ;
    }
    let k = x * n + y;
    flashed.set(k, true);
    cells.set(k, 0);
    proof {
        assert forall|p: int, q: int| 0 <= p < n && 0 <= q < n implies #[trigger] cells@[p * n + q]
            == if p == x && q == y {
            0
        } else {
            c0[p * n + q]
        } by {
            lemma_cell_index(p, q, n as int);
        }
    }
    let mut dx: usize = 0;
    while dx < 3
        invariant
            0 < n <= 1000,
            x < n,
            y < n,
            k == x * n + y,
            dx <= 3,
            cells@.len() == n * n,
            flashed@.len() == n * n,
            old(flashed)@.len() == n * n,
            flashed@ == old(flashed)@.update(k as int, true),
            forall|a: int, b: int|
                0 <= a < n && 0 <= b < n ==> #[trigger] cells@[a * n + b] == if a == x && b == y {
                    0
                } else if adjacent(x as int, y as int, a, b) && !old(flashed)@[a * n + b] && a
                    - x + 1 < dx {
                    bumped(c0[a * n + b])
                } else {
                    c0[a * n + b]
                },
        decreases 3 - dx,
    {
        let mut dy: usize = 0;
        while dy < 3
            invariant
                0 < n <= 1000,
                x < n,
                y < n,
                k == x * n + y,
                dx < 3,
                dy <= 3,
                cells@.len() == n * n,
                flashed@.len() == n * n,
                old(flashed)@.len() == n * n,
                flashed@ == old(flashed)@.update(k as int, true),
                forall|a: int, b: int|
                    0 <= a < n && 0 <= b < n ==> #[trigger] cells@[a * n + b] == if a == x && b
                        == y {
                        0
                    } else if adjacent(x as int, y as int, a, b) && !old(flashed)@[a * n + b] && (a
                        - x + 1 < dx || (a - x + 1 == dx && b - y + 1 < dy)) {
                        bumped(c0[a * n + b])
                    } else {
                        c0[a * n + b]
                    },
            decreases 3 - dy,
        {
            let ghost before = cells@;
            if x + dx >= 1 && x + dx - 1 < n && y + dy >= 1 && y + dy - 1 < n && !(dx == 1 && dy
                == 1) {
                let a = x + dx - 1;
                let b = y + dy - 1;
                proof {
                    lemma_cell_index(a as int, b as int, n as int);
                    assert(n * n <= 1_000_000) by (nonlinear_arith)
                        requires
                            n <= 1000,
                    ;
                }
                let j = a * n + b;
                if !flashed[j] {
                    let v = cells[j];
                    let nv = if v <= 9 {
                        v + 1
                    } else {
                        v
                    };
                    cells.set(j, nv);
                }
            }
            proof {
                assert forall|p: int, q: int| 0 <= p < n && 0 <= q < n implies #[trigger] cells@[p
                    * n + q] == if p == x && q == y {
                    0
                } else if adjacent(x as int, y as int, p, q) && !old(flashed)@[p * n + q] && (p
                    - x + 1 < dx || (p - x + 1 == dx && b_lt(q - y + 1, dy + 1))) {
                    bumped(c0[p * n + q])
                } else {
                    c0[p * n + q]
                } by {
                    lemma_cell_index(p, q, n as int);
                    lemma_cell_index(x as int, y as int, n as int);
                    if x + dx >= 1 && x + dx - 1 < n && y + dy >= 1 && y + dy - 1 < n {
                        let a = (x + dx - 1) as int;
                        let b = (y + dy - 1) as int;
                        lemma_cell_index(a, b, n as int);
                        if p * n + q == a * n + b {
                            assert(p == a && q == b);
                        } else {
                            assert(cells@[p * n + q] == before[p * n + q]);
                        }
                        if !(dx == 1 && dy == 1) {
                            assert(a * n + b != x * n + y);
                        }
                    } else {
                        assert(cells@[p * n + q] == before[p * n + q]);
                    }
                    assert(before[p * n + q] == if p == x && q == y {
                        0
                    } else if adjacent(x as int, y as int, p, q) && !old(flashed)@[p * n + q] && (p
                        - x + 1 < dx || (p - x + 1 == dx && q - y + 1 < dy)) {
                        bumped(c0[p * n + q])
                    } else {
                        c0[p * n + q]
                    });
                }
            }
            dy = dy + 1;
        }
        dx = dx + 1;
    }
}

/// Flashes cell `(x, y)` of the `n` by `n` grid `cells` (row by row) where
/// it lies in the grid and has not flashed yet, as `flash_cell` does, and
/// answers how many cells flashed: 1, or 0 where `(x, y)` lies outside the
/// grid or has flashed already, which leaves everything as it was.
pub fn flash(flashed: &mut Vec<bool>, cells: &mut Vec<u8>, n: usize, x: i32, y: i32) -> (r: i32)
    requires
        0 < n <= 1000,
        old(cells)@.len() == n * n,
        old(flashed)@.len() == n * n,
    ensures
        final(flashed)@.len() == n * n,
        final(cells)@.len() == n * n,
        r == count_true(final(flashed)@, n * n) - count_true(old(flashed)@, n * n),
        !(0 <= x < n && 0 <= y < n && !old(flashed)@[x * n + y]) ==> r == 0 && final(flashed)@
            == old(flashed)@ && final(cells)@ == old(cells)@,
        (0 <= x < n && 0 <= y < n && !old(flashed)@[x * n + y]) ==> r == 1 && final(flashed)@
            == old(flashed)@.update(x * n + y, true) && forall|a: int, b: int|
            0 <= a < n && 0 <= b < n ==> #[trigger] final(cells)@[a * n + b] == if a == x && b == y {
                0
            } else if adjacent(x as int, y as int, a, b) && !old(flashed)@[a * n + b] {
                bumped(old(cells)@[a * n + b])
            } else {
                old(cells)@[a * n + b]
            },
{
    if x < 0 || y < 0 || x as usize >= n || y as usize >= n {
        return 0;
    }
    let xu = x as usize;
    let yu = y as usize;
    proof {
        lemma_cell_index(x as int, y as int, n as int);
        assert(n * n <= 1_000_000) by (nonlinear_arith)
            requires
                n <= 1000,
        ;
    }
    if flashed[xu * n + yu] {
        return 0;
    }
    proof {
        lemma_count_true_set(flashed@, x * n + y, (n * n) as int);
    }
    flash_cell(flashed, cells, n, xu, yu);
    1
}

/// 1 where cell `(a, b)` of the `n` by `n` grid is marked in `f` and comes
/// before `th` in the order `d`, else 0.
pub open spec fn flashed_before(f: Seq<bool>, d: Seq<int>, n: int, a: int, b: int, th: int) -> int {
    if 0 <= a < n && 0 <= b < n && f[a * n + b] && d[a * n + b] < th {
        1
    } else {
        0
    }
}

/// How many of the up to eight neighbours of `(x, y)` are marked in `f` and
/// come before `th` in the order `d`.
pub open spec fn lit_before(f: Seq<bool>, d: Seq<int>, n: int, x: int, y: int, th: int) -> int {
    flashed_before(f, d, n, x - 1, y - 1, th) + flashed_before(f, d, n, x - 1, y, th)
        + flashed_before(f, d, n, x - 1, y + 1, th) + flashed_before(f, d, n, x, y - 1, th)
        + flashed_before(f, d, n, x, y + 1, th) + flashed_before(f, d, n, x + 1, y - 1, th)
        + flashed_before(f, d, n, x + 1, y, th) + flashed_before(f, d, n, x + 1, y + 1, th)
}

proof fn lemma_flashed_before_update(
    f: Seq<bool>,
    d: Seq<int>,
    n: int,
    x: int,
    y: int,
    t: int,
    a: int,
    b: int,
    th: int,
)
    requires
        0 < n,
        f.len() == n * n,
        d.len() == n * n,
        0 <= x < n,
        0 <= y < n,
    ensures
        flashed_before(f.update(x * n + y, true), d.update(x * n + y, t), n, a, b, th) == if a == x
            && b == y {
            if th > t {
                1int
            } else {
                0int
            }
        } else {
            flashed_before(f, d, n, a, b, th)
        },
{
    lemma_cell_index(x, y, n);
    if 0 <= a < n && 0 <= b < n {
        lemma_cell_index(a, b, n);
        if a * n + b == x * n + y {
            assert(a == x && b == y);
        }
    }
}

proof fn lemma_lit_before_update(
    f: Seq<bool>,
    d: Seq<int>,
    n: int,
    x: int,
    y: int,
    t: int,
    a: int,
    b: int,
    th: int,
)
    requires
        0 < n,
        f.len() == n * n,
        d.len() == n * n,
        0 <= x < n,
        0 <= y < n,
        !f[x * n + y],
    ensures
        lit_before(f.update(x * n + y, true), d.update(x * n + y, t), n, a, b, th) == lit_before(
            f,
            d,
            n,
            a,
            b,
            th,
        ) + if adjacent(x, y, a, b) && th > t {
            1int
        } else {
            0int
        },
{
    lemma_flashed_before_update(f, d, n, x, y, t, a - 1, b - 1, th);
    lemma_flashed_before_update(f, d, n, x, y, t, a - 1, b, th);
    lemma_flashed_before_update(f, d, n, x, y, t, a - 1, b + 1, th);
    lemma_flashed_before_update(f, d, n, x, y, t, a, b - 1, th);
    lemma_flashed_before_update(f, d, n, x, y, t, a, b + 1, th);
    lemma_flashed_before_update(f, d, n, x, y, t, a + 1, b - 1, th);
    lemma_flashed_before_update(f, d, n, x, y, t, a + 1, b, th);
    lemma_flashed_before_update(f, d, n, x, y, t, a + 1, b + 1, th);
}

proof fn lemma_flashed_before_all(f: Seq<bool>, d: Seq<int>, n: int, a: int, b: int, t: int)
    requires
        0 < n,
        f.len() == n * n,
        d.len() == n * n,
        forall|i: int| 0 <= i < n * n && #[trigger] f[i] ==> d[i] < t,
    ensures
        flashed_before(f, d, n, a, b, t) == flashed_at(f, n, a, b),
{
    if 0 <= a < n && 0 <= b < n {
        lemma_cell_index(a, b, n);
    }
}

/// Where every marked cell comes before `t`, counting the marked neighbours
/// before `t` counts all marked neighbours.
proof fn lemma_lit_before_all(f: Seq<bool>, d: Seq<int>, n: int, a: int, b: int, t: int)
    requires
        0 < n,
        f.len() == n * n,
        d.len() == n * n,
        forall|i: int| 0 <= i < n * n && #[trigger] f[i] ==> d[i] < t,
    ensures
        lit_before(f, d, n, a, b, t) == lit_neighbours(f, n, a, b),
{
    lemma_flashed_before_all(f, d, n, a - 1, b - 1, t);
    lemma_flashed_before_all(f, d, n, a - 1, b, t);
    lemma_flashed_before_all(f, d, n, a - 1, b + 1, t);
    lemma_flashed_before_all(f, d, n, a, b - 1, t);
    lemma_flashed_before_all(f, d, n, a, b + 1, t);
    lemma_flashed_before_all(f, d, n, a + 1, b - 1, t);
    lemma_flashed_before_all(f, d, n, a + 1, b, t);
    lemma_flashed_before_all(f, d, n, a + 1, b + 1, t);
}

/// 1 where cell `(a, b)` of the `n` by `n` grid is marked in `f`, else 0.
pub open spec fn flashed_at(f: Seq<bool>, n: int, a: int, b: int) -> int {
    if 0 <= a < n && 0 <= b < n && f[a * n + b] {
        1
    } else {
        0
    }
}

/// How many of the up to eight neighbours of `(x, y)` are marked in `f`.
pub open spec fn lit_neighbours(f: Seq<bool>, n: int, x: int, y: int) -> int {
    flashed_at(f, n, x - 1, y - 1) + flashed_at(f, n, x - 1, y) + flashed_at(f, n, x - 1, y + 1)
        + flashed_at(f, n, x, y - 1) + flashed_at(f, n, x, y + 1) + flashed_at(f, n, x + 1, y - 1)
        + flashed_at(f, n, x + 1, y) + flashed_at(f, n, x + 1, y + 1)
}

proof fn lemma_flashed_at_update(f: Seq<bool>, n: int, x: int, y: int, a: int, b: int)
    requires
        0 < n,
        f.len() == n * n,
        0 <= x < n,
        0 <= y < n,
    ensures
        flashed_at(f.update(x * n + y, true), n, a, b) == if a == x && b == y {
            1
        } else {
            flashed_at(f, n, a, b)
        },
{
    lemma_cell_index(x, y, n);
    if 0 <= a < n && 0 <= b < n {
        lemma_cell_index(a, b, n);
        if a * n + b == x * n + y {
            assert(a == x && b == y);
        }
    }
}

proof fn lemma_flashed_at_none(f: Seq<bool>, n: int, a: int, b: int)
    requires
        0 < n,
        f.len() == n * n,
        forall|i: int| 0 <= i < n * n ==> !#[trigger] f[i],
    ensures
        flashed_at(f, n, a, b) == 0,
{
    if 0 <= a < n && 0 <= b < n {
        lemma_cell_index(a, b, n);
    }
}

proof fn lemma_none_lit(f: Seq<bool>, n: int, a: int, b: int)
    requires
        0 < n,
        f.len() == n * n,
        forall|i: int| 0 <= i < n * n ==> !#[trigger] f[i],
    ensures
        lit_neighbours(f, n, a, b) == 0,
{
    lemma_flashed_at_none(f, n, a - 1, b - 1);
    lemma_flashed_at_none(f, n, a - 1, b);
    lemma_flashed_at_none(f, n, a - 1, b + 1);
    lemma_flashed_at_none(f, n, a, b - 1);
    lemma_flashed_at_none(f, n, a, b + 1);
    lemma_flashed_at_none(f, n, a + 1, b - 1);
    lemma_flashed_at_none(f, n, a + 1, b);
    lemma_flashed_at_none(f, n, a + 1, b + 1);
}

/// Marking `(x, y)` adds one lit neighbour to each cell next to it.
proof fn lemma_lit_neighbours_update(f: Seq<bool>, n: int, x: int, y: int, a: int, b: int)
    requires
        0 < n,
        f.len() == n * n,
        0 <= x < n,
        0 <= y < n,
        !f[x * n + y],
    ensures
        lit_neighbours(f.update(x * n + y, true), n, a, b) == lit_neighbours(f, n, a, b) + if adjacent(
            x,
            y,
            a,
            b,
        ) {
            1int
        } else {
            0int
        },
{
    lemma_flashed_at_update(f, n, x, y, a - 1, b - 1);
    lemma_flashed_at_update(f, n, x, y, a - 1, b);
    lemma_flashed_at_update(f, n, x, y, a - 1, b + 1);
    lemma_flashed_at_update(f, n, x, y, a, b - 1);
    lemma_flashed_at_update(f, n, x, y, a, b + 1);
    lemma_flashed_at_update(f, n, x, y, a + 1, b - 1);
    lemma_flashed_at_update(f, n, x, y, a + 1, b);
    lemma_flashed_at_update(f, n, x, y, a + 1, b + 1);
}

/// Every level of the grid is at most `top`.
pub open spec fn levels_at_most(g: Seq<Vec<u8>>, top: u8) -> bool {
    forall|a: int, b: int| 0 <= a < g.len() && 0 <= b < g[a]@.len() ==> #[trigger] g[a]@[b] <= top
}

/// The level of cell `(a, b)` (row by row in `cells`) agrees with its
/// starting level `c0` and the neighbours marked in `f`: a marked cell is at
/// 0 and its start plus its marked neighbours that come before it in the
/// order `d` reach 10; any other cell is at its start plus its marked
/// neighbours where that is at most 9, and past 9 otherwise.
pub open spec fn settled(c0: Seq<u8>, cells: Seq<u8>, f: Seq<bool>, d: Seq<int>, n: int, a: int, b: int) -> bool {
    let i = a * n + b;
    if f[i] {
        cells[i] == 0 && c0[i] + lit_before(f, d, n, a, b, d[i]) >= 10
    } else {
        if c0[i] + lit_neighbours(f, n, a, b) <= 9 {
            cells[i] == c0[i] + lit_neighbours(f, n, a, b)
        } else {
            cells[i] > 9
        }
    }
}

pub open spec fn all_settled(c0: Seq<u8>, cells: Seq<u8>, f: Seq<bool>, d: Seq<int>, n: int) -> bool {
    forall|a: int, b: int| 0 <= a < n && 0 <= b < n ==> #[trigger] settled(c0, cells, f, d, n, a, b)
}

/// `f` marks, row by row, the octopuses of the `n` by `n` grid `g` that
/// flashed: `r` holds how many and whether all did, and each of them is at 0.
pub open spec fn is_flash_record(f: Seq<bool>, n: int, r: (i32, bool), g: Seq<Vec<u8>>) -> bool {
    &&& f.len() == n * n
    &&& r.0 == count_true(f, n * n)
    &&& r.1 == (count_true(f, n * n) == n * n)
    &&& forall|a: int, b: int| 0 <= a < n && 0 <= b < n && #[trigger] f[a * n + b] ==> g[a]@[b] == 0
}

/// In the order `d` of flashing, every octopus marked in `f` reaches 10 from
/// its level in `before` with one for each marked neighbour that flashed
/// before it; every other one ends at its level plus its marked neighbours.
/// Where every unmarked one ends at 9 or below, `f` is the least set of
/// flashes that the levels call for.
pub open spec fn flashes_explained(f: Seq<bool>, d: Seq<int>, before: Seq<Vec<u8>>, after: Seq<Vec<u8>>) -> bool {
    let n = before.len() as int;
    &&& d.len() == n * n
    &&& forall|a: int, b: int|
        0 <= a < n && 0 <= b < n ==> if #[trigger] f[a * n + b] {
            before[a]@[b] + lit_before(f, d, n, a, b, d[a * n + b]) >= 10
        } else {
            after[a]@[b] == before[a]@[b] + lit_neighbours(f, n, a, b)
        }
}

/// Lets every octopus past 9 flash, and those its flashes push past 9, until
/// none is left past 9. Answers the number of flashes and whether every
/// octopus flashed; those that flashed end at 0.
#[verifier::rlimit(80)]
#[verifier::spinoff_prover]
pub fn flash_all(input: &mut Vec<Vec<u8>>) -> (r: (i32, bool))
    requires
        is_square(old(input)@),
    ensures
        is_square(final(input)@),
        final(input)@.len() == old(input)@.len(),
        levels_at_most(final(input)@, 9),
        exists|f: Seq<bool>, d: Seq<int>|
            is_flash_record(f, old(input)@.len() as int, r, final(input)@) && flashes_explained(
                f,
                d,
                old(input)@,
                final(input)@,
            ),
{
    let n = input.len();
    proof {
        assert(n * n <= 1_000_000) by (nonlinear_arith)
            requires
                n <= 1000,
        ;
    }
    let mut cells: Vec<u8> = Vec::new();
    let mut flashed: Vec<bool> = Vec::new();
    let mut a: usize = 0;
    while a < n
        invariant
            a <= n,
            n == input@.len(),
            is_square(input@),
            cells@.len() == a * n,
            flashed@.len() == a * n,
            forall|i: int| 0 <= i < a * n ==> !#[trigger] flashed@[i],
            forall|p: int, q: int| 0 <= p < a && 0 <= q < n ==> #[trigger] cells@[p * n + q] == input@[p]@[q],
        decreases n - a,
    {
        let mut b: usize = 0;
        while b < n
            invariant
                b <= n,
                a < n,
                n == input@.len(),
                is_square(input@),
                cells@.len() == a * n + b,
                flashed@.len() == a * n + b,
                forall|i: int| 0 <= i < a * n + b ==> !#[trigger] flashed@[i],
                forall|p: int, q: int|
                    (0 <= p < a && 0 <= q < n) || (p == a && 0 <= q < b) ==> #[trigger] cells@[p * n
                        + q] == input@[p]@[q],
            decreases n - b,
        {
            assert(input@[a as int]@.len() == n);
            let ghost before = cells@;
            cells.push(input[a][b]);
            flashed.push(false);
            proof {
                assert forall|p: int, q: int|
                    (0 <= p < a && 0 <= q < n) || (p == a && 0 <= q < b + 1) implies #[trigger] cells@[p
                    * n + q] == input@[p]@[q] by {
                    assert(0 <= p * n + q <= a * n + b) by (nonlinear_arith)
                        requires
                            (0 <= p < a && 0 <= q < n) || (p == a && 0 <= q < b + 1),
                    ;
                    if p * n + q < a * n + b {
                        assert(cells@[p * n + q] == before[p * n + q]);
                    } else {
                        assert(p == a && q == b) by (nonlinear_arith)
                            requires
                                p * n + q == a * n + b,
                                (0 <= p < a && 0 <= q < n) || (p == a && 0 <= q < b + 1),
                        ;
                    }
                }
            }
            b = b + 1;
        }
        assert((a + 1) * n == a * n + n) by (nonlinear_arith);
        a = a + 1;
    }
    let total = n * n;
    let mut count: usize = 0;
    let ghost c0 = cells@;
    let ghost mut d: Seq<int> = Seq::new(total as nat, |i: int| 0);
    let ghost mut t: int = 1;
    proof {
        lemma_count_true_zero(flashed@, total as int);
        assert forall|a: int, b: int| 0 <= a < n && 0 <= b < n implies #[trigger] settled(c0, cells@, flashed@, d, n as int, a, b) by {
            lemma_cell_index(a, b, n as int);
            lemma_none_lit(flashed@, n as int, a, b);
        }
    }
    loop
        invariant
            0 < n <= 1000,
            total == n * n,
            cells@.len() == total,
            flashed@.len() == total,
            count == count_true(flashed@, total as int),
            forall|i: int| 0 <= i < total && #[trigger] flashed@[i] ==> cells@[i] == 0,
            c0.len() == total,
            d.len() == total,
            forall|i: int| 0 <= i < total && #[trigger] flashed@[i] ==> d[i] < t,
            all_settled(c0, cells@, flashed@, d, n as int),
        ensures
            c0.len() == total,
            d.len() == total,
            all_settled(c0, cells@, flashed@, d, n as int),
            cells@.len() == total,
            flashed@.len() == total,
            count == count_true(flashed@, total as int),
            forall|i: int| 0 <= i < total ==> #[trigger] flashed@[i] || cells@[i] <= 9,
            forall|i: int| 0 <= i < total && #[trigger] flashed@[i] ==> cells@[i] == 0,
        decreases total - count,
    {
        proof {
            lemma_count_true(flashed@, total as int);
        }
        let mut any = false;
        let mut k: usize = 0;
        let ghost pass_start = cells@;
        let ghost count_start = count;
        while k < total
            invariant
                0 < n <= 1000,
                total == n * n,
                k <= total,
                cells@.len() == total,
                flashed@.len() == total,
                count == count_true(flashed@, total as int),
                count <= total,
                    forall|i: int| 0 <= i < total && #[trigger] flashed@[i] ==> cells@[i] == 0,
                !any ==> cells@ == pass_start && count == count_start,
                any ==> count > count_start,
                !any ==> forall|i: int| 0 <= i < k ==> #[trigger] flashed@[i] || cells@[i] <= 9,
                c0.len() == total,
                d.len() == total,
                forall|i: int| 0 <= i < total && #[trigger] flashed@[i] ==> d[i] < t,
                all_settled(c0, cells@, flashed@, d, n as int),
            decreases total - k,
        {
            if !flashed[k] && cells[k] > 9 {
                let x = k / n;
                let y = k % n;
                proof {
                    vstd::arithmetic::div_mod::lemma_fundamental_div_mod(k as int, n as int);
                    vstd::arithmetic::div_mod::lemma_mod_pos_bound(k as int, n as int);
                    assert(x < n && k == x * n + y) by (nonlinear_arith)
                        requires
                            k == n * x + y,
                            0 <= y < n,
                            k < n * n,
                            x >= 0,
                    ;
                    lemma_count_true_set(flashed@, k as int, total as int);
                    lemma_count_true(flashed@.update(k as int, true), total as int);
                }
                let ghost before = cells@;
                let ghost fb = flashed@;
                let ghost db = d;
                let flashes = flash(&mut flashed, &mut cells, n, x as i32, y as i32);
                proof {
                    d = d.update(k as int, t);
                    t = t + 1;
                }
                proof {
                    assert forall|i: int| 0 <= i < total && #[trigger] flashed@[i] implies cells@[i]
                        == 0 by {
                        let p = i / n as int;
                        let q = i % n as int;
                        vstd::arithmetic::div_mod::lemma_fundamental_div_mod(i, n as int);
                        assert(0 <= p < n && 0 <= q < n) by (nonlinear_arith)
                            requires
                                0 <= i < n * n,
                                p == i / n as int,
                                q == i % n as int,
                                n > 0,
                        ;
                        assert(i == p * n + q) by (nonlinear_arith)
                            requires
                                i == n * p + q,
                        ;
                        if flashed@[i] && !(p == x && q == y) {
                            assert(fb[i]);
                        }
                    }
                    assert(settled(c0, before, fb, db, n as int, x as int, y as int));
                    lemma_lit_before_all(fb, db, n as int, x as int, y as int, t - 1);
                    assert forall|a: int, b: int| 0 <= a < n && 0 <= b < n implies #[trigger] settled(
                        c0,
                        cells@,
                        flashed@,
                        d,
                        n as int,
                        a,
                        b,
                    ) by {
                        lemma_cell_index(a, b, n as int);
                        lemma_lit_neighbours_update(fb, n as int, x as int, y as int, a, b);
                        assert(settled(c0, before, fb, db, n as int, a, b));
                        if !(a == x && b == y) {
                            assert(flashed@[a * n + b] == fb[a * n + b]);
                            assert(d[a * n + b] == db[a * n + b]);
                            if fb[a * n + b] {
                                lemma_lit_before_update(fb, db, n as int, x as int, y as int, t - 1, a, b, db[a * n + b]);
                            }
                        } else {
                            lemma_lit_before_update(fb, db, n as int, x as int, y as int, t - 1, a, b, t - 1);
                        }
                    }
                    assert forall|i: int| 0 <= i < total && #[trigger] flashed@[i] implies d[i] < t by {
                        if i != k {
                            assert(fb[i]);
                        }
                    }
                }
                count = count + 1;
                any = true;
            }
            k = k + 1;
        }
        if !any {
            break;
        }
    }
    let mut rows: Vec<Vec<u8>> = Vec::new();
    let mut a: usize = 0;
    while a < n
        invariant
            a <= n,
            0 < n <= 1000,
            total == n * n,
            cells@.len() == total,
            flashed@.len() == total,
            forall|i: int| 0 <= i < total ==> #[trigger] flashed@[i] || cells@[i] <= 9,
            forall|i: int| 0 <= i < total && #[trigger] flashed@[i] ==> cells@[i] == 0,
            rows@.len() == a,
            forall|p: int| 0 <= p < a ==> (#[trigger] rows@[p])@.len() == n,
            forall|p: int, q: int|
                0 <= p < a && 0 <= q < n ==> #[trigger] rows@[p]@[q] == cells@[p * n + q],
        decreases n - a,
    {
        let mut row: Vec<u8> = Vec::new();
        let mut b: usize = 0;
        while b < n
            invariant
                b <= n,
                a < n,
                0 < n <= 1000,
                total == n * n,
                cells@.len() == total,
                row@.len() == b,
                forall|q: int| 0 <= q < b ==> #[trigger] row@[q] == cells@[a * n + q],
            decreases n - b,
        {
            proof {
                lemma_cell_index(a as int, b as int, n as int);
            }
            row.push(cells[a * n + b]);
            b = b + 1;
        }
        rows.push(row);
        a = a + 1;
    }
    proof {
        assert forall|p: int, q: int| 0 <= p < n && 0 <= q < n implies #[trigger] rows@[p]@[q] <= 9 by {
            lemma_cell_index(p, q, n as int);
            assert(flashed@[p * n + q] || cells@[p * n + q] <= 9);
            assert(rows@[p]@[q] == cells@[p * n + q]);
        }
        lemma_count_true(flashed@, total as int);
    }
    *input = rows;
    let r = ((count as i32), count == total);
    proof {
        assert forall|p: int, q: int| 0 <= p < n && 0 <= q < n && #[trigger] flashed@[p * n + q]
            implies input@[p]@[q] == 0 by {
            lemma_cell_index(p, q, n as int);
        }
        assert(is_flash_record(flashed@, n as int, r, input@));
        assert forall|a: int, b: int| 0 <= a < n && 0 <= b < n implies if #[trigger] flashed@[a * n + b] {
            old(input)@[a]@[b] + lit_before(flashed@, d, n as int, a, b, d[a * n + b]) >= 10
        } else {
            input@[a]@[b] == old(input)@[a]@[b] + lit_neighbours(flashed@, n as int, a, b)
        } by {
            lemma_cell_index(a, b, n as int);
            assert(settled(c0, cells@, flashed@, d, n as int, a, b));
            assert(flashed@[a * n + b] || cells@[a * n + b] <= 9);
        }
        assert(flashes_explained(flashed@, d, old(input)@, input@));
    }
    r
}

proof fn lemma_count_true_zero(v: Seq<bool>, n: int)
    requires
        0 <= n <= v.len(),
        forall|i: int| 0 <= i < n ==> !#[trigger] v[i],
    ensures
        count_true(v, n) == 0,
    decreases n,
{
    if n > 0 {
        lemma_count_true_zero(v, n - 1);
    }
}

/// Raises every energy level by one.
fn increment_all(g: &[Vec<u8>]) -> (r: Vec<Vec<u8>>)
    requires
        is_square(g@),
        levels_at_most(g@, 9),
    ensures
        is_square(r@),
        r@.len() == g@.len(),
        levels_at_most(r@, 10),
        forall|a: int, b: int|
            0 <= a < g@.len() && 0 <= b < g@.len() ==> #[trigger] r@[a]@[b] == g@[a]@[b] + 1,
{
    let n = g.len();
    let mut rows: Vec<Vec<u8>> = Vec::new();
    let mut a: usize = 0;
    while a < n
        invariant
            a <= n,
            n == g@.len(),
            is_square(g@),
            levels_at_most(g@, 9),
            rows@.len() == a,
            forall|p: int| 0 <= p < a ==> (#[trigger] rows@[p])@.len() == n,
            forall|p: int, q: int| 0 <= p < a && 0 <= q < n ==> #[trigger] rows@[p]@[q] == g@[p]@[q] + 1,
        decreases n - a,
    {
        let mut row: Vec<u8> = Vec::new();
        let mut b: usize = 0;
        assert(g@[a as int]@.len() == n);
        while b < n
            invariant
                b <= n,
                a < n,
                n == g@.len(),
                g@[a as int]@.len() == n,
                levels_at_most(g@, 9),
                row@.len() == b,
                forall|q: int| 0 <= q < b ==> #[trigger] row@[q] == g@[a as int]@[q] + 1,
            decreases n - b,
        {
            row.push(g[a][b] + 1);
            b = b + 1;
        }
        rows.push(row);
        a = a + 1;
    }
    proof {
        assert forall|p: int, q: int| 0 <= p < n && 0 <= q < rows@[p]@.len() implies #[trigger] rows@[p]@[q] <= 10 by {
            assert(g@[p]@.len() == n);
        }
    }
    rows
}

pub open spec fn raised_by_one(before: Seq<Vec<u8>>, raised: Seq<Vec<u8>>) -> bool {
    let n = before.len() as int;
    &&& raised.len() == n
    &&& forall|a: int, b: int| 0 <= a < n && 0 <= b < n ==> #[trigger] raised[a]@[b] == before[a]@[b] + 1
}

/// One step takes `before` to `after` with `flashes` flashes (all of the
/// octopuses where `all`): every level rises by one, then the flashes are
/// those that `flashes_explained` explains.
pub open spec fn is_step(before: Seq<Vec<u8>>, after: Seq<Vec<u8>>, flashes: int, all: bool) -> bool {
    exists|raised: Seq<Vec<u8>>, f: Seq<bool>, d: Seq<int>|
        #![trigger raised_by_one(before, raised), is_flash_record(f, before.len() as int, (flashes as i32, all), after), flashes_explained(f, d, raised, after)]
        raised_by_one(before, raised) && is_flash_record(
            f,
            before.len() as int,
            (flashes as i32, all),
            after,
        ) && flashes_explained(f, d, raised, after) && levels_at_most(after, 9) && flashes == count_true(f, (before.len() * before.len()) as int)
}

pub open spec fn sum_of(counts: Seq<int>, k: int) -> int
    decreases k,
{
    if k <= 0 {
        0
    } else {
        sum_of(counts, k - 1) + counts[k - 1]
    }
}

/// A run of `grids.len() - 1` steps from `grids[0]`, with `counts[s]`
/// flashes on step `s`.
pub open spec fn is_run(grids: Seq<Seq<Vec<u8>>>, counts: Seq<int>) -> bool {
    &&& grids.len() == counts.len() + 1
    &&& forall|s: int|
        0 <= s < counts.len() ==> is_step(
            #[trigger] grids[s],
            grids[s + 1],
            counts[s],
            counts[s] == grids[0].len() * grids[0].len(),
        )
}

/// One step of the grid.
fn step(grid: &[Vec<u8>]) -> (r: (Vec<Vec<u8>>, (i32, bool)))
    requires
        is_square(grid@),
        levels_at_most(grid@, 9),
    ensures
        is_square(r.0@),
        r.0@.len() == grid@.len(),
        levels_at_most(r.0@, 9),
        is_step(grid@, r.0@, r.1.0 as int, r.1.1),
        0 <= r.1.0 <= grid@.len() * grid@.len(),
        r.1.1 == (r.1.0 == grid@.len() * grid@.len()),
{
    let mut g = increment_all(grid);
    let ghost raised = g@;
    let r = flash_all(&mut g);
    proof {
        let n = grid@.len() as int;
        let (f, d) = choose|f: Seq<bool>, d: Seq<int>| is_flash_record(f, n, r, g@) && flashes_explained(f, d, raised, g@);
        lemma_count_true(f, n * n);
        assert(raised_by_one(grid@, raised));
        assert(is_flash_record(f, n, (r.0 as int as i32, r.1), g@));
    }
    (g, r)
}

/// The number of flashes over the first 100 steps.
pub fn part1(input: &[Vec<u8>]) -> (r: i32)
    requires
        is_square(input@),
        levels_at_most(input@, 9),
    ensures
        exists|grids: Seq<Seq<Vec<u8>>>, counts: Seq<int>|
            #![trigger is_run(grids, counts)]
            is_run(grids, counts) && grids[0] == input@ && counts.len() == 100 && r == sum_of(
                counts,
                100,
            ),
{
    let n = input.len();
    let mut grid: Vec<Vec<u8>> = Vec::new();
    let ghost mut grids: Seq<Seq<Vec<u8>>> = seq![input@];
    let ghost mut counts: Seq<int> = seq![];
    let mut total: i32 = 0;
    let mut s: usize = 0;
    while s < 100
        invariant
            s <= 100,
            n == input@.len(),
            is_square(input@),
            levels_at_most(input@, 9),
            s > 0 ==> grid@.len() == n && is_square(grid@) && levels_at_most(grid@, 9),
            grids.len() == s + 1,
            grids[0] == input@,
            s == 0 ==> grids.last() == input@,
            s > 0 ==> grids.last() == grid@,
            is_run(grids, counts),
            total == sum_of(counts, s as int),
            0 <= total <= s * n * n,
        decreases 100 - s,
    {
        let (next, (flashes, all)) = if s == 0 {
            step(input)
        } else {
            step(grid.as_slice())
        };
        proof {
            assert(total + flashes <= (s + 1) * n * n) by (nonlinear_arith)
                requires
                    total <= s * n * n,
                    flashes <= n * n,
            ;
            assert((s + 1) * n * n <= 100 * 1000 * 1000) by (nonlinear_arith)
                requires
                    s + 1 <= 100,
                    n <= 1000,
            ;
            let old_grids = grids;
            let old_counts = counts;
            grids = grids.push(next@);
            counts = counts.push(flashes as int);
            assert forall|t: int| 0 <= t < counts.len() implies is_step(
                #[trigger] grids[t],
                grids[t + 1],
                counts[t],
                counts[t] == grids[0].len() * grids[0].len(),
            ) by {
                if t < old_counts.len() {
                    assert(grids[t] == old_grids[t] && grids[t + 1] == old_grids[t + 1]);
                    assert(is_step(old_grids[t], old_grids[t + 1], old_counts[t], old_counts[t] == old_grids[0].len() * old_grids[0].len()));
                }
            }
            assert(sum_of(counts, s + 1) == sum_of(old_counts, s as int) + flashes) by {
                assert(sum_of(counts, s as int) == sum_of(old_counts, s as int)) by {
                    lemma_sum_of_prefix(old_counts, flashes as int, s as int);
                }
            }
        }
        total = total + flashes;
        grid = next;
        s = s + 1;
    }
    total
}

proof fn lemma_sum_of_prefix(c: Seq<int>, x: int, k: int)
    requires
        0 <= k <= c.len(),
    ensures
        sum_of(c.push(x), k) == sum_of(c, k),
    decreases k,
{
    if k > 0 {
        lemma_sum_of_prefix(c, x, k - 1);
    }
}

/// The first step on which every octopus flashes; `None` where none does
/// before the step count leaves `i32`.
pub fn part2(input: &[Vec<u8>]) -> (r: Option<i32>)
    requires
        is_square(input@),
        levels_at_most(input@, 9),
    ensures
        r matches Some(k) ==> k >= 1 && exists|grids: Seq<Seq<Vec<u8>>>, counts: Seq<int>|
            #![trigger is_run(grids, counts)]
            is_run(grids, counts) && grids[0] == input@ && counts.len() == k && counts[k - 1]
                == input@.len() * input@.len() && forall|t: int|
                0 <= t < k - 1 ==> #[trigger] counts[t] != input@.len() * input@.len(),
        r is None ==> exists|grids: Seq<Seq<Vec<u8>>>, counts: Seq<int>|
            #![trigger is_run(grids, counts)]
            is_run(grids, counts) && grids[0] == input@ && counts.len() == i32::MAX && forall|t: int|
                0 <= t < counts.len() ==> #[trigger] counts[t] != input@.len() * input@.len(),
{
    let n = input.len();
    let mut grid: Vec<Vec<u8>> = Vec::new();
    let ghost mut grids: Seq<Seq<Vec<u8>>> = seq![input@];
    let ghost mut counts: Seq<int> = seq![];
    let mut s: i32 = 0;
    while s < i32::MAX
        invariant
            0 <= s <= i32::MAX,
            n == input@.len(),
            is_square(input@),
            levels_at_most(input@, 9),
            s > 0 ==> grid@.len() == n && is_square(grid@) && levels_at_most(grid@, 9),
            grids.len() == s + 1,
            grids[0] == input@,
            s == 0 ==> grids.last() == input@,
            s > 0 ==> grids.last() == grid@,
            is_run(grids, counts),
            forall|t: int| 0 <= t < s ==> #[trigger] counts[t] != n * n,
        decreases i32::MAX - s,
    {
        let (next, (flashes, all)) = if s == 0 {
            step(input)
        } else {
            step(grid.as_slice())
        };
        proof {
            let old_grids = grids;
            let old_counts = counts;
            grids = grids.push(next@);
            counts = counts.push(flashes as int);
            assert forall|t: int| 0 <= t < counts.len() implies is_step(
                #[trigger] grids[t],
                grids[t + 1],
                counts[t],
                counts[t] == grids[0].len() * grids[0].len(),
            ) by {
                if t < old_counts.len() {
                    assert(grids[t] == old_grids[t] && grids[t + 1] == old_grids[t + 1]);
                    assert(is_step(old_grids[t], old_grids[t + 1], old_counts[t], old_counts[t] == old_grids[0].len() * old_grids[0].len()));
                }
            }
        }
        s = s + 1;
        if all {
            proof {
                assert(is_run(grids, counts));
                assert(counts.len() == s);
                assert(counts[s - 1] == n * n);
                assert forall|t: int| 0 <= t < s - 1 implies #[trigger] counts[t] != input@.len()
                    * input@.len() by {
                    assert(counts[t] != n * n);
                }
            }
            return Some(s);
        }
        grid = next;
    }
    proof {
        assert(is_run(grids, counts));
        assert(counts.len() == i32::MAX);
    }
    None
}

} // verus!
