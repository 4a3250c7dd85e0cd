use vstd::prelude::*;

use crate::chiton::is_grid;
use crate::tools::sorted_u64;
use vstd::arithmetic::div_mod::lemma_fundamental_div_mod_converse;

verus! {

pub open spec fn height_at(g: Seq<Vec<u8>>, x: int, y: int) -> int {
    g[x]@[y] as int
}

/// The cell at row `x`, column `y` is lower than each of its up to four
/// neighbours.
pub open spec fn is_low_point(g: Seq<Vec<u8>>, x: int, y: int) -> bool {
    let p = height_at(g, x, y);
    !((x >= 1 && p >= height_at(g, x - 1, y)) || (x < g.len() - 1 && p >= height_at(g, x + 1, y))
        || (y >= 1 && p >= height_at(g, x, y - 1)) || (y < g[x]@.len() - 1 && p >= height_at(
        g,
        x,
        y + 1,
    )))
}

pub open spec fn risk_level(g: Seq<Vec<u8>>, x: int, y: int) -> int {
    if is_low_point(g, x, y) {
        height_at(g, x, y) + 1
    } else {
        0
    }
}

/// The risk levels of the first `n` cells of row `x`.
pub open spec fn row_risk(g: Seq<Vec<u8>>, x: int, n: int) -> int
    decreases n,
{
    if n <= 0 {
        0
    } else {
        row_risk(g, x, n - 1) + risk_level(g, x, n - 1)
    }
}

/// The risk levels of the low points of the first `m` rows.
pub open spec fn risk_total(g: Seq<Vec<u8>>, m: int) -> int
    decreases m,
{
    if m <= 0 {
        0
    } else {
        risk_total(g, m - 1) + row_risk(g, m - 1, g[m - 1]@.len() as int)
    }
}

proof fn lemma_row_risk_grows(g: Seq<Vec<u8>>, x: int, k: int, n: int)
    requires
        0 <= k <= n,
    ensures
        0 <= row_risk(g, x, k) <= row_risk(g, x, n),
    decreases n,
{
    if k < n {
        lemma_row_risk_grows(g, x, k, n - 1);
    } else if n > 0 {
        lemma_row_risk_grows(g, x, n - 1, n - 1);
    }
}

proof fn lemma_risk_total_grows(g: Seq<Vec<u8>>, k: int, m: int)
    requires
        0 <= k <= m,
    ensures
        0 <= risk_total(g, k) <= risk_total(g, m),
    decreases m,
{
    if m > 0 {
        lemma_row_risk_grows(g, m - 1, 0, g[m - 1]@.len() as int);
        if k < m {
            lemma_risk_total_grows(g, k, m - 1);
        } else {
            lemma_risk_total_grows(g, m - 1, m - 1);
        }
    }
}

/// The sum of the risk levels of all low points.
pub fn part1(input: &[Vec<u8>]) -> (r: Option<i32>)
    requires
        is_grid(input@),
    ensures
        match r {
            Some(v) => v == risk_total(input@, input@.len() as int),
            None => risk_total(input@, input@.len() as int) > i32::MAX,
        },
{
    let h = input.len();
    let mut acc: i32 = 0;
    let mut x: usize = 0;
    while x < h
        invariant
            x <= h,
            h == input@.len(),
            is_grid(input@),
            acc == risk_total(input@, x as int),
        decreases h - x,
    {
        let row = &input[x];
        let w = row.len();
        proof {
            lemma_risk_total_grows(input@, x + 1, h as int);
        }
        let mut y: usize = 0;
        while y < w
            invariant
                y <= w,
                x < h,
                h == input@.len(),
                is_grid(input@),
                w == input@[x as int]@.len(),
                row@ == input@[x as int]@,
                risk_total(input@, x + 1) <= risk_total(input@, h as int),
                acc == risk_total(input@, x as int) + row_risk(input@, x as int, y as int),
            decreases w - y,
        {
            proof {
                lemma_row_risk_grows(input@, x as int, y + 1, w as int);
                lemma_risk_total_grows(input@, x as int, x as int);
            }
            let point = row[y];
            if x >= 1 {
                assert(input@[x - 1]@.len() == w);
            }
            if x + 1 < h {
                assert(input@[x + 1]@.len() == w);
            }
            let higher = (x >= 1 && point >= input[x - 1][y]) || (x + 1 < h && point >= input[x
                + 1][y]) || (y >= 1 && point >= row[y - 1]) || (y + 1 < w && point >= row[y + 1]);
            if !higher {
                match acc.checked_add(point as i32 + 1) {
                    Some(a) => {
                        acc = a;
                    },
                    None => {
                        return None;
                    },
                }
            }
            y = y + 1;
        }
        x = x + 1;
    }
    Some(acc)
}

/// The cell numbered `i`, counting row by row in rows of `w`, is no 9.
pub open spec fn open_cell(area: Seq<Vec<u8>>, w: int, i: int) -> bool {
    area[i / w]@[i % w] != 9
}

/// How many of the first `n` cells are marked in `b` but not in `a`, and are
/// no 9.
pub open spec fn newly_opened(area: Seq<Vec<u8>>, w: int, a: Seq<bool>, b: Seq<bool>, n: int) -> int
    decreases n,
{
    if n <= 0 {
        0
    } else {
        newly_opened(area, w, a, b, n - 1) + if b[n - 1] && !a[n - 1] && open_cell(area, w, n - 1) {
            1int
        } else {
            0int
        }
    }
}

pub open spec fn unmarked(b: Seq<bool>, n: int) -> int
    decreases n,
{
    if n <= 0 {
        0
    } else {
        unmarked(b, n - 1) + if b[n - 1] {
            0int
        } else {
            1int
        }
    }
}

/// Every cell that `b` marks beyond `a` and that is no 9 has each of its
/// neighbours marked in `b`.
pub open spec fn basin_closed(area: Seq<Vec<u8>>, a: Seq<bool>, b: Seq<bool>) -> bool {
    let h = area.len() as int;
    let w = area[0]@.len() as int;
    forall|x: int, y: int|
        0 <= x < h && 0 <= y < w && #[trigger] b[x * w + y] && !a[x * w + y] && area[x]@[y] != 9
            ==> (x > 0 ==> b[(x - 1) * w + y]) && (x + 1 < h ==> b[(x + 1) * w + y]) && (y > 0
            ==> b[x * w + y - 1]) && (y + 1 < w ==> b[x * w + y + 1])
}

proof fn lemma_flat_index(x: int, y: int, h: int, w: int)
    requires
        0 <= x < h,
        0 <= y < w,
    ensures
        0 <= x * w + y < h * w,
        (x * w + y) / w == x,
        (x * w + y) % w == y,
        x > 0 ==> 0 <= (x - 1) * w + y == x * w + y - w,
        x + 1 < h ==> (x + 1) * w + y == x * w + y + w < h * w,
{
    assert(0 <= x * w + y < h * w) by (nonlinear_arith)
        requires
            0 <= x < h,
            0 <= y < w,
    ;
    assert(x > 0 ==> 0 <= (x - 1) * w + y == x * w + y - w) by (nonlinear_arith)
        requires
            0 <= x < h,
            0 <= y < w,
    ;
    assert(x + 1 < h ==> (x + 1) * w + y == x * w + y + w < h * w) by (nonlinear_arith)
        requires
            0 <= x < h,
            0 <= y < w,
    ;
    lemma_fundamental_div_mod_converse(x * w + y, w, x, y);
}

proof fn lemma_mark_one(area: Seq<Vec<u8>>, w: int, a: Seq<bool>, b: Seq<bool>, i: int, n: int)
    requires
        0 <= i < b.len(),
        a.len() == b.len(),
        n <= b.len(),
        !b[i],
        !a[i],
    ensures
        newly_opened(area, w, a, b.update(i, true), n) == newly_opened(area, w, a, b, n) + if i < n
            && open_cell(area, w, i) {
            1int
        } else {
            0int
        },
        unmarked(b.update(i, true), n) == unmarked(b, n) - if i < n {
            1int
        } else {
            0int
        },
        unmarked(b, n) >= 0,
    decreases n,
{
    if n > 0 {
        lemma_mark_one(area, w, a, b, i, n - 1);
    }
}

/// The cell at row `cx`, column `cy` is marked or waits in `work`.
pub open spec fn in_reach(v: Seq<bool>, work: Seq<(usize, usize)>, cx: int, cy: int, w: int) -> bool {
    v[cx * w + cy] || exists|i: int|
        0 <= i < work.len() && (#[trigger] work[i]).0 == cx && work[i].1 == cy
}

proof fn lemma_unmarked_nonneg(b: Seq<bool>, n: int)
    ensures
        0 <= unmarked(b, n),
        n >= 0 ==> unmarked(b, n) <= n,
    decreases n,
{
    if n > 0 {
        lemma_unmarked_nonneg(b, n - 1);
    }
}

/// Every cell marked in `v` beyond `a` that is no 9 has each neighbour
/// marked or waiting in `work`.
#[verifier::opaque]
pub open spec fn pending_closed(
    area: Seq<Vec<u8>>,
    a: Seq<bool>,
    v: Seq<bool>,
    work: Seq<(usize, usize)>,
    h: int,
    w: int,
) -> bool {
    forall|cx: int, cy: int|
        0 <= cx < h && 0 <= cy < w && #[trigger] v[cx * w + cy] && !a[cx * w + cy]
            && area[cx]@[cy] != 9 ==> (cx > 0 ==> in_reach(v, work, cx - 1, cy, w)) && (cx + 1 < h
            ==> in_reach(v, work, cx + 1, cy, w)) && (cy > 0 ==> in_reach(v, work, cx, cy - 1, w))
            && (cy + 1 < w ==> in_reach(v, work, cx, cy + 1, w))
}

proof fn lemma_closure_step(
    area: Seq<Vec<u8>>,
    a: Seq<bool>,
    before: Seq<bool>,
    wb: Seq<(usize, usize)>,
    after: Seq<bool>,
    work: Seq<(usize, usize)>,
    h: int,
    w: int,
    cx: int,
    cy: int,
)
    requires
        pending_closed(area, a, before, wb, h, w),
        0 <= cx < h,
        0 <= cy < w,
        wb.len() > 0,
        wb.last().0 == cx,
        wb.last().1 == cy,
        before.len() == h * w,
        after.len() == h * w,
        forall|i: int| 0 <= i < h * w && before[i] ==> #[trigger] after[i],
        forall|i: int| 0 <= i < h * w && i != cx * w + cy ==> #[trigger] after[i] == before[i],
        after[cx * w + cy],
        work.len() >= wb.len() - 1,
        forall|i: int| 0 <= i < wb.len() - 1 ==> #[trigger] work[i] == wb[i],
        !before[cx * w + cy] && !a[cx * w + cy] && area[cx]@[cy] != 9 ==> (cx > 0 ==> in_reach(
            after,
            work,
            cx - 1,
            cy,
            w,
        )) && (cx + 1 < h ==> in_reach(after, work, cx + 1, cy, w)) && (cy > 0 ==> in_reach(
            after,
            work,
            cx,
            cy - 1,
            w,
        )) && (cy + 1 < w ==> in_reach(after, work, cx, cy + 1, w)),
    ensures
        pending_closed(area, a, after, work, h, w),
{
    reveal(pending_closed);
    let n = h * w;
    lemma_flat_index(cx, cy, h, w);
    assert forall|c1: int, c2: int|
        0 <= c1 < h && 0 <= c2 < w && #[trigger] after[c1 * w + c2] && !a[c1 * w + c2]
            && area[c1]@[c2] != 9 implies (c1 > 0 ==> in_reach(after, work, c1 - 1, c2, w)) && (c1
        + 1 < h ==> in_reach(after, work, c1 + 1, c2, w)) && (c2 > 0 ==> in_reach(
        after,
        work,
        c1,
        c2 - 1,
        w,
    )) && (c2 + 1 < w ==> in_reach(after, work, c1, c2 + 1, w)) by {
        lemma_flat_index(c1, c2, h, w);
        if before[c1 * w + c2] {
            assert(before[c1 * w + c2]);
            if c1 > 0 {
                lemma_flat_index(c1 - 1, c2, h, w);
                lemma_reach_kept(before, wb, after, work, c1 - 1, c2, w, n);
            }
            if c1 + 1 < h {
                lemma_flat_index(c1 + 1, c2, h, w);
                lemma_reach_kept(before, wb, after, work, c1 + 1, c2, w, n);
            }
            if c2 > 0 {
                lemma_flat_index(c1, c2 - 1, h, w);
                lemma_reach_kept(before, wb, after, work, c1, c2 - 1, w, n);
            }
            if c2 + 1 < w {
                lemma_flat_index(c1, c2 + 1, h, w);
                lemma_reach_kept(before, wb, after, work, c1, c2 + 1, w, n);
            }
        } else {
            lemma_fundamental_div_mod_converse(c1 * w + c2, w, c1, c2);
            lemma_fundamental_div_mod_converse(cx * w + cy, w, cx, cy);
        }
    }
}

proof fn lemma_nothing_new(area: Seq<Vec<u8>>, w: int, a: Seq<bool>, n: int)
    ensures
        newly_opened(area, w, a, a, n) == 0,
    decreases n,
{
    if n > 0 {
        lemma_nothing_new(area, w, a, n - 1);
    }
}

proof fn lemma_reach_kept(
    before: Seq<bool>,
    wb: Seq<(usize, usize)>,
    after: Seq<bool>,
    work: Seq<(usize, usize)>,
    cx: int,
    cy: int,
    w: int,
    n: int,
)
    requires
        in_reach(before, wb, cx, cy, w),
        0 <= cx * w + cy < n,
        wb.len() > 0,
        before.len() == n,
        after.len() == n,
        forall|i: int| 0 <= i < n && before[i] ==> #[trigger] after[i],
        after[wb.last().0 * w + wb.last().1],
        work.len() >= wb.len() - 1,
        forall|i: int| 0 <= i < wb.len() - 1 ==> #[trigger] work[i] == wb[i],
    ensures
        in_reach(after, work, cx, cy, w),
{
    if !before[cx * w + cy] {
        let i = choose|i: int| 0 <= i < wb.len() && (#[trigger] wb[i]).0 == cx && wb[i].1 == cy;
        if i < wb.len() - 1 {
            assert(work[i] == wb[i]);
        }
    }
}

/// Cell `(nx, ny)` is marked in `b` but not in `a`, is no 9, and comes before
/// the cell numbered `k` in the order `d`.
pub open spec fn earlier_open(
    area: Seq<Vec<u8>>,
    a: Seq<bool>,
    b: Seq<bool>,
    d: Seq<int>,
    h: int,
    w: int,
    nx: int,
    ny: int,
    k: int,
) -> bool {
    0 <= nx < h && 0 <= ny < w && b[nx * w + ny] && !a[nx * w + ny] && area[nx]@[ny] != 9 && d[nx
        * w + ny] < d[k]
}

/// Cell `(cx, cy)` has a neighbour that `earlier_open` holds of.
pub open spec fn reached_from(
    area: Seq<Vec<u8>>,
    a: Seq<bool>,
    b: Seq<bool>,
    d: Seq<int>,
    h: int,
    w: int,
    cx: int,
    cy: int,
) -> bool {
    let k = cx * w + cy;
    earlier_open(area, a, b, d, h, w, cx - 1, cy, k) || earlier_open(area, a, b, d, h, w, cx + 1, cy, k)
        || earlier_open(area, a, b, d, h, w, cx, cy - 1, k) || earlier_open(
        area,
        a,
        b,
        d,
        h,
        w,
        cx,
        cy + 1,
        k,
    )
}

/// In the order `d`, every cell that `b` marks beyond `a`, but `(x, y)`, has
/// a neighbour marked before it that is no 9: following those neighbours
/// leads back to `(x, y)`, so each marked cell is reached from `(x, y)`
/// through cells that are no 9.
#[verifier::opaque]
pub open spec fn flood_order(area: Seq<Vec<u8>>, a: Seq<bool>, b: Seq<bool>, d: Seq<int>, x: int, y: int) -> bool {
    let h = area.len() as int;
    let w = area[0]@.len() as int;
    &&& d.len() == h * w
    &&& forall|cx: int, cy: int|
        0 <= cx < h && 0 <= cy < w && #[trigger] b[cx * w + cy] && !a[cx * w + cy] && !(cx == x
            && cy == y) ==> reached_from(area, a, b, d, h, w, cx, cy)
}

pub open spec fn adjacent4(px: int, py: int, qx: int, qy: int) -> bool {
    (px == qx && (py == qy + 1 || py + 1 == qy)) || (py == qy && (px == qx + 1 || px + 1 == qx))
}

/// Every cell marked in `v` but not in `a` comes before `t` in the order `d`.
#[verifier::opaque]
pub open spec fn marked_before(v: Seq<bool>, a: Seq<bool>, d: Seq<int>, t: int, n: int) -> bool {
    forall|i: int| 0 <= i < n && #[trigger] v[i] && !a[i] ==> d[i] < t
}

/// Each waiting cell is `(x, y)`, with no parent, or has as parent a cell
/// next to it that this flood marked and that is no 9.
#[verifier::opaque]
pub open spec fn parents_ok(
    area: Seq<Vec<u8>>,
    a: Seq<bool>,
    v: Seq<bool>,
    work: Seq<(usize, usize)>,
    par: Seq<(int, int)>,
    h: int,
    w: int,
    x: int,
    y: int,
) -> bool {
    &&& par.len() == work.len()
    &&& forall|i: int|
        0 <= i < work.len() ==> if (#[trigger] par[i]).0 == -1 {
            work[i].0 == x && work[i].1 == y
        } else {
            0 <= par[i].0 < h && 0 <= par[i].1 < w && v[par[i].0 * w + par[i].1] && !a[par[i].0 * w
                + par[i].1] && area[par[i].0]@[par[i].1] != 9 && adjacent4(
                par[i].0,
                par[i].1,
                work[i].0 as int,
                work[i].1 as int,
            )
        }
}

proof fn lemma_earlier_kept(
    area: Seq<Vec<u8>>,
    a: Seq<bool>,
    b: Seq<bool>,
    b2: Seq<bool>,
    d: Seq<int>,
    d2: Seq<int>,
    h: int,
    w: int,
    nx: int,
    ny: int,
    kc: int,
)
    requires
        earlier_open(area, a, b, d, h, w, nx, ny, kc),
        b2[nx * w + ny],
        d2[nx * w + ny] == d[nx * w + ny],
        d2[kc] == d[kc],
    ensures
        earlier_open(area, a, b2, d2, h, w, nx, ny, kc),
{
}

proof fn lemma_order_step(
    area: Seq<Vec<u8>>,
    a: Seq<bool>,
    before: Seq<bool>,
    db: Seq<int>,
    h: int,
    w: int,
    x: int,
    y: int,
    cx: int,
    cy: int,
    parent: (int, int),
    t: int,
)
    requires
        is_grid(area),
        h == area.len(),
        w == area[0]@.len(),
        before.len() == h * w,
        a.len() == h * w,
        0 <= cx < h,
        0 <= cy < w,
        !before[cx * w + cy],
        flood_order(area, a, before, db, x, y),
        marked_before(before, a, db, t, h * w),
        parent.0 == -1 ==> cx == x && cy == y,
        parent.0 != -1 ==> 0 <= parent.0 < h && 0 <= parent.1 < w && before[parent.0 * w
            + parent.1] && !a[parent.0 * w + parent.1] && area[parent.0]@[parent.1] != 9
            && adjacent4(parent.0, parent.1, cx, cy),
    ensures
        flood_order(area, a, before.update(cx * w + cy, true), db.update(cx * w + cy, t), x, y),
        marked_before(before.update(cx * w + cy, true), a, db.update(cx * w + cy, t), t + 1, h * w),
{
    reveal(flood_order);
    reveal(marked_before);
    let k = cx * w + cy;
    let after = before.update(k, true);
    let d = db.update(k, t);
    lemma_flat_index(cx, cy, h, w);
    assert forall|c1: int, c2: int|
        0 <= c1 < h && 0 <= c2 < w && #[trigger] after[c1 * w + c2] && !a[c1 * w + c2] && !(c1 == x
            && c2 == y) implies reached_from(area, a, after, d, h, w, c1, c2) by {
        lemma_flat_index(c1, c2, h, w);
        let kc = c1 * w + c2;
        if kc == k {
            lemma_fundamental_div_mod_converse(k, w, c1, c2);
            lemma_fundamental_div_mod_converse(k, w, cx, cy);
            let (px, py) = parent;
            lemma_flat_index(px, py, h, w);
            assert(db[px * w + py] < t);
            assert(earlier_open(area, a, after, d, h, w, px, py, kc));
        } else {
            assert(before[kc]);
            assert(reached_from(area, a, before, db, h, w, c1, c2));
            if c1 > 0 {
                lemma_flat_index(c1 - 1, c2, h, w);
            }
            if c1 + 1 < h {
                lemma_flat_index(c1 + 1, c2, h, w);
            }
            if c2 > 0 {
                lemma_flat_index(c1, c2 - 1, h, w);
            }
            if c2 + 1 < w {
                lemma_flat_index(c1, c2 + 1, h, w);
            }
            if earlier_open(area, a, before, db, h, w, c1 - 1, c2, kc) {
                lemma_earlier_kept(area, a, before, after, db, d, h, w, c1 - 1, c2, kc);
            } else if earlier_open(area, a, before, db, h, w, c1 + 1, c2, kc) {
                lemma_earlier_kept(area, a, before, after, db, d, h, w, c1 + 1, c2, kc);
            } else if earlier_open(area, a, before, db, h, w, c1, c2 - 1, kc) {
                lemma_earlier_kept(area, a, before, after, db, d, h, w, c1, c2 - 1, kc);
            } else {
                lemma_earlier_kept(area, a, before, after, db, d, h, w, c1, c2 + 1, kc);
            }
        }
    }
}

proof fn lemma_last_parent(
    area: Seq<Vec<u8>>,
    a: Seq<bool>,
    v: Seq<bool>,
    work: Seq<(usize, usize)>,
    par: Seq<(int, int)>,
    h: int,
    w: int,
    x: int,
    y: int,
)
    requires
        parents_ok(area, a, v, work, par, h, w, x, y),
        work.len() > 0,
    ensures
        par.len() == work.len(),
        par.last().0 == -1 ==> work.last().0 == x && work.last().1 == y,
        par.last().0 != -1 ==> 0 <= par.last().0 < h && 0 <= par.last().1 < w && v[par.last().0 * w
            + par.last().1] && !a[par.last().0 * w + par.last().1] && area[par.last().0]@[par.last().1]
            != 9 && adjacent4(par.last().0, par.last().1, work.last().0 as int, work.last().1 as int),
{
    reveal(parents_ok);
    assert(par[par.len() - 1] == par.last());
}

proof fn lemma_parents_step(
    area: Seq<Vec<u8>>,
    a: Seq<bool>,
    before: Seq<bool>,
    after: Seq<bool>,
    wb: Seq<(usize, usize)>,
    pb: Seq<(int, int)>,
    work: Seq<(usize, usize)>,
    par: Seq<(int, int)>,
    h: int,
    w: int,
    x: int,
    y: int,
    cx: int,
    cy: int,
)
    requires
        parents_ok(area, a, before, wb, pb, h, w, x, y),
        wb.len() > 0,
        before.len() == h * w,
        after.len() == h * w,
        forall|i: int| 0 <= i < h * w && before[i] ==> #[trigger] after[i],
        work.len() >= wb.len() - 1,
        par.len() == work.len(),
        forall|i: int| 0 <= i < wb.len() - 1 ==> #[trigger] work[i] == wb[i] && par[i] == pb[i],
        work.len() > wb.len() - 1 ==> 0 <= cx < h && 0 <= cy < w && after[cx * w + cy] && !a[cx
            * w + cy] && area[cx]@[cy] != 9,
        forall|i: int|
            wb.len() - 1 <= i < work.len() ==> #[trigger] par[i] == (cx, cy) && adjacent4(
                cx,
                cy,
                work[i].0 as int,
                work[i].1 as int,
            ),
    ensures
        parents_ok(area, a, after, work, par, h, w, x, y),
{
    reveal(parents_ok);
    assert forall|i: int| 0 <= i < work.len() implies if (#[trigger] par[i]).0 == -1 {
        work[i].0 == x && work[i].1 == y
    } else {
        0 <= par[i].0 < h && 0 <= par[i].1 < w && after[par[i].0 * w + par[i].1] && !a[par[i].0
            * w + par[i].1] && area[par[i].0]@[par[i].1] != 9 && adjacent4(
            par[i].0,
            par[i].1,
            work[i].0 as int,
            work[i].1 as int,
        )
    } by {
        if i < wb.len() - 1 {
            assert(work[i] == wb[i] && par[i] == pb[i]);
            if par[i].0 != -1 {
                lemma_flat_index(par[i].0, par[i].1, h, w);
                assert(before[par[i].0 * w + par[i].1]);
            }
        }
    }
}

/// Marks the basin around row `x`, column `y`: every cell reached from it
/// through cells that are no 9 and were not marked, and the cells bordering
/// them. Answers how many cells that are no 9 it marked.
pub fn flood_basin(visited: &mut Vec<bool>, area: &[Vec<u8>], x: usize, y: usize) -> (r: usize)
    requires
        is_grid(area@),
        old(visited)@.len() == area@.len() * area@[0]@.len(),
        x < area@.len(),
        y < area@[0]@.len(),
    ensures
        final(visited)@.len() == old(visited)@.len(),
        forall|i: int| 0 <= i < old(visited)@.len() && old(visited)@[i] ==> #[trigger] final(visited)@[i],
        final(visited)@[x * area@[0]@.len() + y],
        old(visited)@[x * area@[0]@.len() + y] ==> final(visited)@ == old(visited)@,
        basin_closed(area@, old(visited)@, final(visited)@),
        exists|d: Seq<int>| flood_order(area@, old(visited)@, final(visited)@, d, x as int, y as int),
        r > 0 ==> !old(visited)@[x * area@[0]@.len() + y] && area@[x as int]@[y as int] != 9,
        r == newly_opened(
            area@,
            area@[0]@.len() as int,
            old(visited)@,
            final(visited)@,
            old(visited)@.len() as int,
        ),
{
    let h = area.len();
    let w = area[0].len();
    let ghost n = (h * w) as int;
    let ghost a = visited@;
    let total = visited.len();
    proof {
        lemma_flat_index(x as int, y as int, h as int, w as int);
    }
    let ghost mut d: Seq<int> = Seq::new(n as nat, |i: int| 0);
    let ghost mut t: int = 1;
    let ghost mut par: Seq<(int, int)> = seq![(-1, -1)];
    if visited[x * w + y] {
        assert(newly_opened(area@, w as int, a, a, n) == 0) by {
            lemma_nothing_new(area@, w as int, a, n);
        }
        assert(flood_order(area@, a, visited@, d, x as int, y as int)) by {
            reveal(flood_order);
        }
        return 0;
    }
    if area[x][y] == 9 {
        proof {
            lemma_mark_one(area@, w as int, a, a, (x * w + y) as int, n);
            lemma_nothing_new(area@, w as int, a, n);
            assert(!open_cell(area@, w as int, (x * w + y) as int));
        }
        visited.set(x * w + y, true);
        proof {
            reveal(flood_order);
            assert forall|i: int| 0 <= i < n && #[trigger] visited@[i] && !a[i] implies i == x * w + y by {}
            assert forall|cx: int, cy: int|
                0 <= cx < h && 0 <= cy < w && #[trigger] visited@[cx * w + cy] && !a[cx * w + cy]
                    implies cx == x && cy == y by {
                lemma_flat_index(cx, cy, h as int, w as int);
                vstd::arithmetic::div_mod::lemma_fundamental_div_mod_converse(cx * w + cy, w as int, cx, cy);
                vstd::arithmetic::div_mod::lemma_fundamental_div_mod_converse(cx * w + cy, w as int, x as int, y as int);
            }
            assert(flood_order(area@, a, visited@, d, x as int, y as int));
        }
        return 0;
    }
    let mut count: usize = 0;
    let mut work: Vec<(usize, usize)> = Vec::new();
    work.push((x, y));
    proof {
        reveal(flood_order);
        reveal(marked_before);
        reveal(parents_ok);
        reveal(pending_closed);
        assert(flood_order(area@, a, visited@, d, x as int, y as int));
        assert(marked_before(visited@, a, d, t, n));
        assert(par[0].0 == -1);
        assert(parents_ok(area@, a, visited@, work@, par, h as int, w as int, x as int, y as int));
        lemma_nothing_new(area@, w as int, a, n);
        lemma_unmarked_nonneg(a, n);
        assert(work@[0].0 == x && work@[0].1 == y);
    }
    while work.len() > 0
        invariant
            h == area@.len(),
            w == area@[0]@.len(),
            is_grid(area@),
            n == h * w,
            n == total,
            a.len() == n,
            visited@.len() == n,
            forall|i: int| 0 <= i < n && a[i] ==> #[trigger] visited@[i],
            forall|i: int| 0 <= i < work@.len() ==> (#[trigger] work@[i]).0 < h && work@[i].1 < w,
            count == newly_opened(area@, w as int, a, visited@, n),
            count <= n - unmarked(visited@, n),
            unmarked(visited@, n) >= 0,
            in_reach(visited@, work@, x as int, y as int, w as int),
            pending_closed(area@, a, visited@, work@, h as int, w as int),
            x < h,
            y < w,
            flood_order(area@, a, visited@, d, x as int, y as int),
            marked_before(visited@, a, d, t, n),
            parents_ok(area@, a, visited@, work@, par, h as int, w as int, x as int, y as int),
        decreases unmarked(visited@, n), work@.len(),
    {
        let ghost before = visited@;
        let ghost wb = work@;
        let ghost pb = par;
        let ghost parent = par.last();
        proof {
            lemma_last_parent(area@, a, visited@, work@, par, h as int, w as int, x as int, y as int);
        }
        let (cx, cy) = work.pop().unwrap();
        proof {
            par = par.drop_last();
        }
        proof {
            assert(wb[wb.len() - 1] == (cx, cy));
            lemma_flat_index(cx as int, cy as int, h as int, w as int);
        }
        let k = cx * w + cy;
        if !visited[k] {
            proof {
                lemma_mark_one(area@, w as int, a, visited@, k as int, n);
                lemma_mark_one(area@, w as int, a, visited@, k as int, n);
                assert(unmarked(visited@.update(k as int, true), n) >= 0) by {
                    lemma_unmarked_nonneg(visited@.update(k as int, true), n);
                }
            }
            proof {
                lemma_order_step(area@, a, visited@, d, h as int, w as int, x as int, y as int, cx as int, cy as int, parent, t);
                d = d.update(k as int, t);
                t = t + 1;
            }
            visited.set(k, true);
            if area[cx][cy] != 9 {
                proof {
                    assert(open_cell(area@, w as int, k as int));
                }
                count = count + 1;
                if cx > 0 {
                    work.push((cx - 1, cy));
                    proof {
                        par = par.push((cx as int, cy as int));
                    }
                }
                if cx + 1 < h {
                    work.push((cx + 1, cy));
                    proof {
                        par = par.push((cx as int, cy as int));
                    }
                }
                if cy > 0 {
                    work.push((cx, cy - 1));
                    proof {
                        par = par.push((cx as int, cy as int));
                    }
                }
                if cy + 1 < w {
                    work.push((cx, cy + 1));
                    proof {
                        par = par.push((cx as int, cy as int));
                    }
                }
            }
        }
        proof {
            assert(visited@[k as int]);
            assert forall|i: int| 0 <= i < wb.len() - 1 implies #[trigger] work@[i] == wb[i] by {}
            if !before[k as int] && area@[cx as int]@[cy as int] != 9 {
                let i0 = wb.len() - 1;
                let i1 = i0 + if cx > 0 { 1int } else { 0int };
                let i2 = i1 + if cx + 1 < h { 1int } else { 0int };
                let i3 = i2 + if cy > 0 { 1int } else { 0int };
                if cx > 0 {
                    assert(work@[i0] == ((cx - 1) as usize, cy));
                }
                if cx + 1 < h {
                    assert(work@[i1] == ((cx + 1) as usize, cy));
                }
                if cy > 0 {
                    assert(work@[i2] == (cx, (cy - 1) as usize));
                }
                if cy + 1 < w {
                    assert(work@[i3] == (cx, (cy + 1) as usize));
                }
            }
            lemma_closure_step(
                area@,
                a,
                before,
                wb,
                visited@,
                work@,
                h as int,
                w as int,
                cx as int,
                cy as int,
            );
            assert forall|i: int| 0 <= i < wb.len() - 1 implies #[trigger] work@[i] == wb[i] && par[i] == pb[i] by {}
            lemma_parents_step(
                area@,
                a,
                before,
                visited@,
                wb,
                pb,
                work@,
                par,
                h as int,
                w as int,
                x as int,
                y as int,
                cx as int,
                cy as int,
            );
            if !visited@[x * w + y] {
                lemma_flat_index(x as int, y as int, h as int, w as int);
                lemma_reach_kept(before, wb, visited@, work@, x as int, y as int, w as int, n);
            }
        }
    }
    proof {
        assert(visited@[x * w + y]);
        reveal(pending_closed);
    }
    count
}

/// Every one of `n` cells marked.
pub open spec fn all_cells(n: int) -> Seq<bool> {
    Seq::new(n as nat, |k: int| true)
}

pub open spec fn open_at(area: Seq<Vec<u8>>, x: int, y: int) -> bool {
    0 <= x < area.len() && 0 <= y < area[0]@.len() && area[x]@[y] != 9
}

/// Where `(nx, ny)` is no 9, it has the same basin number as `(x, y)`.
pub open spec fn same_basin(area: Seq<Vec<u8>>, label: Seq<int>, x: int, y: int, nx: int, ny: int) -> bool {
    let w = area[0]@.len() as int;
    open_at(area, nx, ny) ==> label[nx * w + ny] == label[x * w + y]
}

/// `(nx, ny)` is no 9, in the basin of `(x, y)`, and before it in `order`.
pub open spec fn joined(area: Seq<Vec<u8>>, label: Seq<int>, order: Seq<int>, x: int, y: int, nx: int, ny: int) -> bool {
    let w = area[0]@.len() as int;
    open_at(area, nx, ny) && label[nx * w + ny] == label[x * w + y] && order[nx * w + ny] < order[x
        * w + y]
}

/// `label` numbers the basins found so far, 0 to `roots.len() - 1`, giving
/// each marked cell that is no 9 its basin and every other cell -1. A basin
/// holds the open neighbours of its cells, and each of its cells but its root
/// has a neighbour in the basin that comes before it in `order`: following
/// those leads to the root, so the cells of a basin are joined through it.
/// Together: each basin is one region of cells that are no 9, joined side to
/// side, and no two basins touch.
#[verifier::opaque]
pub open spec fn basin_labels(
    area: Seq<Vec<u8>>,
    marked: Seq<bool>,
    label: Seq<int>,
    order: Seq<int>,
    roots: Seq<(int, int)>,
) -> bool {
    let h = area.len() as int;
    let w = area[0]@.len() as int;
    &&& label.len() == h * w
    &&& order.len() == h * w
    &&& forall|k: int|
        0 <= k < h * w ==> #[trigger] label[k] < roots.len() && (!marked[k] ==> label[k] == -1)
    &&& forall|x: int, y: int|
        0 <= x < h && 0 <= y < w ==> if marked[x * w + y] && area[x]@[y] != 9 {
            0 <= #[trigger] label[x * w + y] < roots.len()
        } else {
            label[x * w + y] == -1
        }
    &&& forall|x: int, y: int|
        0 <= x < h && 0 <= y < w && #[trigger] label[x * w + y] >= 0 ==> same_basin(
            area,
            label,
            x,
            y,
            x - 1,
            y,
        ) && same_basin(area, label, x, y, x + 1, y) && same_basin(area, label, x, y, x, y - 1)
            && same_basin(area, label, x, y, x, y + 1)
    &&& forall|i: int|
        0 <= i < roots.len() ==> 0 <= (#[trigger] roots[i]).0 < h && 0 <= roots[i].1 < w
            && label[roots[i].0 * w + roots[i].1] == i
    &&& forall|x: int, y: int|
        0 <= x < h && 0 <= y < w && #[trigger] label[x * w + y] >= 0 && roots[label[x * w + y]] != (
            x,
            y,
        ) ==> joined(area, label, order, x, y, x - 1, y) || joined(area, label, order, x, y, x + 1, y)
            || joined(area, label, order, x, y, x, y - 1) || joined(area, label, order, x, y, x, y + 1)
}

/// How many of the first `n` cells have basin number `i`.
pub open spec fn count_label(label: Seq<int>, i: int, n: int) -> int
    decreases n,
{
    if n <= 0 {
        0
    } else {
        count_label(label, i, n - 1) + if label[n - 1] == i {
            1int
        } else {
            0int
        }
    }
}

pub open spec fn relabel(area: Seq<Vec<u8>>, label: Seq<int>, before: Seq<bool>, after: Seq<bool>, m: int) -> Seq<int> {
    let w = area[0]@.len() as int;
    Seq::new(
        label.len(),
        |k: int|
            if after[k] && !before[k] && open_cell(area, w, k) {
                m
            } else {
                label[k]
            },
    )
}

pub open spec fn reorder(order: Seq<int>, before: Seq<bool>, after: Seq<bool>, d: Seq<int>) -> Seq<int> {
    Seq::new(order.len(), |k: int| if after[k] && !before[k] { d[k] } else { order[k] })
}

proof fn lemma_none_opened(area: Seq<Vec<u8>>, w: int, a: Seq<bool>, b: Seq<bool>, n: int)
    requires
        newly_opened(area, w, a, b, n) == 0,
    ensures
        forall|k: int| 0 <= k < n ==> !(#[trigger] b[k] && !a[k] && open_cell(area, w, k)),
    decreases n,
{
    if n > 0 {
        lemma_newly_opened_bound(area, w, a, b, n - 1);
        lemma_none_opened(area, w, a, b, n - 1);
    }
}

proof fn lemma_count_relabel(
    area: Seq<Vec<u8>>,
    label: Seq<int>,
    before: Seq<bool>,
    after: Seq<bool>,
    m: int,
    i: int,
    n: int,
)
    requires
        0 <= n <= label.len(),
        0 <= i <= m,
        forall|k: int| 0 <= k < n ==> #[trigger] label[k] < m && (!before[k] ==> label[k] == -1),
    ensures
        i < m ==> count_label(relabel(area, label, before, after, m), i, n) == count_label(label, i, n),
        i == m ==> count_label(relabel(area, label, before, after, m), i, n) == newly_opened(
            area,
            area[0]@.len() as int,
            before,
            after,
            n,
        ),
    decreases n,
{
    if n > 0 {
        lemma_count_relabel(area, label, before, after, m, i, n - 1);
    }
}

/// After a flood, a cell with a basin number shares it with each open
/// neighbour.
proof fn lemma_same_after(
    area: Seq<Vec<u8>>,
    before: Seq<bool>,
    after: Seq<bool>,
    label: Seq<int>,
    order: Seq<int>,
    roots: Seq<(int, int)>,
    cx: int,
    cy: int,
    nx: int,
    ny: int,
)
    requires
        is_grid(area),
        before.len() == area.len() * area[0]@.len(),
        after.len() == before.len(),
        0 <= cx < area.len(),
        0 <= cy < area[0]@.len(),
        (nx == cx && (ny == cy + 1 || ny == cy - 1)) || (ny == cy && (nx == cx + 1 || nx == cx - 1)),
        basin_labels(area, before, label, order, roots),
        forall|i: int| 0 <= i < before.len() && before[i] ==> #[trigger] after[i],
        basin_closed(area, before, after),
        relabel(area, label, before, after, roots.len() as int)[cx * area[0]@.len() + cy] >= 0,
    ensures
        same_basin(area, relabel(area, label, before, after, roots.len() as int), cx, cy, nx, ny),
{
    reveal(basin_labels);
    let h = area.len() as int;
    let w = area[0]@.len() as int;
    let m = roots.len() as int;
    let l2 = relabel(area, label, before, after, m);
    let c = cx * w + cy;
    lemma_flat_index(cx, cy, h, w);
    if open_at(area, nx, ny) {
        let k = nx * w + ny;
        lemma_flat_index(nx, ny, h, w);
        assert(open_cell(area, w, k));
        assert(open_cell(area, w, c) == (area[cx]@[cy] != 9));
        assert(label[c] == -1 || (before[c] && area[cx]@[cy] != 9));
        if after[c] && !before[c] && open_cell(area, w, c) {
            assert(after[k]);
            if before[k] {
                assert(0 <= label[k]);
                assert(same_basin(area, label, nx, ny, cx, cy));
                assert(false);
            }
        } else {
            assert(label[c] >= 0);
            assert(same_basin(area, label, cx, cy, nx, ny));
            assert(before[k]);
        }
    }
}

/// After a flood, each cell with a basin number, but its basin's root, has
/// a neighbour in the basin that comes before it.
proof fn lemma_joined_after(
    area: Seq<Vec<u8>>,
    before: Seq<bool>,
    after: Seq<bool>,
    label: Seq<int>,
    order: Seq<int>,
    roots: Seq<(int, int)>,
    d: Seq<int>,
    x: int,
    y: int,
    cx: int,
    cy: int,
)
    requires
        is_grid(area),
        before.len() == area.len() * area[0]@.len(),
        after.len() == before.len(),
        0 <= cx < area.len(),
        0 <= cy < area[0]@.len(),
        basin_labels(area, before, label, order, roots),
        forall|i: int| 0 <= i < before.len() && before[i] ==> #[trigger] after[i],
        flood_order(area, before, after, d, x, y),
        relabel(area, label, before, after, roots.len() as int)[cx * area[0]@.len() + cy] >= 0,
        roots.push((x, y))[relabel(area, label, before, after, roots.len() as int)[cx * area[0]@.len()
            + cy]] != (cx, cy),
    ensures
        ({
            let l2 = relabel(area, label, before, after, roots.len() as int);
            let o2 = reorder(order, before, after, d);
            joined(area, l2, o2, cx, cy, cx - 1, cy) || joined(area, l2, o2, cx, cy, cx + 1, cy)
                || joined(area, l2, o2, cx, cy, cx, cy - 1) || joined(area, l2, o2, cx, cy, cx, cy + 1)
        }),
{
    reveal(basin_labels);
    reveal(flood_order);
    let h = area.len() as int;
    let w = area[0]@.len() as int;
    let m = roots.len() as int;
    let l2 = relabel(area, label, before, after, m);
    let o2 = reorder(order, before, after, d);
    let c = cx * w + cy;
    lemma_flat_index(cx, cy, h, w);
    if cx > 0 {
        lemma_flat_index(cx - 1, cy, h, w);
    }
    if cx + 1 < h {
        lemma_flat_index(cx + 1, cy, h, w);
    }
    if cy > 0 {
        lemma_flat_index(cx, cy - 1, h, w);
    }
    if cy + 1 < w {
        lemma_flat_index(cx, cy + 1, h, w);
    }
    assert(open_cell(area, w, c) == (area[cx]@[cy] != 9));
    assert(label[c] == -1 || (before[c] && area[cx]@[cy] != 9));
    if after[c] && !before[c] && open_cell(area, w, c) {
        assert(!(cx == x && cy == y));
        assert(reached_from(area, before, after, d, h, w, cx, cy));
        if earlier_open(area, before, after, d, h, w, cx - 1, cy, c) {
            assert(joined(area, l2, o2, cx, cy, cx - 1, cy));
        } else if earlier_open(area, before, after, d, h, w, cx + 1, cy, c) {
            assert(joined(area, l2, o2, cx, cy, cx + 1, cy));
        } else if earlier_open(area, before, after, d, h, w, cx, cy - 1, c) {
            assert(joined(area, l2, o2, cx, cy, cx, cy - 1));
        } else {
            assert(joined(area, l2, o2, cx, cy, cx, cy + 1));
        }
    } else {
        assert(label[c] >= 0);
        assert(roots[label[c]] != (cx, cy));
        if joined(area, label, order, cx, cy, cx - 1, cy) {
            assert(joined(area, l2, o2, cx, cy, cx - 1, cy));
        } else if joined(area, label, order, cx, cy, cx + 1, cy) {
            assert(joined(area, l2, o2, cx, cy, cx + 1, cy));
        } else if joined(area, label, order, cx, cy, cx, cy - 1) {
            assert(joined(area, l2, o2, cx, cy, cx, cy - 1));
        } else {
            assert(joined(area, label, order, cx, cy, cx, cy + 1));
            assert(joined(area, l2, o2, cx, cy, cx, cy + 1));
        }
    }
}

proof fn lemma_new_root(area: Seq<Vec<u8>>, before: Seq<bool>, after: Seq<bool>, label: Seq<int>, m: int, x: int, y: int)
    requires
        is_grid(area),
        label.len() == area.len() * area[0]@.len(),
        0 <= x < area.len(),
        0 <= y < area[0]@.len(),
        after[x * area[0]@.len() + y],
        !before[x * area[0]@.len() + y],
        area[x]@[y] != 9,
    ensures
        relabel(area, label, before, after, m)[x * area[0]@.len() + y] == m,
{
    let w = area[0]@.len() as int;
    lemma_flat_index(x, y, area.len() as int, w);
    assert(open_cell(area, w, x * w + y));
}

proof fn lemma_labels_flat(
    area: Seq<Vec<u8>>,
    marked: Seq<bool>,
    label: Seq<int>,
    order: Seq<int>,
    roots: Seq<(int, int)>,
)
    requires
        basin_labels(area, marked, label, order, roots),
    ensures
        label.len() == area.len() * area[0]@.len(),
        forall|k: int|
            0 <= k < area.len() * area[0]@.len() ==> #[trigger] label[k] < roots.len() && (!marked[k]
                ==> label[k] == -1),
{
    reveal(basin_labels);
}

/// What one flood does to the basin numbers: with nothing new that is no 9
/// they stay; else the new cells that are no 9 form the next basin, rooted
/// at the cell the flood started from.
proof fn lemma_label_step(
    area: Seq<Vec<u8>>,
    before: Seq<bool>,
    after: Seq<bool>,
    label: Seq<int>,
    order: Seq<int>,
    roots: Seq<(int, int)>,
    d: Seq<int>,
    x: int,
    y: int,
    count: int,
)
    requires
        is_grid(area),
        before.len() == area.len() * area[0]@.len(),
        after.len() == before.len(),
        0 <= x < area.len(),
        0 <= y < area[0]@.len(),
        basin_labels(area, before, label, order, roots),
        forall|i: int| 0 <= i < before.len() && before[i] ==> #[trigger] after[i],
        basin_closed(area, before, after),
        flood_order(area, before, after, d, x, y),
        count == newly_opened(area, area[0]@.len() as int, before, after, before.len() as int),
        count > 0 ==> !before[x * area[0]@.len() + y] && area[x]@[y] != 9,
        after[x * area[0]@.len() + y],
    ensures
        count == 0 ==> basin_labels(area, after, label, order, roots),
        count > 0 ==> basin_labels(
            area,
            after,
            relabel(area, label, before, after, roots.len() as int),
            reorder(order, before, after, d),
            roots.push((x, y)),
        ),
{
    let h = area.len() as int;
    let w = area[0]@.len() as int;
    let n = h * w;
    let m = roots.len() as int;
    lemma_newly_opened_bound(area, w, before, after, n);
    if count == 0 {
        lemma_none_opened(area, w, before, after, n);
        reveal(basin_labels);
        assert forall|cx: int, cy: int| 0 <= cx < h && 0 <= cy < w implies if after[cx * w + cy]
            && area[cx]@[cy] != 9 {
            0 <= #[trigger] label[cx * w + cy] < m
        } else {
            label[cx * w + cy] == -1
        } by {
            lemma_flat_index(cx, cy, h, w);
            assert(open_cell(area, w, cx * w + cy) == (area[cx]@[cy] != 9));
            assert(label[cx * w + cy] == -1 || (before[cx * w + cy] && area[cx]@[cy] != 9));
        }
        assert forall|k: int| 0 <= k < n implies #[trigger] label[k] < m && (!after[k] ==> label[k]
            == -1) by {
            if !after[k] {
                assert(!before[k]);
            }
        }
    } else {
        let l2 = relabel(area, label, before, after, m);
        let o2 = reorder(order, before, after, d);
        let r2 = roots.push((x, y));
        assert forall|cx: int, cy: int|
            0 <= cx < h && 0 <= cy < w && #[trigger] l2[cx * w + cy] >= 0 implies same_basin(
            area,
            l2,
            cx,
            cy,
            cx - 1,
            cy,
        ) && same_basin(area, l2, cx, cy, cx + 1, cy) && same_basin(area, l2, cx, cy, cx, cy - 1)
            && same_basin(area, l2, cx, cy, cx, cy + 1) by {
            lemma_same_after(area, before, after, label, order, roots, cx, cy, cx - 1, cy);
            lemma_same_after(area, before, after, label, order, roots, cx, cy, cx + 1, cy);
            lemma_same_after(area, before, after, label, order, roots, cx, cy, cx, cy - 1);
            lemma_same_after(area, before, after, label, order, roots, cx, cy, cx, cy + 1);
        }
        assert forall|cx: int, cy: int|
            0 <= cx < h && 0 <= cy < w && #[trigger] l2[cx * w + cy] >= 0 && r2[l2[cx * w + cy]] != (
                cx,
                cy,
            ) implies joined(area, l2, o2, cx, cy, cx - 1, cy) || joined(area, l2, o2, cx, cy, cx + 1, cy)
            || joined(area, l2, o2, cx, cy, cx, cy - 1) || joined(area, l2, o2, cx, cy, cx, cy + 1) by {
            lemma_joined_after(area, before, after, label, order, roots, d, x, y, cx, cy);
        }
        reveal(basin_labels);
        lemma_flat_index(x, y, h, w);
        assert forall|k: int| 0 <= k < n implies #[trigger] l2[k] < r2.len() && (!after[k] ==> l2[k]
            == -1) by {
            if !after[k] {
                assert(!before[k]);
            }
        }
        assert forall|cx: int, cy: int| 0 <= cx < h && 0 <= cy < w implies if after[cx * w + cy]
            && area[cx]@[cy] != 9 {
            0 <= #[trigger] l2[cx * w + cy] < r2.len()
        } else {
            l2[cx * w + cy] == -1
        } by {
            lemma_flat_index(cx, cy, h, w);
            assert(open_cell(area, w, cx * w + cy) == (area[cx]@[cy] != 9));
            assert(label[cx * w + cy] == -1 || (before[cx * w + cy] && area[cx]@[cy] != 9));
        }
        assert forall|i: int| 0 <= i < r2.len() implies 0 <= (#[trigger] r2[i]).0 < h && 0 <= r2[i].1
            < w && l2[r2[i].0 * w + r2[i].1] == i by {
            if i < m {
                let (rx, ry) = roots[i];
                lemma_flat_index(rx, ry, h, w);
                assert(r2[i] == roots[i]);
                assert(label[rx * w + ry] == i);
                assert(before[rx * w + ry]);
                assert(l2[rx * w + ry] == label[rx * w + ry]);
            } else {
                lemma_new_root(area, before, after, label, m, x, y);
                assert(r2[i] == (x, y));
            }
        }
    }
}

/// The product of the (up to) three last, that is largest, of ascending `t`.
pub open spec fn top_three_product(t: Seq<u64>) -> int {
    let n = t.len() as int;
    if n == 0 {
        1
    } else if n == 1 {
        t[0] as int
    } else if n == 2 {
        t[0] * t[1]
    } else {
        t[n - 1] * t[n - 2] * t[n - 3]
    }
}

pub open spec fn seq_sum(s: Seq<u64>) -> int
    decreases s.len(),
{
    if s.len() == 0 {
        0
    } else {
        seq_sum(s.drop_last()) + s.last()
    }
}

/// How many of the first `n` cells are no 9.
pub open spec fn open_count(area: Seq<Vec<u8>>, w: int, n: int) -> int
    decreases n,
{
    if n <= 0 {
        0
    } else {
        open_count(area, w, n - 1) + if open_cell(area, w, n - 1) {
            1int
        } else {
            0int
        }
    }
}

proof fn lemma_newly_opened_chain(
    area: Seq<Vec<u8>>,
    w: int,
    a: Seq<bool>,
    b: Seq<bool>,
    c: Seq<bool>,
    n: int,
)
    requires
        a.len() == b.len() == c.len(),
        n <= a.len(),
        forall|i: int| 0 <= i < a.len() && a[i] ==> #[trigger] b[i],
        forall|i: int| 0 <= i < a.len() && b[i] ==> #[trigger] c[i],
    ensures
        newly_opened(area, w, a, c, n) == newly_opened(area, w, a, b, n) + newly_opened(
            area,
            w,
            b,
            c,
            n,
        ),
    decreases n,
{
    if n > 0 {
        lemma_newly_opened_chain(area, w, a, b, c, n - 1);
    }
}

proof fn lemma_all_opened(area: Seq<Vec<u8>>, w: int, a: Seq<bool>, c: Seq<bool>, n: int)
    requires
        n <= a.len(),
        a.len() == c.len(),
        forall|i: int| 0 <= i < a.len() ==> !#[trigger] a[i],
        forall|i: int| 0 <= i < c.len() ==> #[trigger] c[i],
    ensures
        newly_opened(area, w, a, c, n) == open_count(area, w, n),
    decreases n,
{
    if n > 0 {
        lemma_all_opened(area, w, a, c, n - 1);
    }
}

proof fn lemma_newly_opened_bound(area: Seq<Vec<u8>>, w: int, a: Seq<bool>, b: Seq<bool>, n: int)
    ensures
        0 <= newly_opened(area, w, a, b, n),
        n >= 0 ==> newly_opened(area, w, a, b, n) <= n,
    decreases n,
{
    if n > 0 {
        lemma_newly_opened_bound(area, w, a, b, n - 1);
    }
}

/// The product of the sizes of the three largest basins. The basins are the
/// regions of cells that are no 9, joined side to side: `basin_labels` over
/// the whole grid numbers them, and the size of basin `i` is the number of
/// cells numbered `i`.
pub fn part2(input: &[Vec<u8>]) -> (r: u64)
    requires
        is_grid(input@),
        input@.len() * input@[0]@.len() <= 2_000_000,
    ensures
        exists|basins: Seq<u64>, label: Seq<int>, order: Seq<int>, roots: Seq<(int, int)>|
            #![trigger basin_labels(input@, all_cells((input@.len() * input@[0]@.len()) as int), label, order, roots), basins.to_multiset()]
            basin_labels(
                input@,
                all_cells((input@.len() * input@[0]@.len()) as int),
                label,
                order,
                roots,
            ) && basins.len() == roots.len() && (forall|i: int|
                0 <= i < basins.len() ==> #[trigger] basins[i] == count_label(
                    label,
                    i,
                    (input@.len() * input@[0]@.len()) as int,
                )) && exists|t: Seq<u64>|
                #![trigger t.to_multiset()]
                t.to_multiset() == basins.to_multiset() && (forall|i: int, j: int|
                    0 <= i <= j < t.len() ==> t[i] <= t[j]) && r == top_three_product(t),
{
    let h = input.len();
    let w = input[0].len();
    let total = h * w;
    let mut visited: Vec<bool> = Vec::new();
    let mut k: usize = 0;
    while k < total
        invariant
            k <= total,
            visited@.len() == k,
            forall|i: int| 0 <= i < k ==> !#[trigger] visited@[i],
        decreases total - k,
    {
        visited.push(false);
        k = k + 1;
    }
    let ghost start = visited@;
    let ghost mut label: Seq<int> = Seq::new(total as nat, |k: int| -1);
    let ghost mut order: Seq<int> = Seq::new(total as nat, |k: int| 0);
    let ghost mut roots: Seq<(int, int)> = seq![];
    proof {
        lemma_nothing_new(input@, w as int, start, total as int);
        reveal(basin_labels);
        assert forall|cx: int, cy: int| 0 <= cx < h && 0 <= cy < w implies #[trigger] label[cx * w + cy] == -1 && !visited@[cx * w + cy] by {
            lemma_flat_index(cx, cy, h as int, w as int);
        }
        assert(basin_labels(input@, visited@, label, order, roots));
    }
    let mut basins: Vec<u64> = Vec::new();
    let mut x: usize = 0;
    while x < h
        invariant
            x <= h,
            h == input@.len(),
            w == input@[0]@.len(),
            total == h * w,
            total <= 2_000_000,
            is_grid(input@),
            visited@.len() == total,
            start.len() == total,
            forall|i: int| 0 <= i < total ==> !#[trigger] start[i],
            forall|i: int| 0 <= i < x * w ==> #[trigger] visited@[i],
            forall|i: int| 0 <= i < basins@.len() ==> #[trigger] basins@[i] >= 1,
            seq_sum(basins@) == newly_opened(input@, w as int, start, visited@, total as int),
            basin_labels(input@, visited@, label, order, roots),
            roots.len() == basins@.len(),
            forall|i: int| 0 <= i < basins@.len() ==> #[trigger] basins@[i] == count_label(label, i, total as int),
        decreases h - x,
    {
        let mut y: usize = 0;
        while y < w
            invariant
                y <= w,
                x < h,
                h == input@.len(),
                w == input@[0]@.len(),
                total == h * w,
                total <= 2_000_000,
                is_grid(input@),
                visited@.len() == total,
                start.len() == total,
                forall|i: int| 0 <= i < total ==> !#[trigger] start[i],
                forall|i: int| 0 <= i < x * w + y ==> #[trigger] visited@[i],
                forall|i: int| 0 <= i < basins@.len() ==> #[trigger] basins@[i] >= 1,
                seq_sum(basins@) == newly_opened(input@, w as int, start, visited@, total as int),
                basin_labels(input@, visited@, label, order, roots),
                roots.len() == basins@.len(),
                forall|i: int| 0 <= i < basins@.len() ==> #[trigger] basins@[i] == count_label(label, i, total as int),
            decreases w - y,
        {
            let ghost before = visited@;
            proof {
                lemma_flat_index(x as int, y as int, h as int, w as int);
            }
            let basin = flood_basin(&mut visited, input, x, y);
            proof {
                let d = choose|d: Seq<int>| flood_order(input@, before, visited@, d, x as int, y as int);
                lemma_label_step(input@, before, visited@, label, order, roots, d, x as int, y as int, basin as int);
                if basin > 0 {
                    let m = roots.len() as int;
                    lemma_labels_flat(input@, before, label, order, roots);
                    let nl = relabel(input@, label, before, visited@, m);
                    assert forall|i: int| 0 <= i < m implies #[trigger] count_label(nl, i, total as int) == count_label(label, i, total as int) by {
                        lemma_count_relabel(input@, label, before, visited@, m, i, total as int);
                    }
                    lemma_count_relabel(input@, label, before, visited@, m, m, total as int);
                    assert(count_label(nl, m, total as int) == basin);
                    assert forall|i: int| 0 <= i < m implies #[trigger] count_label(nl, i, total as int) == basins@[i] by {
                        assert(count_label(nl, i, total as int) == count_label(label, i, total as int));
                    }
                    label = nl;
                    order = reorder(order, before, visited@, d);
                    roots = roots.push((x as int, y as int));
                }
                lemma_newly_opened_chain(input@, w as int, start, before, visited@, total as int);
                lemma_newly_opened_bound(input@, w as int, before, visited@, total as int);
                assert((x * w + y) + 1 == x * w + (y + 1));
            }
            if basin > 0 {
                let ghost bb = basins@;
                basins.push(basin as u64);
                assert(basins@.drop_last() == bb);
                assert forall|i: int| 0 <= i < basins@.len() implies #[trigger] basins@[i] == count_label(label, i, total as int) by {
                    if i < bb.len() {
                        assert(basins@[i] == bb[i]);
                    }
                }
            }
            y = y + 1;
        }
        proof {
            assert(x * w + w == (x + 1) * w) by (nonlinear_arith);
        }
        x = x + 1;
    }
    proof {
        lemma_all_opened(input@, w as int, start, visited@, total as int);
    }
    let sorted = sorted_u64(basins.as_slice());
    let n = sorted.len();
    proof {
        assert forall|i: int| 0 <= i < n implies #[trigger] sorted@[i] <= 2_000_000 by {
            vstd::seq_lib::to_multiset_contains(sorted@, sorted@[i]);
            vstd::seq_lib::to_multiset_contains(basins@, sorted@[i]);
            let j = choose|j: int| 0 <= j < basins@.len() && basins@[j] == sorted@[i];
            lemma_basin_le_sum(basins@, j);
            lemma_newly_opened_bound(input@, w as int, start, visited@, total as int);
        }
    }
    let r: u64 = if n == 0 {
        1
    } else if n == 1 {
        sorted[0]
    } else if n == 2 {
        proof {
            assert(sorted@[0] * sorted@[1] <= 4_000_000_000_000) by (nonlinear_arith)
                requires
                    sorted@[0] <= 2_000_000,
                    sorted@[1] <= 2_000_000,
            ;
        }
        sorted[0] * sorted[1]
    } else {
        let a = sorted[n - 1];
        let b = sorted[n - 2];
        let c = sorted[n - 3];
        proof {
            assert(a * b <= 4_000_000_000_000) by (nonlinear_arith)
                requires
                    a <= 2_000_000,
                    b <= 2_000_000,
            ;
            assert(a * b * c <= 8_000_000_000_000_000_000) by (nonlinear_arith)
                requires
                    a * b <= 4_000_000_000_000,
                    c <= 2_000_000,
            ;
        }
        a * b * c
    };
    assert(r == top_three_product(sorted@));
    assert(seq_sum(basins@) == open_count(input@, w as int, total as int));
    assert(forall|i: int| 0 <= i < basins@.len() ==> #[trigger] basins@[i] >= 1);
    assert(sorted@.to_multiset() == basins@.to_multiset());
    proof {
        assert(visited@ =~= all_cells(total as int));
    }
    r
}

proof fn lemma_basin_le_sum(s: Seq<u64>, j: int)
    requires
        0 <= j < s.len(),
    ensures
        s[j] <= seq_sum(s),
    decreases s.len(),
{
    lemma_seq_sum_nonneg(s.drop_last());
    if j < s.len() - 1 {
        lemma_basin_le_sum(s.drop_last(), j);
    }
}

proof fn lemma_seq_sum_nonneg(s: Seq<u64>)
    ensures
        seq_sum(s) >= 0,
    decreases s.len(),
{
    if s.len() > 0 {
        lemma_seq_sum_nonneg(s.drop_last());
    }
}

} // verus!
