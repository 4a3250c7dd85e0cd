use vstd::prelude::*;

use crate::text::{chars_of, decimal, parse_i32, pieces, same_chars, split_on};

verus! {

/// A dot on the transparent paper.
#[derive(Clone, Copy, PartialEq, Eq, Structural, Debug)]
pub struct Point {
    pub x: i32,
    pub y: i32,
}

/// A fold up along `y = v` (`Horizontal`) or left along `x = v` (`Vertical`).
#[derive(Clone, Copy, PartialEq, Eq, Structural, Debug)]
pub enum Fold {
    Horizontal(i32),
    Vertical(i32),
}

pub open spec fn on_line(p: Point, f: Fold) -> bool {
    match f {
        Fold::Horizontal(v) => p.y == v,
        Fold::Vertical(v) => p.x == v,
    }
}

/// Where a dot lands: dots beyond the line are mirrored onto the near side.
pub open spec fn reflect(p: Point, f: Fold) -> Point {
    match f {
        Fold::Horizontal(v) => if p.y > v {
            Point { x: p.x, y: (2 * v - p.y) as i32 }
        } else {
            p
        },
        Fold::Vertical(v) => if p.x > v {
            Point { x: (2 * v - p.x) as i32, y: p.y }
        } else {
            p
        },
    }
}

pub open spec fn folded(sheet: Set<Point>, f: Fold) -> Set<Point> {
    sheet.map(|p: Point| reflect(p, f))
}

/// The dots after the first `k` folds.
pub open spec fn fold_all(sheet: Set<Point>, folds: Seq<Fold>, k: int) -> Set<Point>
    decreases k,
{
    if k <= 0 {
        sheet
    } else {
        folded(fold_all(sheet, folds, k - 1), folds[k - 1])
    }
}

/// Mirroring `p` in `f` stays within `i32`: the distance past the line and
/// the mirrored coordinate both fit.
pub open spec fn reflect_fits(p: Point, f: Fold) -> bool {
    match f {
        Fold::Horizontal(v) => p.y > v ==> p.y - v <= i32::MAX && 2 * v - p.y >= i32::MIN,
        Fold::Vertical(v) => p.x > v ==> p.x - v <= i32::MAX && 2 * v - p.x >= i32::MIN,
    }
}

/// `p` can be folded along `f`: it does not lie on the line, and its mirror
/// image fits `i32`.
pub open spec fn fold_ok(p: Point, f: Fold) -> bool {
    !on_line(p, f) && reflect_fits(p, f)
}

/// Each of the first `k` folds can fold every dot it meets.
pub open spec fn folds_ok(sheet: Set<Point>, folds: Seq<Fold>, k: int) -> bool {
    forall|i: int, p: Point|
        0 <= i < k && #[trigger] fold_all(sheet, folds, i).contains(p) ==> fold_ok(p, folds[i])
}

/// Folds the sheet: each dot lands where `reflect` puts it, and dots that
/// land together become one.
pub fn fold_sheet(sheet: &Vec<Point>, fold: &Fold) -> (r: Option<Vec<Point>>)
    requires
        sheet@.no_duplicates(),
    ensures
        match r {
            Some(v) => (forall|i: int| 0 <= i < sheet@.len() ==> fold_ok(#[trigger] sheet@[i], *fold))
                && v@.no_duplicates() && v@.to_set() == folded(sheet@.to_set(), *fold),
            None => exists|i: int| 0 <= i < sheet@.len() && !fold_ok(#[trigger] sheet@[i], *fold),
        },
{
    let mut out: Vec<Point> = Vec::new();
    let mut i: usize = 0;
    while i < sheet.len()
        invariant
            i <= sheet@.len(),
            forall|j: int| 0 <= j < i ==> fold_ok(#[trigger] sheet@[j], *fold),
            out@.no_duplicates(),
            forall|q: Point|
                out@.contains(q) <==> exists|j: int| 0 <= j < i && reflect(sheet@[j], *fold) == q,
        decreases sheet@.len() - i,
    {
        let p = sheet[i];
        let mirrored = match fold {
            Fold::Horizontal(v) => if p.y == *v {
                None
            } else if p.y > *v {
                match p.y.checked_sub(*v) {
                    Some(dist) => match v.checked_sub(dist) {
                        Some(ny) => Some(Point { x: p.x, y: ny }),
                        None => None,
                    },
                    None => None,
                }
            } else {
                Some(p)
            },
            Fold::Vertical(v) => if p.x == *v {
                None
            } else if p.x > *v {
                match p.x.checked_sub(*v) {
                    Some(dist) => match v.checked_sub(dist) {
                        Some(nx) => Some(Point { x: nx, y: p.y }),
                        None => None,
                    },
                    None => None,
                }
            } else {
                Some(p)
            },
        };
        let q = match mirrored {
            Some(q) => q,
            None => {
                assert(!fold_ok(sheet@[i as int], *fold));
                return None;
            },
        };
        assert(fold_ok(sheet@[i as int], *fold));
        assert(q == reflect(sheet@[i as int], *fold));
        let mut seen = false;
        let mut k: usize = 0;
        while k < out.len()
            invariant
                k <= out@.len(),
                seen == exists|j: int| 0 <= j < k && out@[j] == q,
            decreases out@.len() - k,
        {
            if out[k] == q {
                seen = true;
            }
            k = k + 1;
        }
        let ghost old_out = out@;
        if !seen {
            out.push(q);
            proof {
                assert forall|a: int, b: int| 0 <= a < b < out@.len() implies out@[a] != out@[b] by {
                    if b == out@.len() - 1 {
                        assert(out@[a] == old_out[a]);
                    } else {
                        assert(old_out[a] != old_out[b]);
                    }
                }
            }
        }
        proof {
            assert forall|r: Point| out@.contains(r) <==> exists|j: int|
                0 <= j < i + 1 && reflect(sheet@[j], *fold) == r by {
                if out@.contains(r) && r != q {
                    let t = choose|t: int| 0 <= t < out@.len() && out@[t] == r;
                    assert(old_out.contains(r)) by {
                        assert(old_out[t] == r);
                    }
                }
                if exists|j: int| 0 <= j < i + 1 && reflect(sheet@[j], *fold) == r {
                    let j = choose|j: int| 0 <= j < i + 1 && reflect(sheet@[j], *fold) == r;
                    if j < i {
                        assert(old_out.contains(r));
                        let t = choose|t: int| 0 <= t < old_out.len() && old_out[t] == r;
                        assert(out@[t] == r);
                    } else if seen {
                        let t = choose|t: int| 0 <= t < old_out.len() && old_out[t] == q;
                        assert(out@[t] == r);
                    } else {
                        assert(out@[out@.len() - 1] == r);
                    }
                }
            }
        }
        i = i + 1;
    }
    proof {
        assert forall|q: Point| out@.to_set().contains(q) <==> folded(sheet@.to_set(), *fold).contains(q) by {
            if out@.contains(q) {
                let j = choose|j: int| 0 <= j < sheet@.len() && reflect(sheet@[j], *fold) == q;
                assert(sheet@.to_set().contains(sheet@[j]));
            }
            if folded(sheet@.to_set(), *fold).contains(q) {
                let p = choose|p: Point| sheet@.to_set().contains(p) && reflect(p, *fold) == q;
                let j = choose|j: int| 0 <= j < sheet@.len() && sheet@[j] == p;
            }
        }
        assert(out@.to_set() =~= folded(sheet@.to_set(), *fold));
    }
    Some(out)
}

/// The dots without repeats, in first-seen order.
fn to_sheet(points: &[Point]) -> (r: Vec<Point>)
    ensures
        r@.no_duplicates(),
        r@.to_set() == points@.to_set(),
        forall|i: int| 0 <= i < r@.len() ==> points@.contains(#[trigger] r@[i]),
{
    let mut out: Vec<Point> = Vec::new();
    let mut i: usize = 0;
    while i < points.len()
        invariant
            i <= points@.len(),
            out@.no_duplicates(),
            forall|q: Point| out@.contains(q) <==> exists|j: int| 0 <= j < i && points@[j] == q,
        decreases points@.len() - i,
    {
        let q = points[i];
        let mut seen = false;
        let mut k: usize = 0;
        while k < out.len()
            invariant
                k <= out@.len(),
                seen == exists|j: int| 0 <= j < k && out@[j] == q,
            decreases out@.len() - k,
        {
            if out[k] == q {
                seen = true;
            }
            k = k + 1;
        }
        let ghost old_out = out@;
        if !seen {
            out.push(q);
            proof {
                assert forall|a: int, b: int| 0 <= a < b < out@.len() implies out@[a] != out@[b] by {
                    if b == out@.len() - 1 {
                        assert(out@[a] == old_out[a]);
                    } else {
                        assert(old_out[a] != old_out[b]);
                    }
                }
            }
        }
        proof {
            assert forall|r: Point| out@.contains(r) <==> exists|j: int|
                0 <= j < i + 1 && points@[j] == r by {
                if out@.contains(r) && r != q {
                    let t = choose|t: int| 0 <= t < out@.len() && out@[t] == r;
                    assert(old_out.contains(r)) by {
                        assert(old_out[t] == r);
                    }
                }
                if exists|j: int| 0 <= j < i + 1 && points@[j] == r {
                    let j = choose|j: int| 0 <= j < i + 1 && points@[j] == r;
                    if j < i {
                        assert(old_out.contains(r));
                        let t = choose|t: int| 0 <= t < old_out.len() && old_out[t] == r;
                        assert(out@[t] == r);
                    } else if seen {
                        let t = choose|t: int| 0 <= t < old_out.len() && old_out[t] == q;
                        assert(out@[t] == r);
                    } else {
                        assert(out@[out@.len() - 1] == r);
                    }
                }
            }
        }
        i = i + 1;
    }
    proof {
        assert forall|i: int| 0 <= i < out@.len() implies points@.contains(#[trigger] out@[i]) by {
            assert(out@.contains(out@[i]));
        }
        assert(out@.to_set() =~= points@.to_set());
    }
    out
}

/// The number of dots left after the first fold; `None` where there is no
/// fold, or a dot lies on its line or would be mirrored out of `i32`.
pub fn part1(points: &[Point], folds: &[Fold]) -> (r: Option<usize>)
    ensures
        match r {
            Some(n) => folds@.len() > 0 && (forall|p: Point|
                #[trigger] points@.to_set().contains(p) ==> fold_ok(p, folds@[0])) && n == folded(
                points@.to_set(),
                folds@[0],
            ).len(),
            None => folds@.len() == 0 || exists|p: Point|
                #[trigger] points@.to_set().contains(p) && !fold_ok(p, folds@[0]),
        },
{
    if folds.len() == 0 {
        return None;
    }
    let sheet = to_sheet(points);
    match fold_sheet(&sheet, &folds[0]) {
        Some(folded_sheet) => {
            proof {
                folded_sheet@.unique_seq_to_set();
                assert forall|p: Point| #[trigger] points@.to_set().contains(p) implies fold_ok(p, folds@[0]) by {
                    assert(sheet@.to_set().contains(p));
                    let i = choose|i: int| 0 <= i < sheet@.len() && sheet@[i] == p;
                    assert(fold_ok(sheet@[i], folds@[0]));
                }
            }
            Some(folded_sheet.len())
        },
        None => {
            proof {
                let i = choose|i: int| 0 <= i < sheet@.len() && !fold_ok(#[trigger] sheet@[i], folds@[0]);
                assert(sheet@.to_set().contains(sheet@[i]));
                assert(points@.to_set().contains(sheet@[i]));
            }
            None
        },
    }
}

/// Every dot lies in the picture: 40 columns, 6 rows.
pub open spec fn in_picture(sheet: Set<Point>) -> bool {
    forall|p: Point| #[trigger] sheet.contains(p) ==> 0 <= p.x < 40 && 0 <= p.y < 6
}

/// The number of dots after every fold, and the picture they draw: 6 rows of
/// 40 characters, '#' where a dot is, ' ' elsewhere. `None` where a fold
/// meets a dot on its line or would mirror one out of `i32`, or a dot ends
/// outside the picture.
pub fn part2(points: &[Point], folds: &[Fold]) -> (r: Option<(usize, Vec<Vec<char>>)>)
    ensures
        r is Some <==> folds_ok(points@.to_set(), folds@, folds@.len() as int) && in_picture(
            fold_all(points@.to_set(), folds@, folds@.len() as int),
        ),
        r matches Some((count, picture)) ==> count == fold_all(
            points@.to_set(),
            folds@,
            folds@.len() as int,
        ).len() && picture@.len() == 6 && (forall|y: int|
            0 <= y < 6 ==> (#[trigger] picture@[y])@.len() == 40) && forall|y: int, x: int|
            0 <= y < 6 && 0 <= x < 40 ==> (#[trigger] picture@[y]@[x] == '#' <==> fold_all(
                points@.to_set(),
                folds@,
                folds@.len() as int,
            ).contains(Point { x: x as i32, y: y as i32 })) && (picture@[y]@[x] == '#'
                || picture@[y]@[x] == ' '),
{
    let mut sheet = to_sheet(points);
    let ghost start = points@.to_set();
    let mut k: usize = 0;
    while k < folds.len()
        invariant
            k <= folds@.len(),
            start == points@.to_set(),
            folds_ok(start, folds@, k as int),
            sheet@.no_duplicates(),
            sheet@.to_set() == fold_all(start, folds@, k as int),
        decreases folds@.len() - k,
    {
        match fold_sheet(&sheet, &folds[k]) {
            Some(next) => {
                proof {
                    assert forall|i: int, p: Point|
                        0 <= i < k + 1 && #[trigger] fold_all(start, folds@, i).contains(p) implies fold_ok(p, folds@[i]) by {
                        if i == k {
                            assert(sheet@.to_set().contains(p));
                            let j = choose|j: int| 0 <= j < sheet@.len() && sheet@[j] == p;
                            assert(fold_ok(sheet@[j], folds@[k as int]));
                        }
                    }
                }
                sheet = next;
            },
            None => {
                proof {
                    let j = choose|j: int| 0 <= j < sheet@.len() && !fold_ok(#[trigger] sheet@[j], folds@[k as int]);
                    assert(sheet@.to_set().contains(sheet@[j]));
                    assert(fold_all(start, folds@, k as int).contains(sheet@[j]));
                }
                return None;
            },
        }
        k = k + 1;
    }
    let ghost fin = fold_all(start, folds@, folds@.len() as int);
    let mut i: usize = 0;
    while i < sheet.len()
        invariant
            i <= sheet@.len(),
            sheet@.to_set() == fin,
            fin == fold_all(points@.to_set(), folds@, folds@.len() as int),
            folds_ok(points@.to_set(), folds@, folds@.len() as int),
            forall|j: int| 0 <= j < i ==> 0 <= (#[trigger] sheet@[j]).x < 40 && 0 <= sheet@[j].y < 6,
        decreases sheet@.len() - i,
    {
        let p = sheet[i];
        if p.x < 0 || p.x >= 40 || p.y < 0 || p.y >= 6 {
            proof {
                assert(sheet@.to_set().contains(sheet@[i as int]));
                assert(fin.contains(sheet@[i as int]));
                assert(!in_picture(fin));
            }
            return None;
        }
        i = i + 1;
    }
    proof {
        assert forall|p: Point| #[trigger] fin.contains(p) implies 0 <= p.x < 40 && 0 <= p.y < 6 by {
            assert(sheet@.to_set().contains(p));
            let j = choose|j: int| 0 <= j < sheet@.len() && sheet@[j] == p;
        }
    }
    let mut picture: Vec<Vec<char>> = Vec::new();
    let mut y: usize = 0;
    while y < 6
        invariant
            y <= 6,
            sheet@.to_set() == fin,
            picture@.len() == y,
            forall|yy: int| 0 <= yy < y ==> (#[trigger] picture@[yy])@.len() == 40,
            forall|yy: int, x: int|
                0 <= yy < y && 0 <= x < 40 ==> (#[trigger] picture@[yy]@[x] == '#' <==> fin.contains(
                    Point { x: x as i32, y: yy as i32 },
                )) && (picture@[yy]@[x] == '#' || picture@[yy]@[x] == ' '),
        decreases 6 - y,
    {
        let mut line: Vec<char> = Vec::new();
        let mut x: usize = 0;
        while x < 40
            invariant
                x <= 40,
                y < 6,
                sheet@.to_set() == fin,
                line@.len() == x,
                forall|xx: int|
                    0 <= xx < x ==> (#[trigger] line@[xx] == '#' <==> fin.contains(
                        Point { x: xx as i32, y: y as i32 },
                    )) && (line@[xx] == '#' || line@[xx] == ' '),
            decreases 40 - x,
        {
            let here = Point { x: x as i32, y: y as i32 };
            let mut found = false;
            let mut j: usize = 0;
            while j < sheet.len()
                invariant
                    j <= sheet@.len(),
                    found == exists|t: int| 0 <= t < j && sheet@[t] == here,
                decreases sheet@.len() - j,
            {
                if sheet[j] == here {
                    found = true;
                }
                j = j + 1;
            }
            proof {
                assert(found == sheet@.contains(here));
                assert(sheet@.to_set().contains(here) == sheet@.contains(here));
            }
            line.push(
                if found {
                    '#'
                } else {
                    ' '
                },
            );
            x = x + 1;
        }
        picture.push(line);
        y = y + 1;
    }
    proof {
        sheet@.unique_seq_to_set();
    }
    Some((sheet.len(), picture))
}

pub open spec fn int_of(p: Seq<char>) -> Option<i32> {
    match decimal(p) {
        Some(x) => if i32::MIN <= x <= i32::MAX {
            Some(x as i32)
        } else {
            None
        },
        None => None,
    }
}

/// What one input line adds: a line starting "fold" is "fold along y=v"
/// (or any other text before "=", for a fold along x); any other line that
/// is not empty is a dot "x,y". `Err` where a line has not that form.
pub open spec fn entry_of(line: Seq<char>) -> Result<Option<Result<Point, Fold>>, ()> {
    if line.len() >= 4 && line.take(4) == "fold"@ {
        let q = pieces(line, '=');
        if q.len() != 2 {
            Err(())
        } else {
            match int_of(q[1]) {
                Some(v) => Ok(Some(Err(if q[0] == "fold along y"@ {
                    Fold::Horizontal(v)
                } else {
                    Fold::Vertical(v)
                }))),
                None => Err(()),
            }
        }
    } else if line.len() == 0 {
        Ok(None)
    } else {
        let q = pieces(line, ',');
        if q.len() != 2 {
            Err(())
        } else {
            match (int_of(q[0]), int_of(q[1])) {
                (Some(x), Some(y)) => Ok(Some(Ok(Point { x, y }))),
                _ => Err(()),
            }
        }
    }
}

/// The dots and folds of the first `k` lines, in order.
pub open spec fn sheet_of(lines: Seq<String>, k: int) -> Option<(Seq<Point>, Seq<Fold>)>
    decreases k,
{
    if k <= 0 {
        Some((seq![], seq![]))
    } else {
        match sheet_of(lines, k - 1) {
            None => None,
            Some((ps, fs)) => match entry_of(lines[k - 1]@) {
                Ok(Some(Ok(p))) => Some((ps.push(p), fs)),
                Ok(Some(Err(f))) => Some((ps, fs.push(f))),
                Ok(None) => Some((ps, fs)),
                Err(_) => None,
            },
        }
    }
}

proof fn lemma_sheet_fail(lines: Seq<String>, k: int, n: int)
    requires
        1 <= k <= n,
        sheet_of(lines, k) is None,
    ensures
        sheet_of(lines, n) is None,
    decreases n,
{
    if k < n {
        lemma_sheet_fail(lines, k, n - 1);
    }
}

fn read_entry(line: &str) -> (r: Result<Option<Result<Point, Fold>>, ()>)
    ensures
        r == entry_of(line@),
{
    let chars = chars_of(line);
    let fold = chars_of("fold");
    let mut head: Vec<char> = Vec::new();
    if chars.len() >= 4 {
        let mut i: usize = 0;
        while i < 4
            invariant
                i <= 4,
                chars@.len() >= 4,
                head@ == chars@.take(i as int),
            decreases 4 - i,
        {
            head.push(chars[i]);
            assert(head@ =~= chars@.take(i + 1));
            i = i + 1;
        }
    }
    if chars.len() >= 4 && same_chars(&head, &fold) {
        let q = split_on(chars.as_slice(), '=');
        if q.len() != 2 {
            return Err(());
        }
        let along_y = chars_of("fold along y");
        match parse_i32(q[1].as_slice()) {
            Some(v) => Ok(
                Some(
                    Err(
                        if same_chars(&q[0], &along_y) {
                            Fold::Horizontal(v)
                        } else {
                            Fold::Vertical(v)
                        },
                    ),
                ),
            ),
            None => Err(()),
        }
    } else if chars.len() == 0 {
        Ok(None)
    } else {
        let q = split_on(chars.as_slice(), ',');
        if q.len() != 2 {
            return Err(());
        }
        match (parse_i32(q[0].as_slice()), parse_i32(q[1].as_slice())) {
            (Some(x), Some(y)) => Ok(Some(Ok(Point { x, y }))),
            _ => Err(()),
        }
    }
}

/// The dots and the folds of the input; `None` where a line is neither a
/// dot, a fold nor empty.
pub fn read_input(lines: &[String]) -> (r: Option<(Vec<Point>, Vec<Fold>)>)
    ensures
        match r {
            Some((ps, fs)) => sheet_of(lines@, lines@.len() as int) == Some((ps@, fs@)),
            None => sheet_of(lines@, lines@.len() as int) is None,
        },
{
    let mut points: Vec<Point> = Vec::new();
    let mut folds: Vec<Fold> = Vec::new();
    let mut i: usize = 0;
    while i < lines.len()
        invariant
            i <= lines@.len(),
            sheet_of(lines@, i as int) == Some((points@, folds@)),
        decreases lines@.len() - i,
    {
        match read_entry(lines[i].as_str()) {
            Ok(Some(Ok(p))) => {
                points.push(p);
            },
            Ok(Some(Err(f))) => {
                folds.push(f);
            },
            Ok(None) => {},
            Err(_) => {
                proof {
                    lemma_sheet_fail(lines@, i + 1, lines@.len() as int);
                }
                return None;
            },
        }
        i = i + 1;
    }
    Some((points, folds))
}

} // verus!
