use std::collections::HashMap;
use vstd::prelude::*;

use crate::text::{chars_of, decimal, parse_i32, pieces, same_chars, split_on};

verus! {

broadcast use vstd::seq_lib::group_to_multiset_ensures;

/// A line of vents from one end to the other.
#[derive(Clone, Copy, Debug)]
pub struct Line(pub (i32, i32), pub (i32, i32));

pub open spec fn small(v: i32) -> bool {
    -0x1000_0000 <= v <= 0x1000_0000
}

pub open spec fn small_point(p: (int, int)) -> bool {
    -0x4000_0000 <= p.0 <= 0x4000_0000 && -0x4000_0000 <= p.1 <= 0x4000_0000
}

pub open spec fn small_line(l: Line) -> bool {
    small(l.0.0) && small(l.0.1) && small(l.1.0) && small(l.1.1)
}

pub open spec fn imin(a: int, b: int) -> int {
    if a <= b {
        a
    } else {
        b
    }
}

pub open spec fn imax(a: int, b: int) -> int {
    if a >= b {
        a
    } else {
        b
    }
}

/// The points a line covers, in order: a vertical or horizontal line from
/// its low end; any other line, only with `diagonals`, one point for each
/// column from its left to its right end, moving one row per column towards
/// the other end.
pub open spec fn line_points(l: Line, diagonals: bool) -> Seq<(int, int)> {
    let (x1, y1) = (l.0.0 as int, l.0.1 as int);
    let (x2, y2) = (l.1.0 as int, l.1.1 as int);
    let (min_x, max_x, min_y, max_y) = (imin(x1, x2), imax(x1, x2), imin(y1, y2), imax(y1, y2));
    if min_x == max_x {
        Seq::new((max_y - min_y + 1) as nat, |i: int| (min_x, min_y + i))
    } else if min_y == max_y {
        Seq::new((max_x - min_x + 1) as nat, |i: int| (min_x + i, min_y))
    } else if !diagonals {
        seq![]
    } else {
        Seq::new(
            (max_x - min_x + 1) as nat,
            |i: int|
                if x1 < x2 && y1 < y2 {
                    (min_x + i, min_y + i)
                } else if x1 < x2 && y1 > y2 {
                    (min_x + i, max_y - i)
                } else if x1 > x2 && y1 < y2 {
                    (max_x - i, min_y + i)
                } else {
                    (max_x - i, max_y - i)
                },
        )
    }
}

/// The points of the first `k` lines, one after the other.
pub open spec fn all_points(lines: Seq<Line>, k: int, diagonals: bool) -> Seq<(int, int)>
    decreases k,
{
    if k <= 0 {
        seq![]
    } else {
        all_points(lines, k - 1, diagonals) + line_points(lines[k - 1], diagonals)
    }
}

/// The points that at least two of the points in `pts` fall on.
pub open spec fn overlaps(pts: Seq<(int, int)>) -> Set<(int, int)> {
    Set::new(|p: (int, int)| pts.to_multiset().count(p) >= 2)
}

pub open spec fn key_of(p: (int, int)) -> int {
    p.0 * 0x1_0000_0000 + p.1
}

/// `m` holds, under `key_of`, how often each point occurs in `pts`, and only
/// those that occur; all of them are small.
pub open spec fn map_counts(m: Map<i64, u32>, pts: Seq<(int, int)>) -> bool {
    &&& forall|p: (int, int)| #[trigger] pts.to_multiset().count(p) > 0 ==> small_point(p)
    &&& forall|p: (int, int)|
        small_point(p) ==> (m.contains_key(#[trigger] key_of(p) as i64) <==> pts.to_multiset().count(
            p,
        ) > 0) && (pts.to_multiset().count(p) > 0 ==> m[key_of(p) as i64] == pts.to_multiset().count(
            p,
        ))
}

proof fn lemma_key_injective(p: (int, int), q: (int, int))
    requires
        -0x8000_0000 <= p.1 < 0x8000_0000,
        -0x8000_0000 <= q.1 < 0x8000_0000,
        key_of(p) == key_of(q),
    ensures
        p == q,
{
    assert(p.0 == q.0) by (nonlinear_arith)
        requires
            p.0 * 0x1_0000_0000 + p.1 == q.0 * 0x1_0000_0000 + q.1,
            -0x8000_0000 <= p.1 < 0x8000_0000,
            -0x8000_0000 <= q.1 < 0x8000_0000,
    ;
}

proof fn lemma_key_small(p: (int, int))
    requires
        small_point(p),
    ensures
        i64::MIN <= key_of(p) <= i64::MAX,
{
    assert(-0x4000_0000_0000_0000 - 0x4000_0000 <= key_of(p) <= 0x4000_0000_0000_0000 + 0x4000_0000)
        by (nonlinear_arith)
        requires
            small_point(p),
            key_of(p) == p.0 * 0x1_0000_0000 + p.1,
    ;
}

proof fn lemma_overlaps_finite(pts: Seq<(int, int)>)
    ensures
        overlaps(pts).finite(),
        overlaps(pts).subset_of(pts.to_set()),
{
    assert forall|p: (int, int)| overlaps(pts).contains(p) implies pts.to_set().contains(p) by {
        vstd::seq_lib::to_multiset_contains(pts, p);
    }
    vstd::set_lib::lemma_len_subset(overlaps(pts), pts.to_set());
}

/// The number of points covered by at least two lines, counting only
/// vertical and horizontal lines, or, with `diagonals`, all lines.
fn count_overlaps(lines: &[Line], diagonals: bool) -> (r: i32)
    requires
        forall|i: int| 0 <= i < lines@.len() ==> small_line(#[trigger] lines@[i]),
        all_points(lines@, lines@.len() as int, diagonals).len() <= i32::MAX,
    ensures
        r == overlaps(all_points(lines@, lines@.len() as int, diagonals)).len(),
{
    let mut map: HashMap<i64, u32> = HashMap::new();
    let mut answer: i32 = 0;
    let ghost mut done: Seq<(int, int)> = seq![];
    let mut l: usize = 0;
    proof {
        assert(overlaps(done) =~= Set::empty());
        lemma_all_points_grow(lines@, 0, lines@.len() as int, diagonals);
    }
    while l < lines.len()
        invariant
            l <= lines@.len(),
            forall|i: int| 0 <= i < lines@.len() ==> small_line(#[trigger] lines@[i]),
            all_points(lines@, lines@.len() as int, diagonals).len() <= i32::MAX,
            done == all_points(lines@, l as int, diagonals),
            done.len() <= all_points(lines@, lines@.len() as int, diagonals).len(),
            answer == overlaps(done).len(),
            map_counts(map@, done),
        decreases lines@.len() - l,
    {
        let line = lines[l];
        let (x1, y1) = line.0;
        let (x2, y2) = line.1;
        let min_x = if x1 <= x2 { x1 } else { x2 };
        let max_x = if x1 >= x2 { x1 } else { x2 };
        let min_y = if y1 <= y2 { y1 } else { y2 };
        let max_y = if y1 >= y2 { y1 } else { y2 };
        let ghost pts = line_points(line, diagonals);
        let count: i32 = if min_x == max_x {
            max_y - min_y + 1
        } else if min_y == max_y {
            max_x - min_x + 1
        } else if !diagonals {
            0
        } else {
            max_x - min_x + 1
        };
        assert(count == pts.len());
        let ghost start = done;
        let mut i: i32 = 0;
        while i < count
            invariant
                0 <= i <= count,
                count == pts.len(),
                pts == line_points(lines@[l as int], diagonals),
                l < lines@.len(),
                small_line(lines@[l as int]),
                line == lines@[l as int],
                x1 == line.0.0 && y1 == line.0.1 && x2 == line.1.0 && y2 == line.1.1,
                min_x == imin(x1 as int, x2 as int),
                max_x == imax(x1 as int, x2 as int),
                min_y == imin(y1 as int, y2 as int),
                max_y == imax(y1 as int, y2 as int),
                done == start + pts.take(i as int),
                start == all_points(lines@, l as int, diagonals),
                done.len() <= all_points(lines@, lines@.len() as int, diagonals).len(),
                all_points(lines@, lines@.len() as int, diagonals).len() <= i32::MAX,
                answer == overlaps(done).len(),
                map_counts(map@, done),
            decreases count - i,
        {
            let (x, y) = if min_x == max_x {
                (min_x, min_y + i)
            } else if min_y == max_y {
                (min_x + i, min_y)
            } else if x1 < x2 && y1 < y2 {
                (min_x + i, min_y + i)
            } else if x1 < x2 && y1 > y2 {
                (min_x + i, max_y - i)
            } else if x1 > x2 && y1 < y2 {
                (max_x - i, min_y + i)
            } else {
                (max_x - i, max_y - i)
            };
            let ghost p = (x as int, y as int);
            assert(p == pts[i as int]);
            assert(small_point(p));
            proof {
                lemma_key_small(p);
            }
            let key: i64 = (x as i64) * 0x1_0000_0000 + (y as i64);
            assert(key == key_of(p));
            let before = match map.get(&key) {
                Some(c) => *c,
                None => 0,
            };
            let ghost old_done = done;
            proof {
                done = done.push(p);
                assert(done =~= start + pts.take(i + 1));
                lemma_all_points_grow(lines@, l + 1, lines@.len() as int, diagonals);
                assert(all_points(lines@, l + 1, diagonals) == start + pts);
                assert(done.len() <= all_points(lines@, l + 1, diagonals).len());
                vstd::seq_lib::to_multiset_build(old_done, p);
                lemma_overlaps_finite(old_done);
                lemma_overlaps_finite(done);
                if old_done.to_multiset().count(p) > 0 {
                    assert(before == old_done.to_multiset().count(p));
                } else {
                    assert(before == 0);
                }
                vstd::seq_lib::to_multiset_len(done);
                assert(done.to_multiset().count(p) <= done.to_multiset().len());
            }
            map.insert(key, before + 1);
            if before == 1 {
                proof {
                    assert(overlaps(done) =~= overlaps(old_done).insert(p));
                    assert(!overlaps(old_done).contains(p));
                    assert(overlaps(done).len() <= done.len()) by {
                        vstd::set_lib::lemma_len_subset(overlaps(done), done.to_set());
                        done.lemma_cardinality_of_set();
                    }
                }
                answer = answer + 1;
            } else {
                proof {
                    assert(overlaps(done) =~= overlaps(old_done));
                }
            }
            proof {
                assert forall|q: (int, int)| small_point(q) implies (map@.contains_key(
                    #[trigger] key_of(q) as i64,
                ) <==> done.to_multiset().count(q) > 0) && (done.to_multiset().count(q) > 0
                    ==> map@[key_of(q) as i64] == done.to_multiset().count(q)) by {
                    if q != p {
                        lemma_key_small(q);
                        lemma_key_small(p);
                        if key_of(q) == key_of(p) {
                            lemma_key_injective(p, q);
                        }
                        assert(key_of(q) as i64 != key);
                        assert(old_done.to_multiset().count(q) == done.to_multiset().count(q));
                    }
                }
            }
            i = i + 1;
        }
        assert(pts.take(count as int) =~= pts);
        l = l + 1;
    }
    answer
}

proof fn lemma_all_points_grow(lines: Seq<Line>, k: int, m: int, diagonals: bool)
    requires
        0 <= k <= m,
    ensures
        all_points(lines, k, diagonals).len() <= all_points(lines, m, diagonals).len(),
    decreases m,
{
    if k < m {
        lemma_all_points_grow(lines, k, m - 1, diagonals);
    }
}

/// Points where at least two vertical or horizontal lines overlap.
pub fn part1(lines: &[Line]) -> (r: i32)
    requires
        forall|i: int| 0 <= i < lines@.len() ==> small_line(#[trigger] lines@[i]),
        all_points(lines@, lines@.len() as int, false).len() <= i32::MAX,
    ensures
        r == overlaps(all_points(lines@, lines@.len() as int, false)).len(),
{
    count_overlaps(lines, false)
}

/// Points where at least two lines overlap, diagonals included.
pub fn part2(lines: &[Line]) -> (r: i32)
    requires
        forall|i: int| 0 <= i < lines@.len() ==> small_line(#[trigger] lines@[i]),
        all_points(lines@, lines@.len() as int, true).len() <= i32::MAX,
    ensures
        r == overlaps(all_points(lines@, lines@.len() as int, true)).len(),
{
    count_overlaps(lines, true)
}

/// The first `k` pieces that are not "->", in order.
pub open spec fn without_arrows(ps: Seq<Seq<char>>, k: int) -> Seq<Seq<char>>
    decreases k,
{
    if k <= 0 {
        seq![]
    } else if ps[k - 1] == "->"@ {
        without_arrows(ps, k - 1)
    } else {
        without_arrows(ps, k - 1).push(ps[k - 1])
    }
}

pub open spec fn int_of(p: Seq<char>) -> Option<i32> {
    match decimal(p) {
        Some(x) => if i32::MIN <= x <= i32::MAX {
            Some(x as i32)
        } else {
            None
        },
        None => None,
    }
}

/// The point that "x,y" writes.
pub open spec fn point_of(p: Seq<char>) -> Option<(i32, i32)> {
    let q = pieces(p, ',');
    if q.len() != 2 {
        None
    } else {
        match (int_of(q[0]), int_of(q[1])) {
            (Some(x), Some(y)) => Some((x, y)),
            _ => None,
        }
    }
}

/// The line that "x1,y1 -> x2,y2" writes.
pub open spec fn line_of(s: Seq<char>) -> Option<Line> {
    let ps = pieces(s, ' ');
    let ws = without_arrows(ps, ps.len() as int);
    if ws.len() != 2 {
        None
    } else {
        match (point_of(ws[0]), point_of(ws[1])) {
            (Some(a), Some(b)) => Some(Line(a, b)),
            _ => None,
        }
    }
}

fn read_point(p: &Vec<char>) -> (r: Option<(i32, i32)>)
    ensures
        r == point_of(p@),
{
    let q = split_on(p.as_slice(), ',');
    if q.len() != 2 {
        return None;
    }
    match (parse_i32(q[0].as_slice()), parse_i32(q[1].as_slice())) {
        (Some(x), Some(y)) => Some((x, y)),
        _ => None,
    }
}

impl Line {
    /// Reads a line of vents written "x1,y1 -> x2,y2".
    pub fn from_str(s: &str) -> (r: Option<Line>)
        ensures
            r == line_of(s@),
    {
        let chars = chars_of(s);
        let ps = split_on(chars.as_slice(), ' ');
        let arrow = chars_of("->");
        let mut words: Vec<Vec<char>> = Vec::new();
        let mut i: usize = 0;
        let ghost pv = pieces(s@, ' ');
        while i < ps.len()
            invariant
                i <= ps@.len(),
                pv == pieces(s@, ' '),
                ps@.len() == pv.len(),
                arrow@ == "->"@,
                forall|j: int| 0 <= j < ps@.len() ==> (#[trigger] ps@[j])@ == pv[j],
                words@.len() == without_arrows(pv, i as int).len(),
                forall|j: int| 0 <= j < words@.len() ==> (#[trigger] words@[j])@ == without_arrows(pv, i as int)[j],
            decreases ps@.len() - i,
        {
            if !same_chars(&ps[i], &arrow) {
                let piece = copy_chars(&ps[i]);
                words.push(piece);
            }
            i = i + 1;
        }
        if words.len() != 2 {
            return None;
        }
        match (read_point(&words[0]), read_point(&words[1])) {
            (Some(a), Some(b)) => Some(Line(a, b)),
            _ => None,
        }
    }
}

fn copy_chars(v: &Vec<char>) -> (r: Vec<char>)
    ensures
        r@ == v@,
{
    let mut out: Vec<char> = Vec::new();
    let mut i: usize = 0;
    while i < v.len()
        invariant
            i <= v@.len(),
            out@ == v@.take(i as int),
        decreases v@.len() - i,
    {
        out.push(v[i]);
        assert(out@ =~= v@.take(i + 1));
        i = i + 1;
    }
    assert(out@ =~= v@);
    out
}

/// The lines of vents of the first `k` input lines, if all are well formed.
pub open spec fn lines_of(lines: Seq<String>, k: int) -> Option<Seq<Line>>
    decreases k,
{
    if k <= 0 {
        Some(seq![])
    } else {
        match (lines_of(lines, k - 1), line_of(lines[k - 1]@)) {
            (Some(ls), Some(l)) => Some(ls.push(l)),
            _ => None,
        }
    }
}

proof fn lemma_lines_fail(lines: Seq<String>, k: int, n: int)
    requires
        1 <= k <= n,
        lines_of(lines, k) is None,
    ensures
        lines_of(lines, n) is None,
    decreases n,
{
    if k < n {
        lemma_lines_fail(lines, k, n - 1);
    }
}

/// The lines of vents, one per input line; `None` where a line is not of
/// the form "x1,y1 -> x2,y2".
pub fn read_input(lines: &[String]) -> (r: Option<Vec<Line>>)
    ensures
        match r {
            Some(v) => lines_of(lines@, lines@.len() as int) == Some(v@),
            None => lines_of(lines@, lines@.len() as int) is None,
        },
{
    let mut out: Vec<Line> = Vec::new();
    let mut i: usize = 0;
    while i < lines.len()
        invariant
            i <= lines@.len(),
            lines_of(lines@, i as int) == Some(out@),
        decreases lines@.len() - i,
    {
        match Line::from_str(lines[i].as_str()) {
            Some(l) => {
                out.push(l);
            },
            None => {
                proof {
                    lemma_lines_fail(lines@, i + 1, lines@.len() as int);
                }
                return None;
            },
        }
        i = i + 1;
    }
    Some(out)
}

} // verus!
