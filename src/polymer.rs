use vstd::prelude::*;

use crate::text::{chars_of, pieces, split_on};
use crate::tools::{pairs, sorted_u64};

verus! {

/// The index of the first entry of `a[i..]` with key `k`.
pub open spec fn find_key<K>(a: Seq<(K, int)>, k: K, i: int) -> Option<int>
    decreases a.len() - i,
{
    if i < 0 || i >= a.len() {
        None
    } else if a[i].0 == k {
        Some(i)
    } else {
        find_key(a, k, i + 1)
    }
}

/// `a` with `v` added to the count of `k`, a new entry at the end for a new
/// key; `None` where the count would leave `u64`.
pub open spec fn add_count<K>(a: Seq<(K, int)>, k: K, v: int) -> Option<Seq<(K, int)>> {
    match find_key(a, k, 0) {
        Some(i) => if a[i].1 + v <= u64::MAX {
            Some(a.update(i, (k, a[i].1 + v)))
        } else {
            None
        },
        None => Some(a.push((k, v))),
    }
}

pub open spec fn then_add<K>(a: Option<Seq<(K, int)>>, k: K, v: int) -> Option<Seq<(K, int)>> {
    match a {
        Some(s) => add_count(s, k, v),
        None => None,
    }
}

/// The element that the last of the first `n` rules for pair `p` inserts,
/// if any: a later rule for a pair replaces an earlier one.
pub open spec fn rule_for(rules: Seq<((char, char), char)>, p: (char, char), n: int) -> Option<char>
    decreases n,
{
    if n <= 0 || n > rules.len() {
        None
    } else if rules[n - 1].0 == p {
        Some(rules[n - 1].1)
    } else {
        rule_for(rules, p, n - 1)
    }
}

/// How often each pair of neighbours occurs among the first `n` elements of
/// the template, in order of first occurrence.
pub open spec fn initial_pairs(t: Seq<char>, n: int) -> Option<Seq<((char, char), int)>>
    decreases n,
{
    if n <= 1 || n > t.len() {
        Some(seq![])
    } else {
        then_add(initial_pairs(t, n - 1), (t[n - 2], t[n - 1]), 1)
    }
}

/// How often each element occurs among the first `n` of the template.
pub open spec fn initial_counts(t: Seq<char>, n: int) -> Option<Seq<(char, int)>>
    decreases n,
{
    if n <= 0 || n > t.len() {
        Some(seq![])
    } else {
        then_add(initial_counts(t, n - 1), t[n - 1], 1)
    }
}

/// One insertion step over the first `k` pair counts: a pair `ab` with a rule
/// inserting `m` becomes as many `am` and `mb` pairs and adds as many `m`s;
/// a pair without a rule stays.
pub open spec fn step_pairs(
    pairs: Seq<((char, char), int)>,
    counts: Seq<(char, int)>,
    rules: Seq<((char, char), char)>,
    k: int,
) -> Option<(Seq<((char, char), int)>, Seq<(char, int)>)>
    decreases k,
{
    if k <= 0 || k > pairs.len() {
        Some((seq![], counts))
    } else {
        match step_pairs(pairs, counts, rules, k - 1) {
            None => None,
            Some((np, nc)) => {
                let (p, c) = pairs[k - 1];
                match rule_for(rules, p, rules.len() as int) {
                    Some(m) => match (then_add(add_count(np, (p.0, m), c), (m, p.1), c), add_count(nc, m, c)) {
                        (Some(a), Some(b)) => Some((a, b)),
                        _ => None,
                    },
                    None => match add_count(np, p, c) {
                        Some(a) => Some((a, nc)),
                        None => None,
                    },
                }
            },
        }
    }
}

/// The pair counts and element counts of the polymer after `steps` steps;
/// `None` where a count leaves `u64` on the way.
pub open spec fn grow(t: Seq<char>, rules: Seq<((char, char), char)>, steps: nat) -> Option<(
    Seq<((char, char), int)>,
    Seq<(char, int)>,
)>
    decreases steps,
{
    if steps == 0 {
        match (initial_pairs(t, t.len() as int), initial_counts(t, t.len() as int)) {
            (Some(p), Some(c)) => Some((p, c)),
            _ => None,
        }
    } else {
        match grow(t, rules, (steps - 1) as nat) {
            Some((p, c)) => step_pairs(p, c, rules, p.len() as int),
            None => None,
        }
    }
}

pub open spec fn max_count(c: Seq<(char, int)>, n: int) -> int
    decreases n,
{
    if n <= 1 {
        c[0].1
    } else {
        let m = max_count(c, n - 1);
        if c[n - 1].1 > m {
            c[n - 1].1
        } else {
            m
        }
    }
}

pub open spec fn min_count(c: Seq<(char, int)>, n: int) -> int
    decreases n,
{
    if n <= 1 {
        c[0].1
    } else {
        let m = min_count(c, n - 1);
        if c[n - 1].1 < m {
            c[n - 1].1
        } else {
            m
        }
    }
}

/// The count of the most common element minus that of the least common one
/// after `steps` steps; `None` for an empty template or where a count leaves
/// `u64`.
pub open spec fn spread(t: Seq<char>, rules: Seq<((char, char), char)>, steps: nat) -> Option<int> {
    match grow(t, rules, steps) {
        Some((_, c)) => if c.len() == 0 {
            None
        } else {
            Some(max_count(c, c.len() as int) - min_count(c, c.len() as int))
        },
        None => None,
    }
}

pub open spec fn pairs_view(a: Seq<((char, char), u64)>) -> Seq<((char, char), int)> {
    a.map_values(|e: ((char, char), u64)| (e.0, e.1 as int))
}

pub open spec fn counts_view(a: Seq<(char, u64)>) -> Seq<(char, int)> {
    a.map_values(|e: (char, u64)| (e.0, e.1 as int))
}

fn add_pair(a: &mut Vec<((char, char), u64)>, k: (char, char), v: u64) -> (ok: bool)
    ensures
        ok == add_count(pairs_view(old(a)@), k, v as int) is Some,
        ok ==> Some(pairs_view(final(a)@)) == add_count(pairs_view(old(a)@), k, v as int),
{
    let ghost av = pairs_view(a@);
    let mut i: usize = 0;
    while i < a.len()
        invariant
            i <= a@.len(),
            av == pairs_view(a@),
            a@ == old(a)@,
            find_key(av, k, 0) == find_key(av, k, i as int),
        decreases a@.len() - i,
    {
        let (key, c) = a[i];
        if key.0 == k.0 && key.1 == k.1 {
            assert(find_key(av, k, i as int) == Some(i as int));
            match c.checked_add(v) {
                Some(s) => {
                    a.set(i, (k, s));
                    assert(pairs_view(a@) =~= av.update(i as int, (k, av[i as int].1 + v)));
                    return true;
                },
                None => {
                    return false;
                },
            }
        }
        i = i + 1;
    }
    a.push((k, v));
    assert(pairs_view(a@) =~= av.push((k, v as int)));
    true
}

fn add_char(a: &mut Vec<(char, u64)>, k: char, v: u64) -> (ok: bool)
    ensures
        ok == add_count(counts_view(old(a)@), k, v as int) is Some,
        ok ==> Some(counts_view(final(a)@)) == add_count(counts_view(old(a)@), k, v as int),
{
    let ghost av = counts_view(a@);
    let mut i: usize = 0;
    while i < a.len()
        invariant
            i <= a@.len(),
            av == counts_view(a@),
            a@ == old(a)@,
            find_key(av, k, 0) == find_key(av, k, i as int),
        decreases a@.len() - i,
    {
        let (key, c) = a[i];
        if key == k {
            assert(find_key(av, k, i as int) == Some(i as int));
            match c.checked_add(v) {
                Some(s) => {
                    a.set(i, (k, s));
                    assert(counts_view(a@) =~= av.update(i as int, (k, av[i as int].1 + v)));
                    return true;
                },
                None => {
                    return false;
                },
            }
        }
        i = i + 1;
    }
    a.push((k, v));
    assert(counts_view(a@) =~= av.push((k, v as int)));
    true
}

fn find_rule(rules: &[((char, char), char)], p: (char, char)) -> (r: Option<char>)
    ensures
        r == rule_for(rules@, p, rules@.len() as int),
{
    let mut i: usize = rules.len();
    while i > 0
        invariant
            i <= rules@.len(),
            rule_for(rules@, p, rules@.len() as int) == rule_for(rules@, p, i as int),
        decreases i,
    {
        let (k, m) = rules[i - 1];
        if k.0 == p.0 && k.1 == p.1 {
            return Some(m);
        }
        i = i - 1;
    }
    None
}

proof fn lemma_initial_pairs_none(t: Seq<char>, j: int, m: int)
    requires
        j <= m <= t.len(),
        initial_pairs(t, j) is None,
    ensures
        initial_pairs(t, m) is None,
    decreases m,
{
    if j < m {
        lemma_initial_pairs_none(t, j, m - 1);
    }
}

proof fn lemma_initial_counts_none(t: Seq<char>, j: int, m: int)
    requires
        j <= m <= t.len(),
        initial_counts(t, j) is None,
    ensures
        initial_counts(t, m) is None,
    decreases m,
{
    if j < m {
        lemma_initial_counts_none(t, j, m - 1);
    }
}

proof fn lemma_step_none(
    pairs: Seq<((char, char), int)>,
    counts: Seq<(char, int)>,
    rules: Seq<((char, char), char)>,
    j: int,
    m: int,
)
    requires
        1 <= j <= m <= pairs.len(),
        step_pairs(pairs, counts, rules, j) is None,
    ensures
        step_pairs(pairs, counts, rules, m) is None,
    decreases m,
{
    if j < m {
        lemma_step_none(pairs, counts, rules, j, m - 1);
    }
}

proof fn lemma_grow_none(t: Seq<char>, rules: Seq<((char, char), char)>, s: nat, steps: nat)
    requires
        s <= steps,
        s == 0 ==> initial_pairs(t, t.len() as int) is None || initial_counts(t, t.len() as int) is None,
        s > 0 ==> grow(t, rules, s) is None,
    ensures
        grow(t, rules, steps) is None || s > steps,
    decreases steps,
{
    if steps > s {
        lemma_grow_none(t, rules, s, (steps - 1) as nat);
    }
}

proof fn lemma_extremes(c: Seq<(char, int)>, n: int)
    requires
        1 <= n <= c.len(),
    ensures
        exists|i: int| 0 <= i < n && c[i].1 == max_count(c, n),
        exists|i: int| 0 <= i < n && c[i].1 == min_count(c, n),
        forall|i: int| 0 <= i < n ==> min_count(c, n) <= #[trigger] c[i].1 <= max_count(c, n),
    decreases n,
{
    if n > 1 {
        lemma_extremes(c, n - 1);
        let a = choose|i: int| 0 <= i < n - 1 && c[i].1 == max_count(c, n - 1);
        let b = choose|i: int| 0 <= i < n - 1 && c[i].1 == min_count(c, n - 1);
        if c[n - 1].1 > max_count(c, n - 1) {
            assert(c[n - 1].1 == max_count(c, n));
        } else {
            assert(c[a].1 == max_count(c, n));
        }
        if c[n - 1].1 < min_count(c, n - 1) {
            assert(c[n - 1].1 == min_count(c, n));
        } else {
            assert(c[b].1 == min_count(c, n));
        }
    } else {
        assert(c[0].1 == max_count(c, n));
        assert(c[0].1 == min_count(c, n));
    }
}

/// The count of the most common element minus that of the least common one
/// once `steps` insertion steps have grown the polymer from `template`, as
/// `spread` gives it.
pub fn solve(template: &str, rules: &[((char, char), char)], steps: usize) -> (r: Option<u64>)
    ensures
        match r {
            Some(v) => spread(template@, rules@, steps as nat) == Some(v as int),
            None => spread(template@, rules@, steps as nat) is None,
        },
{
    let n = template.unicode_len();
    let mut chars: Vec<char> = Vec::new();
    let mut i: usize = 0;
    while i < n
        invariant
            i <= n,
            n == template@.len(),
            chars@ == template@.take(i as int),
        decreases n - i,
    {
        chars.push(template.get_char(i));
        assert(chars@ =~= template@.take(i + 1));
        i = i + 1;
    }
    assert(chars@ =~= template@);
    let ghost t = template@;
    let windows = pairs(chars.as_slice());
    let mut polychunks: Vec<((char, char), u64)> = Vec::new();
    let mut w: usize = 0;
    assert(pairs_view(polychunks@) =~= seq![]);
    while w < windows.len()
        invariant
            w <= windows@.len(),
            t == chars@,
            t == template@,
            t.len() == 0 ==> windows@.len() == 0,
            t.len() > 0 ==> windows@.len() == t.len() - 1,
            forall|k: int| 0 <= k < windows@.len() ==> #[trigger] windows@[k] == (t[k], t[k + 1]),
            Some(pairs_view(polychunks@)) == initial_pairs(t, w + 1),
        decreases windows@.len() - w,
    {
        if !add_pair(&mut polychunks, windows[w], 1) {
            proof {
                assert(initial_pairs(t, w + 2) is None);
                lemma_initial_pairs_none(t, w + 2, t.len() as int);
                lemma_grow_none(t, rules@, 0, steps as nat);
                assert(grow(t, rules@, steps as nat) is None);
                assert(spread(t, rules@, steps as nat) is None);
            }
            return None;
        }
        w = w + 1;
    }
    proof {
        if t.len() > 0 {
            assert(w + 1 == t.len());
        } else {
            assert(Some(pairs_view(polychunks@)) =~= initial_pairs(t, t.len() as int));
        }
    }
    let mut counts: Vec<(char, u64)> = Vec::new();
    let mut k: usize = 0;
    assert(counts_view(counts@) =~= seq![]);
    while k < chars.len()
        invariant
            k <= chars@.len(),
            t == chars@,
            t == template@,
            Some(counts_view(counts@)) == initial_counts(t, k as int),
            Some(pairs_view(polychunks@)) == initial_pairs(t, t.len() as int),
        decreases chars@.len() - k,
    {
        if !add_char(&mut counts, chars[k], 1) {
            proof {
                lemma_initial_counts_none(t, k + 1, t.len() as int);
                lemma_grow_none(t, rules@, 0, steps as nat);
            }
            return None;
        }
        k = k + 1;
    }
    let mut step: usize = 0;
    while step < steps
        invariant
            step <= steps,
            t == template@,
            Some((pairs_view(polychunks@), counts_view(counts@))) == grow(t, rules@, step as nat),
        decreases steps - step,
    {
        let ghost pairs_before = pairs_view(polychunks@);
        let ghost counts_before = counts_view(counts@);
        let mut next: Vec<((char, char), u64)> = Vec::new();
        let mut j: usize = 0;
        assert(pairs_view(next@) =~= seq![]);
        while j < polychunks.len()
            invariant
                j <= polychunks@.len(),
                pairs_before == pairs_view(polychunks@),
                Some((pairs_view(next@), counts_view(counts@))) == step_pairs(pairs_before, counts_before, rules@, j as int),
                Some((pairs_before, counts_before)) == grow(t, rules@, step as nat),
                step < steps,
                t == template@,
            decreases polychunks@.len() - j,
        {
            let (chunk, count) = polychunks[j];
            let ok = match find_rule(rules, chunk) {
                Some(m) => {
                    add_pair(&mut next, (chunk.0, m), count) && add_pair(&mut next, (m, chunk.1), count)
                        && add_char(&mut counts, m, count)
                },
                None => add_pair(&mut next, chunk, count),
            };
            if !ok {
                proof {
                    assert(step_pairs(pairs_before, counts_before, rules@, j + 1) is None);
                    lemma_step_none(pairs_before, counts_before, rules@, j + 1, pairs_before.len() as int);
                    lemma_grow_none(t, rules@, (step + 1) as nat, steps as nat);
                }
                return None;
            }
            j = j + 1;
        }
        polychunks = next;
        step = step + 1;
    }
    if counts.len() == 0 {
        return None;
    }
    assert(grow(t, rules@, steps as nat) == Some((pairs_view(polychunks@), counts_view(counts@))));
    let mut values: Vec<u64> = Vec::new();
    let mut v: usize = 0;
    while v < counts.len()
        invariant
            v <= counts@.len(),
            values@.len() == v,
            forall|x: int| 0 <= x < v ==> #[trigger] values@[x] == counts@[x].1,
        decreases counts@.len() - v,
    {
        values.push(counts[v].1);
        v = v + 1;
    }
    let sorted = sorted_u64(values.as_slice());
    let last = sorted[sorted.len() - 1];
    let first = sorted[0];
    proof {
        let c = counts_view(counts@);
        let m = c.len() as int;
        lemma_extremes(c, m);
        assert forall|x: int| 0 <= x < m implies #[trigger] c[x].1 == values@[x] as int by {}
        // the least and greatest sorted values are the least and greatest counts
        vstd::seq_lib::to_multiset_contains(sorted@, first);
        vstd::seq_lib::to_multiset_contains(values@, first);
        vstd::seq_lib::to_multiset_contains(sorted@, last);
        vstd::seq_lib::to_multiset_contains(values@, last);
        assert(sorted@[0] == first);
        assert(sorted@[sorted@.len() - 1] == last);
        let imin = choose|x: int| 0 <= x < m && c[x].1 == min_count(c, m);
        let imax = choose|x: int| 0 <= x < m && c[x].1 == max_count(c, m);
        vstd::seq_lib::to_multiset_contains(values@, values@[imin]);
        vstd::seq_lib::to_multiset_contains(sorted@, values@[imin]);
        vstd::seq_lib::to_multiset_contains(values@, values@[imax]);
        vstd::seq_lib::to_multiset_contains(sorted@, values@[imax]);
        assert(values@.contains(values@[imin]));
        assert(values@.contains(values@[imax]));
        let smin = choose|x: int| 0 <= x < sorted@.len() && sorted@[x] == values@[imin];
        let smax = choose|x: int| 0 <= x < sorted@.len() && sorted@[x] == values@[imax];
        assert(first <= sorted@[smin]);
        assert(sorted@[smax] <= last);
        let fi = choose|x: int| 0 <= x < values@.len() && values@[x] == first;
        let li = choose|x: int| 0 <= x < values@.len() && values@[x] == last;
        assert(c[fi].1 == first as int);
        assert(c[li].1 == last as int);
        assert(min_count(c, m) <= c[fi].1 <= max_count(c, m));
        assert(min_count(c, m) <= c[li].1 <= max_count(c, m));
        assert(sorted@[0] <= sorted@[smin]);
        assert(sorted@[smax] <= sorted@[sorted@.len() - 1]);
        assert(values@[imin] as int == min_count(c, m));
        assert(values@[imax] as int == max_count(c, m));
        assert(first == min_count(c, m));
        assert(last == max_count(c, m));
    }
    Some(last - first)
}

/// The spread after 10 steps.
pub fn part1(template: &str, rules: &[((char, char), char)]) -> (r: Option<u64>)
    ensures
        match r {
            Some(v) => spread(template@, rules@, 10) == Some(v as int),
            None => spread(template@, rules@, 10) is None,
        },
{
    solve(template, rules, 10)
}

/// The spread after 40 steps.
pub fn part2(template: &str, rules: &[((char, char), char)]) -> (r: Option<u64>)
    ensures
        match r {
            Some(v) => spread(template@, rules@, 40) == Some(v as int),
            None => spread(template@, rules@, 40) is None,
        },
{
    solve(template, rules, 40)
}

/// The rule that "AB -> C" writes: the pair of the two characters of the
/// first word and the first character of the third.
pub open spec fn rule_of(line: Seq<char>) -> Option<((char, char), char)> {
    let ps = pieces(line, ' ');
    if ps.len() == 3 && ps[0].len() == 2 && ps[2].len() >= 1 {
        Some(((ps[0][0], ps[0][1]), ps[2][0]))
    } else {
        None
    }
}

/// The template (the first line that is not empty) and the rules (the later
/// lines that are not empty) among the first `k` lines; `None` where such a
/// later line is no rule.
pub open spec fn manual_of(lines: Seq<String>, k: int) -> Option<(Seq<char>, Seq<((char, char), char)>)>
    decreases k,
{
    if k <= 0 {
        Some((seq![], seq![]))
    } else {
        match manual_of(lines, k - 1) {
            None => None,
            Some((t, rs)) => {
                let line = lines[k - 1]@;
                if line.len() == 0 {
                    Some((t, rs))
                } else if t.len() == 0 {
                    Some((line, rs))
                } else {
                    match rule_of(line) {
                        Some(r) => Some((t, rs.push(r))),
                        None => None,
                    }
                }
            },
        }
    }
}

proof fn lemma_manual_fail(lines: Seq<String>, k: int, n: int)
    requires
        1 <= k <= n,
        manual_of(lines, k) is None,
    ensures
        manual_of(lines, n) is None,
    decreases n,
{
    if k < n {
        lemma_manual_fail(lines, k, n - 1);
    }
}

/// The template and the insertion rules of the input.
pub fn read_input(lines: &[String]) -> (r: Option<(String, Vec<((char, char), char)>)>)
    ensures
        match r {
            Some((t, rs)) => manual_of(lines@, lines@.len() as int) == Some((t@, rs@)),
            None => manual_of(lines@, lines@.len() as int) is None,
        },
{
    let mut template = String::new();
    let mut rules: Vec<((char, char), char)> = Vec::new();
    let mut k: usize = 0;
    while k < lines.len()
        invariant
            k <= lines@.len(),
            manual_of(lines@, k as int) == Some((template@, rules@)),
        decreases lines@.len() - k,
    {
        let line = chars_of(lines[k].as_str());
        if line.len() > 0 {
            if template.as_str().unicode_len() == 0 {
                template = lines[k].clone();
            } else {
                let ps = split_on(line.as_slice(), ' ');
                if ps.len() == 3 && ps[0].len() == 2 && ps[2].len() >= 1 {
                    rules.push(((ps[0][0], ps[0][1]), ps[2][0]));
                } else {
                    proof {
                        lemma_manual_fail(lines@, k + 1, lines@.len() as int);
                    }
                    return None;
                }
            }
        }
        k = k + 1;
    }
    Some((template, rules))
}

} // verus!
