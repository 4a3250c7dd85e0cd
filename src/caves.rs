use vstd::prelude::*;

use crate::text::{pieces, split_pair};
use crate::tools::{is_lowercase, lowercase_char};

verus! {

/// The caves, numbered in order of first mention, and the tunnels out of
/// each, in order of mention.
pub struct Caves {
    pub names: Vec<String>,
    pub adj: Vec<Vec<usize>>,
    pub any_lower: Vec<bool>,
    pub all_lower: Vec<bool>,
}

pub open spec fn some_lowercase(s: Seq<char>) -> bool {
    exists|i: int| 0 <= i < s.len() && lowercase_char(#[trigger] s[i])
}

pub open spec fn all_lowercase(s: Seq<char>) -> bool {
    forall|i: int| 0 <= i < s.len() ==> lowercase_char(#[trigger] s[i])
}

/// The index of the first of `names[i..]` equal to `s`.
pub open spec fn index_from(names: Seq<Seq<char>>, s: Seq<char>, i: int) -> Option<int>
    decreases names.len() - i,
{
    if i < 0 || i >= names.len() {
        None
    } else if names[i] == s {
        Some(i)
    } else {
        index_from(names, s, i + 1)
    }
}

/// The index of the first of `names` equal to `s`.
pub open spec fn index_of(names: Seq<Seq<char>>, s: Seq<char>) -> Option<int> {
    index_from(names, s, 0)
}

proof fn lemma_index_from(names: Seq<Seq<char>>, s: Seq<char>, i: int)
    requires
        0 <= i <= names.len(),
    ensures
        index_from(names, s, i) matches Some(k) ==> i <= k < names.len() && names[k] == s,
        index_from(names, s, i) is None ==> forall|k: int| i <= k < names.len() ==> names[k] != s,
        forall|t: Seq<char>| index_from(names.push(t), s, i) == if index_from(names, s, i) is Some {
            index_from(names, s, i)
        } else if t == s {
            Some(names.len() as int)
        } else {
            None
        },
    decreases names.len() - i,
{
    if i < names.len() {
        lemma_index_from(names, s, i + 1);
        assert forall|t: Seq<char>| index_from(names.push(t), s, i) == if index_from(names, s, i) is Some {
            index_from(names, s, i)
        } else if t == s {
            Some(names.len() as int)
        } else {
            None
        } by {
            assert(names.push(t)[i] == names[i]);
        }
    } else {
        assert forall|t: Seq<char>| index_from(names.push(t), s, i) == if index_from(names, s, i) is Some {
            index_from(names, s, i)
        } else if t == s {
            Some(names.len() as int)
        } else {
            None
        } by {
            assert(index_from(names.push(t), s, i + 1) is None);
        }
    }
}

/// Cave names, and the tunnels out of each, after the first `k` tunnels of
/// the input: a name not yet seen gets the next number; a tunnel between `a`
/// and `b` adds `b` to the tunnels of `a` and then `a` to those of `b`.
pub open spec fn graph_after(input: Seq<(String, String)>, k: int) -> (Seq<Seq<char>>, Seq<Seq<int>>)
    decreases k,
{
    if k <= 0 {
        (seq![], seq![])
    } else {
        let (names0, adj0) = graph_after(input, k - 1);
        let a = input[k - 1].0@;
        let b = input[k - 1].1@;
        let (names1, adj1) = with_name(names0, adj0, a);
        let (names2, adj2) = with_name(names1, adj1, b);
        let ia = index_of(names2, a).unwrap();
        let ib = index_of(names2, b).unwrap();
        let adj3 = adj2.update(ia, adj2[ia].push(ib));
        let adj4 = adj3.update(ib, adj3[ib].push(ia));
        (names2, adj4)
    }
}

pub open spec fn with_name(names: Seq<Seq<char>>, adj: Seq<Seq<int>>, s: Seq<char>) -> (Seq<Seq<char>>, Seq<Seq<int>>) {
    if index_of(names, s) is Some {
        (names, adj)
    } else {
        (names.push(s), adj.push(seq![]))
    }
}

pub open spec fn names_view(names: Seq<String>) -> Seq<Seq<char>> {
    names.map_values(|s: String| s@)
}

pub open spec fn adj_view(adj: Seq<Vec<usize>>) -> Seq<Seq<int>> {
    adj.map_values(|r: Vec<usize>| r@.map_values(|x: usize| x as int))
}

/// `g` is the cave graph of the input's tunnels.
pub open spec fn is_cave_graph(input: Seq<(String, String)>, g: Caves) -> bool {
    &&& names_view(g.names@) == graph_after(input, input.len() as int).0
    &&& adj_view(g.adj@) == graph_after(input, input.len() as int).1
    &&& well_formed(g)
}

pub open spec fn well_formed(g: Caves) -> bool {
    &&& g.adj@.len() == g.names@.len()
    &&& g.any_lower@.len() == g.names@.len()
    &&& g.all_lower@.len() == g.names@.len()
    &&& forall|i: int, j: int|
        0 <= i < g.adj@.len() && 0 <= j < g.adj@[i]@.len() ==> #[trigger] g.adj@[i]@[j] < g.names@.len()
    &&& forall|i: int| 0 <= i < g.names@.len() ==> #[trigger] g.any_lower@[i] == some_lowercase(g.names@[i]@)
    &&& forall|i: int| 0 <= i < g.names@.len() ==> #[trigger] g.all_lower@[i] == all_lowercase(g.names@[i]@)
}

/// The index of a cave name, adding it where it is new.
fn name_index(names: &mut Vec<String>, adj: &mut Vec<Vec<usize>>, s: &String) -> (r: usize)
    requires
        old(adj)@.len() == old(names)@.len(),
    ensures
        (names_view(final(names)@), adj_view(final(adj)@)) == with_name(
            names_view(old(names)@),
            adj_view(old(adj)@),
            s@,
        ),
        index_of(names_view(final(names)@), s@) == Some(r as int),
        r < final(names)@.len(),
        old(names)@.len() <= final(names)@.len(),
        final(adj)@.len() == final(names)@.len(),
        forall|i: int| 0 <= i < old(names)@.len() ==> #[trigger] final(names)@[i] == old(names)@[i],
        forall|i: int| 0 <= i < old(adj)@.len() ==> #[trigger] final(adj)@[i] == old(adj)@[i],
        final(names)@.len() <= old(names)@.len() + 1,
        final(names)@.len() > old(names)@.len() ==> final(adj)@.last()@.len() == 0 && final(names)@.last()@ == s@,
{
    let ghost nv = names_view(names@);
    let mut i: usize = 0;
    while i < names.len()
        invariant
            i <= names@.len(),
            nv == names_view(names@),
            names@ == old(names)@,
            adj@ == old(adj)@,
            adj@.len() == names@.len(),
            index_of(nv, s@) == index_from(nv, s@, i as int),
        decreases names@.len() - i,
    {
        if names[i] == *s {
            assert(index_from(nv, s@, i as int) == Some(i as int));
            return i;
        }
        i = i + 1;
    }
    proof {
        lemma_index_from(nv, s@, 0);
    }
    let n = names.len();
    names.push(s.clone());
    adj.push(Vec::new());
    proof {
        lemma_index_from(nv, s@, 0);
        assert(names_view(names@) =~= nv.push(s@));
        assert(adj@.last()@.len() == 0);
        assert(adj@.last()@.map_values(|x: usize| x as int) =~= Seq::<int>::empty());
        assert(adj_view(adj@) =~= adj_view(old(adj)@).push(seq![]));
    }
    n
}

/// `v` with `x` after its items.
fn pushed(v: &Vec<usize>, x: usize) -> (r: Vec<usize>)
    ensures
        r@ == v@.push(x),
{
    let mut out: Vec<usize> = Vec::new();
    let mut i: usize = 0;
    while i < v.len()
        invariant
            i <= v@.len(),
            out@ == v@.take(i as int),
        decreases v@.len() - i,
    {
        out.push(v[i]);
        assert(out@ =~= v@.take(i + 1));
        i = i + 1;
    }
    assert(v@.take(v@.len() as int) =~= v@);
    out.push(x);
    out
}

fn push_tunnel(adj: &mut Vec<Vec<usize>>, from: usize, to: usize)
    requires
        from < old(adj)@.len(),
    ensures
        adj_view(final(adj)@) == adj_view(old(adj)@).update(
            from as int,
            adj_view(old(adj)@)[from as int].push(to as int),
        ),
        final(adj)@.len() == old(adj)@.len(),
        forall|i: int, j: int|
            0 <= i < final(adj)@.len() && 0 <= j < final(adj)@[i]@.len() ==> #[trigger] final(adj)@[i]@[j]
                == if i == from && j == old(adj)@[i]@.len() {
                to
            } else {
                old(adj)@[i]@[j]
            },
        forall|i: int| 0 <= i < final(adj)@.len() && i != from ==> #[trigger] final(adj)@[i]@.len() == old(adj)@[i]@.len(),
        final(adj)@[from as int]@.len() == old(adj)@[from as int]@.len() + 1,
{
    let row = pushed(&adj[from], to);
    adj.set(from, row);
    proof {
        assert(adj_view(adj@) =~= adj_view(old(adj)@).update(
            from as int,
            adj_view(old(adj)@)[from as int].push(to as int),
        )) by {
            assert(adj@[from as int]@.map_values(|x: usize| x as int) =~= old(adj)@[from as int]@.map_values(
                |x: usize| x as int,
            ).push(to as int));
        }
    }
}

fn has_lowercase(s: &str) -> (r: (bool, bool))
    ensures
        r.0 == some_lowercase(s@),
        r.1 == all_lowercase(s@),
{
    let n = s.unicode_len();
    let mut any = false;
    let mut all = true;
    let mut i: usize = 0;
    while i < n
        invariant
            i <= n,
            n == s@.len(),
            any == exists|k: int| 0 <= k < i && lowercase_char(#[trigger] s@[k]),
            all == forall|k: int| 0 <= k < i ==> lowercase_char(#[trigger] s@[k]),
        decreases n - i,
    {
        let low = is_lowercase(s.get_char(i));
        if low {
            any = true;
        } else {
            all = false;
        }
        i = i + 1;
    }
    (any, all)
}

/// The cave graph of the tunnels, each tunnel a pair of cave names.
pub fn input_to_map(input: &[(String, String)]) -> (g: Caves)
    requires
        input@.len() < usize::MAX / 4,
    ensures
        is_cave_graph(input@, g),
        g.names@.len() <= 2 * input@.len(),
{
    let mut names: Vec<String> = Vec::new();
    let mut adj: Vec<Vec<usize>> = Vec::new();
    let mut k: usize = 0;
    proof {
        assert(names_view(names@) =~= seq![]);
        assert(adj_view(adj@) =~= seq![]);
    }
    while k < input.len()
        invariant
            k <= input@.len(),
            adj@.len() == names@.len(),
            names@.len() <= 2 * k,
            input@.len() < usize::MAX / 4,
            (names_view(names@), adj_view(adj@)) == graph_after(input@, k as int),
            forall|i: int, j: int|
                0 <= i < adj@.len() && 0 <= j < adj@[i]@.len() ==> #[trigger] adj@[i]@[j] < names@.len(),
        decreases input@.len() - k,
    {
        let ghost n0 = names_view(names@);
        let ghost a0 = adj_view(adj@);
        let ia = name_index(&mut names, &mut adj, &input[k].0);
        let ghost n1 = names_view(names@);
        let ib = name_index(&mut names, &mut adj, &input[k].1);
        proof {
            lemma_index_from(n1, input@[k as int].0@, 0);
            if names@.len() > n1.len() {
                assert(names_view(names@) =~= n1.push(input@[k as int].1@));
            } else {
                assert(names_view(names@) =~= n1);
            }
            assert(index_of(names_view(names@), input@[k as int].0@) == Some(ia as int));
        }
        let ghost adj_before = adj@;
        let ghost len_before = names@.len();
        proof {
            assert forall|i: int, j: int|
                0 <= i < adj@.len() && 0 <= j < adj@[i]@.len() implies #[trigger] adj@[i]@[j] < names@.len() by {
                if i < a0.len() {
                }
            }
        }
        push_tunnel(&mut adj, ia, ib);
        push_tunnel(&mut adj, ib, ia);
        proof {
            assert forall|i: int, j: int|
                0 <= i < adj@.len() && 0 <= j < adj@[i]@.len() implies #[trigger] adj@[i]@[j] < names@.len() by {
                if !(i == ia && j == adj_before[i]@.len()) && !(i == ib && j == adj_before[i]@.len() + if ia == ib { 1int } else { 0int }) {
                    if j < adj_before[i]@.len() {
                        assert(adj_before[i]@[j] < names@.len());
                    }
                }
            }
        }
        k = k + 1;
    }
    let mut any_lower: Vec<bool> = Vec::new();
    let mut all_lower: Vec<bool> = Vec::new();
    let mut i: usize = 0;
    while i < names.len()
        invariant
            i <= names@.len(),
            any_lower@.len() == i,
            all_lower@.len() == i,
            forall|j: int| 0 <= j < i ==> #[trigger] any_lower@[j] == some_lowercase(names@[j]@),
            forall|j: int| 0 <= j < i ==> #[trigger] all_lower@[j] == all_lowercase(names@[j]@),
        decreases names@.len() - i,
    {
        let (any, all) = has_lowercase(names[i].as_str());
        any_lower.push(any);
        all_lower.push(all);
        i = i + 1;
    }
    Caves { names, adj, any_lower, all_lower }
}

/// Whether a walk that has passed `path` may go on into cave `next`: a cave
/// with a lowercase letter (all lowercase, with `revisit`) only once, except
/// that with `revisit`, while `twice` is not yet spent, one such cave other
/// than the start may be entered a second time.
pub open spec fn may_enter(names: Seq<Seq<char>>, path: Seq<int>, next: int, start: int, revisit: bool, twice: bool) -> bool {
    if revisit {
        !all_lowercase(names[next]) || !path.contains(next) || (!twice && next != start)
    } else {
        !some_lowercase(names[next]) || !path.contains(next)
    }
}

pub open spec fn spends_twice(names: Seq<Seq<char>>, path: Seq<int>, next: int, revisit: bool, twice: bool) -> bool {
    twice || (revisit && all_lowercase(names[next]) && path.contains(next))
}

/// The number of walks that go on from `path` to the end cave in at most
/// `fuel` more steps, each step into a cave that `may_enter` allows; a walk
/// stops on entering the end cave.
pub open spec fn paths(names: Seq<Seq<char>>, adj: Seq<Seq<int>>, path: Seq<int>, start: int, end: int, revisit: bool, twice: bool, fuel: nat) -> int
    decreases fuel, 1int, 0int,
{
    if fuel == 0 || path.len() == 0 || !(0 <= path.last() < adj.len()) {
        0
    } else {
        steps(names, adj, path, start, end, revisit, twice, fuel, adj[path.last()].len() as int)
    }
}

/// The walks through the first `j` tunnels out of the last cave of `path`.
pub open spec fn steps(names: Seq<Seq<char>>, adj: Seq<Seq<int>>, path: Seq<int>, start: int, end: int, revisit: bool, twice: bool, fuel: nat, j: int) -> int
    decreases fuel, 0int, j,
{
    if j <= 0 || fuel == 0 || path.len() == 0 || !(0 <= path.last() < adj.len()) || j > adj[path.last()].len() {
        0
    } else {
        let next = adj[path.last()][j - 1];
        steps(names, adj, path, start, end, revisit, twice, fuel, j - 1) + if next == end {
            1
        } else if 0 <= next < names.len() && may_enter(names, path, next, start, revisit, twice) {
            paths(names, adj, path.push(next), start, end, revisit, spends_twice(names, path, next, revisit, twice), (fuel - 1) as nat)
        } else {
            0
        }
    }
}

proof fn lemma_steps_nonneg(names: Seq<Seq<char>>, adj: Seq<Seq<int>>, path: Seq<int>, start: int, end: int, revisit: bool, twice: bool, fuel: nat, j: int)
    ensures
        steps(names, adj, path, start, end, revisit, twice, fuel, j) >= 0,
    decreases fuel, j,
{
    if fuel > 0 && j > 0 {
        lemma_steps_nonneg(names, adj, path, start, end, revisit, twice, fuel, j - 1);
        if path.len() > 0 && 0 <= path.last() < adj.len() && j <= adj[path.last()].len() {
            let next = adj[path.last()][j - 1];
            let longer = path.push(next);
            let t2 = spends_twice(names, path, next, revisit, twice);
            if 0 <= longer.last() < adj.len() {
                lemma_steps_nonneg(names, adj, longer, start, end, revisit, t2, (fuel - 1) as nat, adj[longer.last()].len() as int);
            }
            assert(paths(names, adj, longer, start, end, revisit, t2, (fuel - 1) as nat) >= 0);
        }
    }
}

proof fn lemma_paths_nonneg(names: Seq<Seq<char>>, adj: Seq<Seq<int>>, path: Seq<int>, start: int, end: int, revisit: bool, twice: bool, fuel: nat, j: int)
    ensures
        paths(names, adj, path, start, end, revisit, twice, fuel) >= 0,
        steps(names, adj, path, start, end, revisit, twice, fuel, j) >= 0,
{
    lemma_steps_nonneg(names, adj, path, start, end, revisit, twice, fuel, j);
    if path.len() > 0 && 0 <= path.last() < adj.len() {
        lemma_steps_nonneg(names, adj, path, start, end, revisit, twice, fuel, adj[path.last()].len() as int);
    }
}

/// `vec` with `value` after its items.
pub fn chain_vec(vec: &[usize], value: usize) -> (r: Vec<usize>)
    ensures
        r@ == vec@.push(value),
{
    let mut new: Vec<usize> = Vec::new();
    let mut i: usize = 0;
    while i < vec.len()
        invariant
            i <= vec@.len(),
            new@ == vec@.take(i as int),
        decreases vec@.len() - i,
    {
        new.push(vec[i]);
        assert(new@ =~= vec@.take(i + 1));
        i = i + 1;
    }
    assert(vec@.take(vec@.len() as int) =~= vec@);
    new.push(value);
    new
}

fn path_contains(path: &Vec<usize>, v: usize) -> (r: bool)
    ensures
        r == path@.map_values(|x: usize| x as int).contains(v as int),
{
    let mut i: usize = 0;
    while i < path.len()
        invariant
            i <= path@.len(),
            forall|k: int| 0 <= k < i ==> path@[k] != v,
        decreases path@.len() - i,
    {
        if path[i] == v {
            assert(path@.map_values(|x: usize| x as int)[i as int] == v as int);
            return true;
        }
        i = i + 1;
    }
    false
}

/// Counts the walks of `paths` from `path`.
fn explore_from(g: &Caves, path: &Vec<usize>, start: Option<usize>, end: Option<usize>, revisit: bool, twice: bool, fuel: usize) -> (r: Option<i64>)
    requires
        well_formed(*g),
        path@.len() > 0,
        path@.last() < g.names@.len(),
    ensures
        match r {
            Some(v) => v == paths(names_view(g.names@), adj_view(g.adj@), path@.map_values(|x: usize| x as int), opt_index(match start { Some(x) => Some(x as int), None => None }), match end { Some(e) => e as int, None => -1 }, revisit, twice, fuel as nat),
            None => paths(names_view(g.names@), adj_view(g.adj@), path@.map_values(|x: usize| x as int), opt_index(match start { Some(x) => Some(x as int), None => None }), match end { Some(e) => e as int, None => -1 }, revisit, twice, fuel as nat) > i64::MAX,
        },
    decreases fuel,
{
    let ghost pv = path@.map_values(|x: usize| x as int);
    let ghost e = match end { Some(e) => e as int, None => -1 };
    if fuel == 0 {
        return Some(0);
    }
    let last = path[path.len() - 1];
    assert(pv.last() == last as int);
    let tunnels = &g.adj[last];
    let mut sum: i64 = 0;
    let mut j: usize = 0;
    while j < tunnels.len()
        invariant
            well_formed(*g),
            j <= tunnels@.len(),
            tunnels@ == g.adj@[last as int]@,
            last < g.names@.len(),
            pv == path@.map_values(|x: usize| x as int),
            pv.len() > 0,
            pv.last() == last as int,
            fuel > 0,
            sum == steps(names_view(g.names@), adj_view(g.adj@), pv, opt_index(match start { Some(x) => Some(x as int), None => None }), e, revisit, twice, fuel as nat, j as int),
            e == match end { Some(e) => e as int, None => -1 },
        decreases tunnels@.len() - j,
    {
        let next = tunnels[j];
        proof {
            lemma_steps_grow(names_view(g.names@), adj_view(g.adj@), pv, opt_index(match start { Some(x) => Some(x as int), None => None }), e, revisit, twice, fuel as nat, j + 1, tunnels@.len() as int);
            lemma_paths_nonneg(names_view(g.names@), adj_view(g.adj@), pv, opt_index(match start { Some(x) => Some(x as int), None => None }), e, revisit, twice, fuel as nat, j as int);
        }
        let is_end = match end {
            Some(x) => x == next,
            None => false,
        };
        if is_end {
            match sum.checked_add(1) {
                Some(t) => {
                    sum = t;
                },
                None => {
                    return None;
                },
            }
        } else {
            let seen = path_contains(path, next);
            let allowed = if revisit {
                !g.all_lower[next] || !seen || (!twice && match start { Some(x) => next != x, None => true })
            } else {
                !g.any_lower[next] || !seen
            };
            if allowed {
                let now_twice = twice || (revisit && g.all_lower[next] && seen);
                let longer = chain_vec(path.as_slice(), next);
                proof {
                    assert(longer@.map_values(|x: usize| x as int) =~= pv.push(next as int));
                    lemma_paths_nonneg(names_view(g.names@), adj_view(g.adj@), pv.push(next as int), opt_index(match start { Some(x) => Some(x as int), None => None }), e, revisit, now_twice, (fuel - 1) as nat, 0);
                }
                match explore_from(g, &longer, start, end, revisit, now_twice, fuel - 1) {
                    Some(more) => match sum.checked_add(more) {
                        Some(t) => {
                            sum = t;
                        },
                        None => {
                            return None;
                        },
                    },
                    None => {
                        return None;
                    },
                }
            }
        }
        j = j + 1;
    }
    Some(sum)
}

proof fn lemma_steps_grow(names: Seq<Seq<char>>, adj: Seq<Seq<int>>, path: Seq<int>, start: int, end: int, revisit: bool, twice: bool, fuel: nat, j: int, n: int)
    requires
        0 <= j <= n,
    ensures
        steps(names, adj, path, start, end, revisit, twice, fuel, j) <= steps(names, adj, path, start, end, revisit, twice, fuel, n)
            || (path.len() > 0 && 0 <= path.last() < adj.len() && n > adj[path.last()].len()),
    decreases n,
{
    if j < n {
        lemma_steps_grow(names, adj, path, start, end, revisit, twice, fuel, j, n - 1);
        if n - 1 >= 0 && path.len() > 0 && fuel > 0 && 0 <= path.last() < adj.len() && n <= adj[path.last()].len() {
            let next = adj[path.last()][n - 1];
            lemma_paths_nonneg(names, adj, path.push(next), start, end, revisit, spends_twice(names, path, next, revisit, twice), (fuel - 1) as nat, 0);
        }
    }
}

/// The index of the cave called `s`, if there is one.
fn find_name(names: &Vec<String>, s: &String) -> (r: Option<usize>)
    ensures
        match r {
            Some(i) => index_of(names_view(names@), s@) == Some(i as int),
            None => index_of(names_view(names@), s@) is None,
        },
{
    let ghost nv = names_view(names@);
    let mut i: usize = 0;
    while i < names.len()
        invariant
            i <= names@.len(),
            nv == names_view(names@),
            index_of(nv, s@) == index_from(nv, s@, i as int),
        decreases names@.len() - i,
    {
        if names[i] == *s {
            return Some(i);
        }
        i = i + 1;
    }
    None
}

pub open spec fn opt_index(o: Option<int>) -> int {
    match o {
        Some(i) => i,
        None => -1,
    }
}

/// The number of steps a walk may take: more than any walk that the rules
/// allow needs, where no two caves without a lowercase letter are joined.
pub open spec fn walk_bound(g: Caves) -> nat {
    (2 * g.names@.len() + 2) as nat
}

pub open spec fn named(g: Caves, s: &str) -> int {
    opt_index(index_of(names_view(g.names@), s@))
}

/// The number of walks from `path` on to the cave called "end", entering
/// a cave with a lowercase letter at most once; `None` where it leaves `i64`.
pub fn explore(tunnels: &Caves, path: Vec<usize>) -> (r: Option<i64>)
    requires
        well_formed(*tunnels),
        path@.len() > 0,
        path@.last() < tunnels.names@.len(),
        2 * tunnels.names@.len() + 2 <= usize::MAX,
    ensures
        match r {
            Some(v) => v == paths(names_view(tunnels.names@), adj_view(tunnels.adj@), path@.map_values(|x: usize| x as int), named(*tunnels, "start"), named(*tunnels, "end"), false, false, walk_bound(*tunnels)),
            None => paths(names_view(tunnels.names@), adj_view(tunnels.adj@), path@.map_values(|x: usize| x as int), named(*tunnels, "start"), named(*tunnels, "end"), false, false, walk_bound(*tunnels)) > i64::MAX,
        },
{
    let start = find_name(&tunnels.names, &String::from_str("start"));
    let end = find_name(&tunnels.names, &String::from_str("end"));
    explore_from(tunnels, &path, start, end, false, false, 2 * tunnels.names.len() + 2)
}

/// The number of walks from `path` on to the cave called "end", entering a
/// cave of lowercase letters at most once, except that one such cave other
/// than "start" may be entered twice unless `visited_twice` says that this
/// has happened already; `None` where the number leaves `i64`.
pub fn explore_twice(tunnels: &Caves, path: Vec<usize>, visited_twice: bool) -> (r: Option<i64>)
    requires
        well_formed(*tunnels),
        path@.len() > 0,
        path@.last() < tunnels.names@.len(),
        2 * tunnels.names@.len() + 2 <= usize::MAX,
    ensures
        match r {
            Some(v) => v == paths(names_view(tunnels.names@), adj_view(tunnels.adj@), path@.map_values(|x: usize| x as int), named(*tunnels, "start"), named(*tunnels, "end"), true, visited_twice, walk_bound(*tunnels)),
            None => paths(names_view(tunnels.names@), adj_view(tunnels.adj@), path@.map_values(|x: usize| x as int), named(*tunnels, "start"), named(*tunnels, "end"), true, visited_twice, walk_bound(*tunnels)) > i64::MAX,
        },
{
    let start = find_name(&tunnels.names, &String::from_str("start"));
    let end = find_name(&tunnels.names, &String::from_str("end"));
    explore_from(tunnels, &path, start, end, true, visited_twice, 2 * tunnels.names.len() + 2)
}

/// The number of walks from the cave called "start" to the one called "end"
/// under the rules of `explore` (or, with `revisit`, of `explore_twice`), in
/// the cave graph of the tunnels; `None` where no cave is called "start".
pub open spec fn cave_paths(input: Seq<(String, String)>, revisit: bool) -> Option<int> {
    let names = graph_after(input, input.len() as int).0;
    match index_of(names, "start"@) {
        Some(s) => Some(
            paths(
                names,
                graph_after(input, input.len() as int).1,
                seq![s],
                s,
                opt_index(index_of(names, "end"@)),
                revisit,
                false,
                (2 * names.len() + 2) as nat,
            ),
        ),
        None => None,
    }
}

fn count_from_start(input: &[(String, String)], revisit: bool) -> (r: Option<i64>)
    requires
        input@.len() < usize::MAX / 4,
    ensures
        match cave_paths(input@, revisit) {
            Some(c) => if c <= i64::MAX {
                r == Some(c as i64)
            } else {
                r is None
            },
            None => r is None,
        },
{
    let tunnels = input_to_map(input);
    let start = find_name(&tunnels.names, &String::from_str("start"));
    match start {
        Some(s) => {
            let path = vec![s];
            proof {
                assert(path@.map_values(|x: usize| x as int) =~= seq![s as int]);
                lemma_index_from(names_view(tunnels.names@), "start"@, 0);
            }
            if revisit {
                explore_twice(&tunnels, path, false)
            } else {
                explore(&tunnels, path)
            }
        },
        None => None,
    }
}

/// The number of walks from "start" to "end" that enter each cave with a
/// lowercase letter at most once; `None` where no cave is called "start" or
/// the number leaves `i64`.
pub fn part1(input: &[(String, String)]) -> (r: Option<i64>)
    requires
        input@.len() < usize::MAX / 4,
    ensures
        match cave_paths(input@, false) {
            Some(c) => if c <= i64::MAX {
                r == Some(c as i64)
            } else {
                r is None
            },
            None => r is None,
        },
{
    count_from_start(input, false)
}

/// The number of walks from "start" to "end" that enter caves of lowercase
/// letters at most once, but one of them (not "start") twice; `None` where
/// no cave is called "start" or the number leaves `i64`.
pub fn part2(input: &[(String, String)]) -> (r: Option<i64>)
    requires
        input@.len() < usize::MAX / 4,
    ensures
        match cave_paths(input@, true) {
            Some(c) => if c <= i64::MAX {
                r == Some(c as i64)
            } else {
                r is None
            },
            None => r is None,
        },
{
    count_from_start(input, true)
}

/// The tunnels of the first `k` lines, each "a-b"; `None` where a line has
/// no "-" or more than one.
pub open spec fn tunnels_of(lines: Seq<String>, k: int) -> Option<Seq<(Seq<char>, Seq<char>)>>
    decreases k,
{
    if k <= 0 {
        Some(seq![])
    } else {
        let ps = pieces(lines[k - 1]@, '-');
        match tunnels_of(lines, k - 1) {
            Some(ts) => if ps.len() == 2 {
                Some(ts.push((ps[0], ps[1])))
            } else {
                None
            },
            None => None,
        }
    }
}

proof fn lemma_tunnels_fail(lines: Seq<String>, k: int, n: int)
    requires
        1 <= k <= n,
        tunnels_of(lines, k) is None,
    ensures
        tunnels_of(lines, n) is None,
    decreases n,
{
    if k < n {
        lemma_tunnels_fail(lines, k, n - 1);
    }
}

pub open spec fn pairs_view(v: Seq<(String, String)>) -> Seq<(Seq<char>, Seq<char>)> {
    v.map_values(|p: (String, String)| (p.0@, p.1@))
}

/// The tunnels, one "a-b" per line.
pub fn read_input(lines: &[String]) -> (r: Option<Vec<(String, String)>>)
    ensures
        match r {
            Some(v) => tunnels_of(lines@, lines@.len() as int) == Some(pairs_view(v@)),
            None => tunnels_of(lines@, lines@.len() as int) is None,
        },
{
    let mut out: Vec<(String, String)> = Vec::new();
    let mut i: usize = 0;
    while i < lines.len()
        invariant
            i <= lines@.len(),
            tunnels_of(lines@, i as int) == Some(pairs_view(out@)),
        decreases lines@.len() - i,
    {
        match split_pair(lines[i].as_str(), '-') {
            Some(t) => {
                let ghost before = out@;
                out.push(t);
                proof {
                    assert(pairs_view(out@) =~= pairs_view(before).push((t.0@, t.1@)));
                }
            },
            None => {
                proof {
                    lemma_tunnels_fail(lines@, i + 1, lines@.len() as int);
                }
                return None;
            },
        }
        i = i + 1;
    }
    Some(out)
}

} // verus!
