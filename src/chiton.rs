use vstd::prelude::*;
use vstd::arithmetic::div_mod::lemma_fundamental_div_mod;
use vstd::set_lib::{lemma_int_range, lemma_len_subset, set_int_range};

verus! {

/// An edge into `node` whose use costs `cost`.
pub struct Edge {
    pub node: usize,
    pub cost: usize,
}

impl Edge {
    pub open spec fn view(&self) -> (int, int) {
        (self.node as int, self.cost as int)
    }
}

pub open spec fn edges_view(es: Seq<Edge>) -> Seq<(int, int)> {
    es.map_values(|e: Edge| e@)
}

/// A grid of digits with at least one row, all rows as long as the first and
/// not empty.
pub open spec fn is_grid(grid: Seq<Vec<u8>>) -> bool {
    &&& grid.len() > 0
    &&& grid[0]@.len() > 0
    &&& forall|r: int| 0 <= r < grid.len() ==> #[trigger] grid[r]@.len() == grid[0]@.len()
}

pub open spec fn cell(grid: Seq<Vec<u8>>, r: int, c: int) -> int {
    grid[r]@[c] as int
}

/// The edges out of the cell at row `r`, column `c` of an `h` by `w` grid:
/// to the cell above, left, right and below, where there is one, each costing
/// the value of the cell it enters. Cells are numbered row by row.
pub open spec fn cell_edges(grid: Seq<Vec<u8>>, h: int, w: int, r: int, c: int) -> Seq<(int, int)> {
    (if r > 0 {
        seq![((r - 1) * w + c, cell(grid, r - 1, c))]
    } else {
        seq![]
    }) + (if c > 0 {
        seq![(r * w + c - 1, cell(grid, r, c - 1))]
    } else {
        seq![]
    }) + (if c + 1 < w {
        seq![(r * w + c + 1, cell(grid, r, c + 1))]
    } else {
        seq![]
    }) + (if r + 1 < h {
        seq![((r + 1) * w + c, cell(grid, r + 1, c))]
    } else {
        seq![]
    })
}

/// Builds the graph of a grid: one node per cell, numbered row by row, with
/// the edges of `cell_edges`.
pub fn create_graph(input: &[Vec<u8>]) -> (graph: Vec<Vec<Edge>>)
    requires
        is_grid(input@),
        input@.len() * input@[0]@.len() <= usize::MAX,
    ensures
        graph@.len() == input@.len() * input@[0]@.len(),
        forall|k: int|
            0 <= k < graph@.len() ==> edges_view(#[trigger] graph@[k]@) == cell_edges(
                input@,
                input@.len() as int,
                input@[0]@.len() as int,
                k / (input@[0]@.len() as int),
                k % (input@[0]@.len() as int),
            ),
{
    let height = input.len();
    let width = input[0].len();
    let total = height * width;
    let mut graph: Vec<Vec<Edge>> = Vec::new();
    let mut k: usize = 0;
    while k < total
        invariant
            k <= total,
            total == height * width,
            height == input@.len(),
            width == input@[0]@.len(),
            is_grid(input@),
            graph@.len() == k,
            forall|j: int|
                0 <= j < k ==> edges_view(#[trigger] graph@[j]@) == cell_edges(
                    input@,
                    height as int,
                    width as int,
                    j / (width as int),
                    j % (width as int),
                ),
        decreases total - k,
    {
        let row = k / width;
        let column = k % width;
        proof {
            lemma_fundamental_div_mod(k as int, width as int);
            assert(row < height) by (nonlinear_arith)
                requires
                    k < height * width,
                    k == width * row + column,
                    0 <= column,
                    width > 0,
            ;
            assert((row - 1) * width + column == k - width) by (nonlinear_arith)
                requires
                    k == width * row + column,
            ;
            assert((row + 1) * width + column == k + width) by (nonlinear_arith)
                requires
                    k == width * row + column,
            ;
            assert(row * width + column == k) by (nonlinear_arith)
                requires
                    k == width * row + column,
            ;
        }
        let mut edges: Vec<Edge> = Vec::new();
        let ghost h = height as int;
        let ghost w = width as int;
        if row > 0 {
            edges.push(Edge { node: k - width, cost: input[row - 1][column] as usize });
        }
        assert(edges_view(edges@) =~= (if row > 0 {
            seq![((row - 1) * w + column, cell(input@, row - 1, column as int))]
        } else {
            seq![]
        }));
        let ghost e1 = edges_view(edges@);
        if column > 0 {
            edges.push(Edge { node: k - 1, cost: input[row][column - 1] as usize });
        }
        assert(edges_view(edges@) =~= e1 + (if column > 0 {
            seq![(row * w + column - 1, cell(input@, row as int, column - 1))]
        } else {
            seq![]
        }));
        let ghost e2 = edges_view(edges@);
        if column + 1 < width {
            edges.push(Edge { node: k + 1, cost: input[row][column + 1] as usize });
        }
        assert(edges_view(edges@) =~= e2 + (if column + 1 < width {
            seq![(row * w + column + 1, cell(input@, row as int, column + 1))]
        } else {
            seq![]
        }));
        let ghost e3 = edges_view(edges@);
        if row + 1 < height {
            proof {
                assert(k + width < total) by (nonlinear_arith)
                    requires
                        k == width * row + column,
                        row + 1 < height,
                        column < width,
                        total == height * width,
                ;
            }
            edges.push(Edge { node: k + width, cost: input[row + 1][column] as usize });
        }
        assert(edges_view(edges@) =~= e3 + (if row + 1 < height {
            seq![((row + 1) * w + column, cell(input@, row + 1, column as int))]
        } else {
            seq![]
        }));
        graph.push(edges);
        k = k + 1;
    }
    graph
}

/// The cost of a cell of value `c` in a tile `t` steps away from the first:
/// raised by `t`, wrapping from 9 round to 1.
pub open spec fn tile_cost(c: int, t: int) -> int {
    if c + t > 9 {
        c + t - 9
    } else {
        c + t
    }
}

/// For costs 1 to 9 and offsets up to 8 (four tiles across and four down),
/// the tiled cost is `((c - 1 + t) mod 9) + 1` and stays within 1 to 9.
pub proof fn lemma_tile_cost_wraps(c: int, t: int)
    requires
        1 <= c <= 9,
        0 <= t <= 8,
    ensures
        tile_cost(c, t) == ((c - 1 + t) % 9) + 1,
        1 <= tile_cost(c, t) <= 9,
{
}

/// The digits of a grid are at most 9.
pub open spec fn is_digit_grid(grid: Seq<Vec<u8>>) -> bool {
    &&& is_grid(grid)
    &&& forall|r: int, c: int|
        0 <= r < grid.len() && 0 <= c < grid[r]@.len() ==> #[trigger] grid[r]@[c] <= 9
}

/// Five copies of the grid across and five down, each raised by its distance
/// in tiles from the first with `tile_cost`.
pub fn extend_input(input: &[Vec<u8>]) -> (extended: Vec<Vec<u8>>)
    requires
        is_digit_grid(input@),
        5 * input@.len() <= usize::MAX,
        5 * input@[0]@.len() <= usize::MAX,
    ensures
        extended@.len() == 5 * input@.len(),
        forall|r: int|
            0 <= r < extended@.len() ==> #[trigger] extended@[r]@.len() == 5 * input@[0]@.len(),
        forall|r: int, c: int|
            0 <= r < extended@.len() && 0 <= c < 5 * input@[0]@.len() ==> #[trigger] extended@[r]@[c]
                == tile_cost(
                cell(input@, r % input@.len() as int, c % input@[0]@.len() as int),
                r / input@.len() as int + c / input@[0]@.len() as int,
            ),
{
    let height = input.len();
    let width = input[0].len();
    let mut extended: Vec<Vec<u8>> = Vec::new();
    let mut r: usize = 0;
    while r < 5 * height
        invariant
            height == input@.len(),
            width == input@[0]@.len(),
            is_digit_grid(input@),
            5 * height <= usize::MAX,
            5 * width <= usize::MAX,
            r <= 5 * height,
            extended@.len() == r,
            forall|i: int| 0 <= i < r ==> #[trigger] extended@[i]@.len() == 5 * width,
            forall|i: int, c: int|
                0 <= i < r && 0 <= c < 5 * width ==> #[trigger] extended@[i]@[c] == tile_cost(
                    cell(input@, i % height as int, c % width as int),
                    i / height as int + c / width as int,
                ),
        decreases 5 * height - r,
    {
        let tile_row = r / height;
        let src = r % height;
        proof {
            assert(tile_row < 5) by (nonlinear_arith)
                requires
                    r < 5 * height,
                    tile_row == r / height,
                    height > 0,
            ;
        }
        let mut row: Vec<u8> = Vec::new();
        let mut c: usize = 0;
        while c < 5 * width
            invariant
                height == input@.len(),
                width == input@[0]@.len(),
                is_digit_grid(input@),
                5 * width <= usize::MAX,
                r < 5 * height,
                tile_row == r / height,
                tile_row < 5,
                src == r % height,
                c <= 5 * width,
                row@.len() == c,
                forall|j: int|
                    0 <= j < c ==> #[trigger] row@[j] == tile_cost(
                        cell(input@, src as int, j % width as int),
                        tile_row + j / width as int,
                    ),
            decreases 5 * width - c,
        {
            let tile_column = c / width;
            proof {
                assert(tile_column < 5) by (nonlinear_arith)
                    requires
                        c < 5 * width,
                        tile_column == c / width,
                        width > 0,
                ;
                assert(input@[src as int]@.len() == width);
            }
            let base = input[src][c % width];
            let risk = base + (tile_row + tile_column) as u8;
            row.push(
                if risk > 9 {
                    risk - 9
                } else {
                    risk
                },
            );
            c = c + 1;
        }
        extended.push(row);
        r = r + 1;
    }
    extended
}

pub open spec fn is_edge(adj: Seq<Vec<Edge>>, u: int, j: int) -> bool {
    0 <= u < adj.len() && 0 <= j < adj[u]@.len()
}

pub open spec fn edge_target(adj: Seq<Vec<Edge>>, u: int, j: int) -> int {
    adj[u]@[j].node as int
}

pub open spec fn edge_cost(adj: Seq<Vec<Edge>>, u: int, j: int) -> int {
    adj[u]@[j].cost as int
}

/// Every edge enters a node of the graph, and costs less than `usize::MAX`
/// divided by the number of nodes, so that no shortest distance leaves `usize`.
pub open spec fn is_search_graph(adj: Seq<Vec<Edge>>) -> bool {
    &&& adj.len() > 0
    &&& forall|u: int, j: int|
        #[trigger] is_edge(adj, u, j) ==> 0 <= edge_target(adj, u, j) < adj.len() && edge_cost(
            adj,
            u,
            j,
        ) < (usize::MAX as int) / (adj.len() as int)
}

/// `nodes` and `edges` spell a walk from `from` to `to`: edge `edges[i]` of
/// node `nodes[i]` enters `nodes[i + 1]`.
pub open spec fn is_path(
    adj: Seq<Vec<Edge>>,
    nodes: Seq<int>,
    edges: Seq<int>,
    from: int,
    to: int,
) -> bool {
    &&& nodes.len() == edges.len() + 1
    &&& nodes[0] == from
    &&& nodes.last() == to
    &&& forall|i: int|
        0 <= i < edges.len() ==> #[trigger] is_edge(adj, nodes[i], edges[i]) && edge_target(
            adj,
            nodes[i],
            edges[i],
        ) == nodes[i + 1]
}

/// The sum of the costs of the edges of a walk.
pub open spec fn path_cost(adj: Seq<Vec<Edge>>, nodes: Seq<int>, edges: Seq<int>) -> int
    decreases edges.len(),
{
    if edges.len() == 0 {
        0
    } else {
        path_cost(adj, nodes.drop_last(), edges.drop_last()) + edge_cost(
            adj,
            nodes[edges.len() - 1],
            edges.last(),
        )
    }
}

pub open spec fn reachable(adj: Seq<Vec<Edge>>, from: int, to: int) -> bool {
    exists|nodes: Seq<int>, edges: Seq<int>| is_path(adj, nodes, edges, from, to)
}

/// `d` is the least cost of a walk from `from` to `to`.
pub open spec fn is_shortest_distance(adj: Seq<Vec<Edge>>, from: int, to: int, d: int) -> bool {
    &&& exists|nodes: Seq<int>, edges: Seq<int>|
        is_path(adj, nodes, edges, from, to) && path_cost(adj, nodes, edges) == d
    &&& forall|nodes: Seq<int>, edges: Seq<int>|
        is_path(adj, nodes, edges, from, to) ==> d <= path_cost(adj, nodes, edges)
}

/// An entry of the search frontier: a node and a cost at which it was reached.
#[derive(Clone, Copy)]
pub struct State {
    pub cost: usize,
    pub position: usize,
}

pub open spec fn sum_dist(s: Seq<usize>) -> int
    decreases s.len(),
{
    if s.len() == 0 {
        0
    } else {
        sum_dist(s.drop_last()) + s.last()
    }
}

proof fn lemma_sum_dist_lowered(s: Seq<usize>, i: int, x: usize)
    requires
        0 <= i < s.len(),
        x < s[i],
    ensures
        sum_dist(s.update(i, x)) < sum_dist(s),
        sum_dist(s) >= 0,
    decreases s.len(),
{
    lemma_sum_dist_nonneg(s);
    if i < s.len() - 1 {
        lemma_sum_dist_lowered(s.drop_last(), i, x);
        assert(s.update(i, x).drop_last() =~= s.drop_last().update(i, x));
    } else {
        assert(s.update(i, x).drop_last() =~= s.drop_last());
    }
}

proof fn lemma_sum_dist_nonneg(s: Seq<usize>)
    ensures
        sum_dist(s) >= 0,
    decreases s.len(),
{
    if s.len() > 0 {
        lemma_sum_dist_nonneg(s.drop_last());
    }
}

proof fn lemma_extend_path(
    adj: Seq<Vec<Edge>>,
    nodes: Seq<int>,
    edges: Seq<int>,
    from: int,
    u: int,
    j: int,
)
    requires
        is_path(adj, nodes, edges, from, u),
        is_edge(adj, u, j),
    ensures
        is_path(adj, nodes.push(edge_target(adj, u, j)), edges.push(j), from, edge_target(adj, u, j)),
        path_cost(adj, nodes.push(edge_target(adj, u, j)), edges.push(j)) == path_cost(
            adj,
            nodes,
            edges,
        ) + edge_cost(adj, u, j),
{
    let y = edge_target(adj, u, j);
    let ns = nodes.push(y);
    let es = edges.push(j);
    assert(ns.drop_last() =~= nodes);
    assert(es.drop_last() =~= edges);
    assert forall|i: int| 0 <= i < es.len() implies #[trigger] is_edge(adj, ns[i], es[i])
        && edge_target(adj, ns[i], es[i]) == ns[i + 1] by {
        if i < edges.len() {
            assert(is_edge(adj, nodes[i], edges[i]));
        }
    }
}

/// The facts of the search that bound every walk from the start.
pub open spec fn frontier_facts(
    adj: Seq<Vec<Edge>>,
    start: int,
    dist: Seq<usize>,
    done: Set<int>,
    fr: Seq<State>,
) -> bool {
    &&& dist.len() == adj.len()
    &&& dist[start] == 0
    &&& forall|v: int|
        0 <= v < adj.len() && !done.contains(v) && dist[v] < usize::MAX ==> exists|i: int|
            0 <= i < fr.len() && #[trigger] fr[i] == (State { cost: dist[v], position: v as usize })
    &&& forall|u: int, j: int|
        done.contains(u) && #[trigger] is_edge(adj, u, j) ==> dist[edge_target(adj, u, j)]
            < usize::MAX && dist[edge_target(adj, u, j)] <= dist[u] + edge_cost(adj, u, j)
}

/// With `c` no more than any frontier entry and no less than the distance of
/// any finished node, every walk from the start to an unfinished node costs at
/// least `c`, and every walk to a finished node costs at least its distance.
proof fn lemma_frontier_bounds_paths(
    adj: Seq<Vec<Edge>>,
    start: int,
    dist: Seq<usize>,
    done: Set<int>,
    fr: Seq<State>,
    c: int,
    nodes: Seq<int>,
    edges: Seq<int>,
    to: int,
    k: int,
)
    requires
        is_search_graph(adj),
        0 <= start < adj.len(),
        frontier_facts(adj, start, dist, done, fr),
        forall|i: int| 0 <= i < fr.len() ==> c <= #[trigger] fr[i].cost,
        forall|v: int| done.contains(v) ==> dist[v] <= c,
        is_path(adj, nodes, edges, start, to),
        0 <= k <= edges.len(),
    ensures
        done.contains(nodes[k]) ==> dist[nodes[k]] <= path_cost(
            adj,
            nodes.subrange(0, k + 1),
            edges.subrange(0, k),
        ),
        !done.contains(nodes[k]) ==> c <= path_cost(
            adj,
            nodes.subrange(0, k + 1),
            edges.subrange(0, k),
        ),
    decreases k,
{
    if k == 0 {
        if !done.contains(start) {
            let i = choose|i: int|
                0 <= i < fr.len() && #[trigger] fr[i] == (State {
                    cost: dist[start],
                    position: start as usize,
                });
            assert(c <= fr[i].cost);
        }
        assert(edges.subrange(0, 0).len() == 0);
    } else {
        lemma_frontier_bounds_paths(adj, start, dist, done, fr, c, nodes, edges, to, k - 1);
        let ns = nodes.subrange(0, k + 1);
        let es = edges.subrange(0, k);
        assert(ns.drop_last() =~= nodes.subrange(0, k));
        assert(es.drop_last() =~= edges.subrange(0, k - 1));
        let x = nodes[k - 1];
        let y = nodes[k];
        assert(is_edge(adj, nodes[k - 1], edges[k - 1]));
        assert(path_cost(adj, ns, es) == path_cost(
            adj,
            nodes.subrange(0, k),
            edges.subrange(0, k - 1),
        ) + edge_cost(adj, x, edges[k - 1]));
        if done.contains(x) {
            if !done.contains(y) {
                assert(0 <= y < adj.len());
                let i = choose|i: int|
                    0 <= i < fr.len() && #[trigger] fr[i] == (State {
                        cost: dist[y],
                        position: y as usize,
                    });
                assert(c <= fr[i].cost);
            }
        }
    }
}

/// Once the frontier is empty, every node that a walk from the start reaches
/// is finished.
proof fn lemma_empty_frontier_closed(
    adj: Seq<Vec<Edge>>,
    start: int,
    dist: Seq<usize>,
    done: Set<int>,
    fr: Seq<State>,
    nodes: Seq<int>,
    edges: Seq<int>,
    to: int,
    k: int,
)
    requires
        is_search_graph(adj),
        0 <= start < adj.len(),
        frontier_facts(adj, start, dist, done, fr),
        fr.len() == 0,
        is_path(adj, nodes, edges, start, to),
        0 <= k <= edges.len(),
    ensures
        done.contains(nodes[k]),
    decreases k,
{
    if k > 0 {
        lemma_empty_frontier_closed(adj, start, dist, done, fr, nodes, edges, to, k - 1);
        assert(is_edge(adj, nodes[k - 1], edges[k - 1]));
    }
}

/// All the facts that the search keeps: those of `frontier_facts`, a walk of
/// the recorded cost to every node reached, and bounds on the recorded costs.
pub open spec fn search_facts(
    adj: Seq<Vec<Edge>>,
    start: int,
    goal: int,
    dist: Seq<usize>,
    done: Set<int>,
    fr: Seq<State>,
    wit: Seq<(Seq<int>, Seq<int>)>,
) -> bool {
    let n = adj.len() as int;
    let w = (usize::MAX as int) / n - 1;
    &&& frontier_facts(adj, start, dist, done, fr)
    &&& wit.len() == n
    &&& done.finite()
    &&& forall|v: int| done.contains(v) ==> 0 <= v < n
    &&& !done.contains(goal)
    &&& forall|v: int|
        0 <= v < n && dist[v] < usize::MAX ==> is_path(adj, (#[trigger] wit[v]).0, wit[v].1, start, v)
            && path_cost(adj, wit[v].0, wit[v].1) == dist[v] && dist[v] <= done.len() * w
    &&& forall|i: int|
        0 <= i < fr.len() ==> 0 <= (#[trigger] fr[i]).position < n && dist[fr[i].position as int]
            <= fr[i].cost && fr[i].cost < usize::MAX
    &&& forall|i: int, v: int|
        0 <= i < fr.len() && #[trigger] done.contains(v) ==> dist[v] <= (#[trigger] fr[i]).cost
}

/// The least cost of a walk from `start` to `goal`, or `None` where no walk
/// leads there. A walk costs the sum of the costs of the edges it takes.
#[verifier::loop_isolation(false)]
#[verifier::rlimit(50)]
#[verifier::spinoff_prover]
pub fn shortest_path(adj_list: &[Vec<Edge>], start: usize, goal: usize) -> (r: Option<usize>)
    requires
        is_search_graph(adj_list@),
        start < adj_list@.len(),
    ensures
        match r {
            Some(d) => is_shortest_distance(adj_list@, start as int, goal as int, d as int),
            None => !reachable(adj_list@, start as int, goal as int),
        },
{
    let ghost adj = adj_list@;
    let n = adj_list.len();
    if goal >= n {
        proof {
            assert forall|nodes: Seq<int>, edges: Seq<int>|
                !is_path(adj, nodes, edges, start as int, goal as int) by {
                if is_path(adj, nodes, edges, start as int, goal as int) && edges.len() > 0 {
                    let k = edges.len() - 1;
                    assert(is_edge(adj, nodes[k], edges[k]));
                }
            }
        }
        return None;
    }
    let ghost w: int = (usize::MAX as int) / (n as int) - 1;
    proof {
        assert((n as int) * ((usize::MAX as int) / (n as int)) <= usize::MAX) by (nonlinear_arith)
            requires
                n > 0,
        ;
        assert(w >= 0) by (nonlinear_arith)
            requires
                w == (usize::MAX as int) / (n as int) - 1,
                0 < n <= usize::MAX,
        ;
    }
    let mut dist: Vec<usize> = Vec::new();
    let mut k: usize = 0;
    while k < n
        invariant
            k <= n,
            dist@.len() == k,
            forall|v: int| 0 <= v < k ==> dist@[v] == usize::MAX,
        decreases n - k,
    {
        dist.push(usize::MAX);
        k = k + 1;
    }
    dist.set(start, 0);
    let mut heap: Vec<State> = Vec::new();
    heap.push(State { cost: 0, position: start });
    let ghost mut done: Set<int> = Set::empty();
    let ghost mut wit: Seq<(Seq<int>, Seq<int>)> = Seq::new(
        n as nat,
        |v: int| (seq![v], Seq::<int>::empty()),
    );
    proof {
        assert(heap@[0] == State { cost: dist@[start as int], position: start });
        assert forall|v: int|
            0 <= v < n && dist@[v] < usize::MAX implies is_path(
            adj,
            (#[trigger] wit[v]).0,
            wit[v].1,
            start as int,
            v,
        ) && path_cost(adj, wit[v].0, wit[v].1) == dist@[v] && dist@[v] <= done.len() * w by {
            assert(v == start);
        }
    }
    loop
        invariant
            n == adj.len(),
            adj == adj_list@,
            w == (usize::MAX as int) / (n as int) - 1,
            w >= 0,
            (n as int) * (w + 1) <= usize::MAX,
            search_facts(adj, start as int, goal as int, dist@, done, heap@, wit),
        decreases sum_dist(dist@), heap@.len(),
    {
        if heap.len() == 0 {
            proof {
                assert forall|nodes: Seq<int>, edges: Seq<int>|
                    !is_path(adj, nodes, edges, start as int, goal as int) by {
                    if is_path(adj, nodes, edges, start as int, goal as int) {
                        lemma_empty_frontier_closed(
                            adj,
                            start as int,
                            dist@,
                            done,
                            heap@,
                            nodes,
                            edges,
                            goal as int,
                            edges.len() as int,
                        );
                    }
                }
            }
            return None;
        }
        let mut best: usize = 0;
        let mut bi: usize = 1;
        while bi < heap.len()
            invariant
                1 <= bi <= heap@.len(),
                best < heap@.len(),
                forall|i: int| 0 <= i < bi ==> heap@[best as int].cost <= #[trigger] heap@[i].cost,
            decreases heap@.len() - bi,
        {
            if heap[bi].cost < heap[best].cost || (heap[bi].cost == heap[best].cost
                && heap[bi].position > heap[best].position) {
                best = bi;
            }
            bi = bi + 1;
        }
        let ghost old_heap = heap@;
        let ghost old_dist = dist@;
        let ghost old_done = done;
        let State { cost, position } = heap.swap_remove(best);
        let ghost c = cost as int;
        let ghost u = position as int;
        proof {
            assert(old_heap[best as int] == State { cost, position });
            assert(dist@[u] <= c < usize::MAX);
            assert(is_path(adj, wit[u].0, wit[u].1, start as int, u));
            assert forall|v: int| done.contains(v) implies dist@[v] <= c by {
                assert(dist@[v] <= old_heap[best as int].cost);
            }
        }
        if position == goal {
            proof {
                assert(dist@[u] <= c);
                assert forall|nodes: Seq<int>, edges: Seq<int>|
                    is_path(adj, nodes, edges, start as int, goal as int) implies c <= path_cost(
                    adj,
                    nodes,
                    edges,
                ) by {
                    lemma_frontier_bounds_paths(
                        adj,
                        start as int,
                        dist@,
                        done,
                        old_heap,
                        c,
                        nodes,
                        edges,
                        goal as int,
                        edges.len() as int,
                    );
                    assert(nodes.subrange(0, edges.len() as int + 1) =~= nodes);
                    assert(edges.subrange(0, edges.len() as int) =~= edges);
                }
                let nodes = wit[u].0;
                let edges = wit[u].1;
                assert(is_path(adj, nodes, edges, start as int, goal as int));
                lemma_frontier_bounds_paths(
                    adj,
                    start as int,
                    dist@,
                    done,
                    old_heap,
                    c,
                    nodes,
                    edges,
                    goal as int,
                    edges.len() as int,
                );
                assert(nodes.subrange(0, edges.len() as int + 1) =~= nodes);
                assert(edges.subrange(0, edges.len() as int) =~= edges);
            }
            return Some(cost);
        }
        // the frontier without the entry just taken
        proof {
            assert forall|v: int|
                0 <= v < n && !done.contains(v) && dist@[v] < usize::MAX && !(v == u && dist@[v]
                    == c) implies exists|i: int|
                0 <= i < heap@.len() && #[trigger] heap@[i] == (State {
                    cost: dist@[v],
                    position: v as usize,
                }) by {
                let i = choose|i: int|
                    0 <= i < old_heap.len() && #[trigger] old_heap[i] == (State {
                        cost: dist@[v],
                        position: v as usize,
                    });
                if i == old_heap.len() - 1 {
                    assert(heap@[best as int] == old_heap[i]);
                } else {
                    assert(heap@[i] == old_heap[i]);
                }
            }
            assert forall|i: int| 0 <= i < heap@.len() implies c <= #[trigger] heap@[i].cost by {
                if i == best {
                    assert(heap@[i] == old_heap[old_heap.len() - 1]);
                } else {
                    assert(heap@[i] == old_heap[i]);
                }
            }
        }
        proof {
            assert forall|i: int|
                0 <= i < heap@.len() implies 0 <= (#[trigger] heap@[i]).position < n
                && dist@[heap@[i].position as int] <= heap@[i].cost && heap@[i].cost
                < usize::MAX by {
                if i == best {
                    assert(heap@[i] == old_heap[old_heap.len() - 1]);
                } else {
                    assert(heap@[i] == old_heap[i]);
                }
            }
            assert forall|i: int, v: int|
                0 <= i < heap@.len() && #[trigger] done.contains(v) implies dist@[v]
                <= (#[trigger] heap@[i]).cost by {
                if i == best {
                    assert(heap@[i] == old_heap[old_heap.len() - 1]);
                } else {
                    assert(heap@[i] == old_heap[i]);
                }
            }
        }
        if cost > dist[position] {
            proof {
                assert(dist@.len() == adj.len());
                assert(dist@[start as int] == 0);
                assert(forall|v: int|
                    0 <= v < adj.len() && !done.contains(v) && dist@[v] < usize::MAX ==> exists|i: int|
                        0 <= i < heap@.len() && #[trigger] heap@[i] == (State { cost: dist@[v], position: v as usize }));
                assert(forall|x: int, e: int|
                    done.contains(x) && #[trigger] is_edge(adj, x, e) ==> dist@[edge_target(adj, x, e)]
                        < usize::MAX && dist@[edge_target(adj, x, e)] <= dist@[x] + edge_cost(adj, x, e));
                assert(frontier_facts(adj, start as int, dist@, done, heap@));
                assert(forall|i: int|
                    0 <= i < heap@.len() ==> 0 <= (#[trigger] heap@[i]).position < n && dist@[heap@[i].position as int]
                        <= heap@[i].cost && heap@[i].cost < usize::MAX);
                assert(forall|i: int, v: int|
                    0 <= i < heap@.len() && #[trigger] done.contains(v) ==> dist@[v] <= (#[trigger] heap@[i]).cost);
                assert(wit.len() == n);
                assert(done.finite());
                assert(forall|v: int| done.contains(v) ==> 0 <= v < n);
                assert(!done.contains(goal as int));
                assert(forall|v: int|
                    0 <= v < n && dist@[v] < usize::MAX ==> is_path(adj, (#[trigger] wit[v]).0, wit[v].1, start as int, v)
                        && path_cost(adj, wit[v].0, wit[v].1) == dist@[v] && dist@[v] <= done.len() * w);
                assert(search_facts(adj, start as int, goal as int, dist@, done, heap@, wit));
            }
            continue;
        }
        let ghost was_done = done.contains(u);
        proof {
            lemma_int_range(0, n as int);
            if !was_done {
                assert(done.insert(u).subset_of(set_int_range(0, n as int)));
                lemma_len_subset(done.insert(u), set_int_range(0, n as int));
                let ghost before = done.len();
                done = done.insert(u);
                assert(before * w <= done.len() * w) by (nonlinear_arith)
                    requires
                        done.len() == before + 1,
                        w >= 0,
                ;
                assert forall|v: int|
                    0 <= v < n && dist@[v] < usize::MAX implies is_path(
                    adj,
                    (#[trigger] wit[v]).0,
                    wit[v].1,
                    start as int,
                    v,
                ) && path_cost(adj, wit[v].0, wit[v].1) == dist@[v] && dist@[v] <= done.len()
                    * w by {
                    assert(search_facts(adj, start as int, goal as int, dist@, old_done, old_heap, wit));
                    assert(is_path(adj, wit[v].0, wit[v].1, start as int, v));
                    assert(dist@[v] <= old_done.len() * ((usize::MAX as int) / (adj.len() as int) - 1));
                    assert(before == old_done.len());
                    assert(dist@[v] <= before * w);
                }
            } else {
                assert(done.subset_of(set_int_range(0, n as int)));
                lemma_len_subset(done, set_int_range(0, n as int));
            }
        }
        let ghost popped_heap = heap@;
        let ghost popped_dist = dist@;
        let ghost mut updated = false;
        let edge_count = adj_list[position].len();
        let mut j: usize = 0;
        while j < edge_count
            invariant
                j <= edge_count,
                edge_count == adj[u]@.len(),
                c == dist@[u],
                done.contains(u),
                c <= old_done.len() * w,
                !was_done ==> done.len() == old_done.len() + 1,
                done == (if was_done {
                    old_done
                } else {
                    old_done.insert(u)
                }),
                dist@.len() == n,
                dist@[start as int] == 0,
                wit.len() == n,
                !done.contains(goal as int),
                done.finite(),
                done.len() <= n,
                forall|v: int| done.contains(v) ==> 0 <= v < n,
                forall|v: int| done.contains(v) ==> dist@[v] <= c,
                forall|v: int| 0 <= v < n ==> #[trigger] dist@[v] <= popped_dist[v],
                forall|v: int| done.contains(v) ==> #[trigger] dist@[v] == popped_dist[v],
                !updated ==> dist@ == popped_dist && heap@ == popped_heap,
                updated ==> sum_dist(dist@) < sum_dist(old_dist),
                sum_dist(popped_dist) == sum_dist(old_dist),
                popped_heap.len() < old_heap.len(),
                heap@.len() >= popped_heap.len(),
                forall|i: int|
                    0 <= i < popped_heap.len() ==> #[trigger] heap@[i] == popped_heap[i],
                forall|i: int| 0 <= i < heap@.len() ==> c <= #[trigger] heap@[i].cost,
                forall|v: int|
                    0 <= v < n && dist@[v] < usize::MAX ==> is_path(
                        adj,
                        (#[trigger] wit[v]).0,
                        wit[v].1,
                        start as int,
                        v,
                    ) && path_cost(adj, wit[v].0, wit[v].1) == dist@[v] && dist@[v] <= done.len()
                        * w,
                forall|i: int|
                    0 <= i < heap@.len() ==> 0 <= (#[trigger] heap@[i]).position < n
                        && dist@[heap@[i].position as int] <= heap@[i].cost && heap@[i].cost
                        < usize::MAX,
                forall|v: int|
                    0 <= v < n && !done.contains(v) && dist@[v] < usize::MAX ==> exists|i: int|
                        0 <= i < heap@.len() && #[trigger] heap@[i] == (State {
                            cost: dist@[v],
                            position: v as usize,
                        }),
                forall|x: int, e: int|
                    done.contains(x) && x != u && #[trigger] is_edge(adj, x, e) ==> dist@[edge_target(
                        adj,
                        x,
                        e,
                    )] < usize::MAX && dist@[edge_target(adj, x, e)] <= dist@[x] + edge_cost(
                        adj,
                        x,
                        e,
                    ),
                forall|e: int|
                    0 <= e < j ==> #[trigger] is_edge(adj, u, e) && dist@[edge_target(adj, u, e)]
                        < usize::MAX && dist@[edge_target(adj, u, e)] <= c + edge_cost(adj, u, e),
                was_done ==> forall|e: int|
                    #[trigger] is_edge(adj, u, e) ==> dist@[edge_target(adj, u, e)] < usize::MAX
                        && dist@[edge_target(adj, u, e)] <= c + edge_cost(adj, u, e),
            decreases edge_count - j,
        {
            let edge = &adj_list[position][j];
            let y = edge.node;
            let ghost hb = heap@;
            let ghost db = dist@;
            proof {
                assert(is_edge(adj, u, j as int));
                if !was_done {
                    let ghost e = edge_cost(adj, u, j as int);
                    assert(c + e < usize::MAX) by (nonlinear_arith)
                        requires
                            c <= old_done.len() * w,
                            old_done.len() + 1 <= n,
                            e <= w,
                            n * (w + 1) <= usize::MAX,
                            w >= 0,
                    ;
                }
            }
            match cost.checked_add(edge.cost) {
                Some(next) => {
                    if next < dist[y] {
                        proof {
                            assert(!done.contains(y as int));
                            assert(!was_done);
                            lemma_extend_path(adj, wit[u].0, wit[u].1, start as int, u, j as int);
                            lemma_sum_dist_lowered(dist@, y as int, next);
                            assert(next <= done.len() * w) by (nonlinear_arith)
                                requires
                                    c <= (done.len() - 1) * w,
                                    next == c + edge_cost(adj, u, j as int),
                                    edge_cost(adj, u, j as int) <= w,
                            ;
                            wit = wit.update(
                                y as int,
                                (wit[u].0.push(y as int), wit[u].1.push(j as int)),
                            );
                        }
                        let ghost wit_before = wit;
                        let ghost dist_before = dist@;
                        heap.push(State { cost: next, position: y });
                        dist.set(y, next);
                        proof {
                            updated = true;
                            assert forall|v: int|
                                0 <= v < n && dist@[v] < usize::MAX implies is_path(
                                adj,
                                (#[trigger] wit[v]).0,
                                wit[v].1,
                                start as int,
                                v,
                            ) && path_cost(adj, wit[v].0, wit[v].1) == dist@[v] && dist@[v]
                                <= done.len() * w by {
                                if v != y {
                                    assert(wit[v] == wit_before[v]);
                                    assert(dist@[v] == dist_before[v]);
                                }
                            }
                        }
                    }
                },
                None => {
                    proof {
                        if !was_done {
                            let ghost e = edge_cost(adj, u, j as int);
                            assert(c + e <= usize::MAX) by (nonlinear_arith)
                                requires
                                    c <= old_done.len() * w,
                                    old_done.len() + 1 <= n,
                                    e <= w,
                                    n * (w + 1) <= usize::MAX,
                                    w >= 0,
                            ;
                        }
                    }
                },
            }
            proof {
                assert forall|v: int| 0 <= v < n implies #[trigger] dist@[v] <= db[v] by {}
                assert forall|v: int|
                    0 <= v < n && !done.contains(v) && dist@[v] < usize::MAX implies exists|i: int|
                    0 <= i < heap@.len() && #[trigger] heap@[i] == (State {
                        cost: dist@[v],
                        position: v as usize,
                    }) by {
                    if dist@[v] == db[v] {
                        let i = choose|i: int|
                            0 <= i < hb.len() && #[trigger] hb[i] == (State {
                                cost: db[v],
                                position: v as usize,
                            });
                        assert(heap@[i] == hb[i]);
                    } else {
                        assert(heap@[heap@.len() - 1] == State {
                            cost: dist@[v],
                            position: v as usize,
                        });
                    }
                }
                assert forall|e: int|
                    0 <= e < j + 1 implies #[trigger] is_edge(adj, u, e) && dist@[edge_target(
                    adj,
                    u,
                    e,
                )] < usize::MAX && dist@[edge_target(adj, u, e)] <= c + edge_cost(adj, u, e) by {
                    assert(is_edge(adj, u, e));
                    assert(dist@[edge_target(adj, u, e)] <= db[edge_target(adj, u, e)]);
                    if e == j {
                        assert(edge_target(adj, u, e) == y);
                        assert(edge_cost(adj, u, e) == edge.cost);
                    }
                    if e < j {
                    }
                }
            }
            j = j + 1;
        }
        proof {
            lemma_sum_dist_nonneg(dist@);
        }
    }
}

pub proof fn lemma_cell_edges_in_range(grid: Seq<Vec<u8>>, h: int, w: int, r: int, c: int)
    requires
        is_digit_grid(grid),
        h == grid.len(),
        w == grid[0]@.len(),
        0 <= r < h,
        0 <= c < w,
    ensures
        forall|i: int|
            0 <= i < cell_edges(grid, h, w, r, c).len() ==> 0 <= (#[trigger] cell_edges(
                grid,
                h,
                w,
                r,
                c,
            )[i]).0 < h * w && 0 <= cell_edges(grid, h, w, r, c)[i].1 <= 9,
{
    assert(0 <= r * w + c < h * w) by (nonlinear_arith)
        requires
            0 <= r < h,
            0 <= c < w,
    ;
    assert(r > 0 ==> 0 <= (r - 1) * w + c < h * w) by (nonlinear_arith)
        requires
            0 <= r < h,
            0 <= c < w,
    ;
    assert(r + 1 < h ==> 0 <= (r + 1) * w + c < h * w) by (nonlinear_arith)
        requires
            0 <= r < h,
            0 <= c < w,
    ;
    assert(c + 1 < w ==> r * w + c + 1 < h * w) by (nonlinear_arith)
        requires
            0 <= r < h,
            0 <= c < w,
    ;
    assert(grid[r]@.len() == w);
    assert(grid[r]@[c] <= 9);
    if c > 0 {
        assert(grid[r]@[c - 1] <= 9);
    }
    if c + 1 < w {
        assert(grid[r]@[c + 1] <= 9);
    }
    if r > 0 {
        assert(grid[r - 1]@.len() == w);
        assert(grid[r - 1]@[c] <= 9);
    }
    if r + 1 < h {
        assert(grid[r + 1]@.len() == w);
        assert(grid[r + 1]@[c] <= 9);
    }
}

/// `r` is the least cost of a walk from the first to the last cell of the
/// graph of `grid`, or `None` where no walk leads there.
pub open spec fn is_lowest_risk(grid: Seq<Vec<u8>>, r: Option<usize>) -> bool {
    exists|adj: Seq<Vec<Edge>>|
        is_grid_graph(grid, adj) && match r {
            Some(d) => is_shortest_distance(adj, 0, grid.len() * grid[0]@.len() - 1, d as int),
            None => !reachable(adj, 0, grid.len() * grid[0]@.len() - 1),
        }
}

/// `ext` is `grid` repeated five times across and down with `tile_cost`.
pub open spec fn is_tiled(grid: Seq<Vec<u8>>, ext: Seq<Vec<u8>>) -> bool {
    &&& ext.len() == 5 * grid.len()
    &&& forall|r: int| 0 <= r < ext.len() ==> #[trigger] ext[r]@.len() == 5 * grid[0]@.len()
    &&& forall|r: int, c: int|
        0 <= r < ext.len() && 0 <= c < 5 * grid[0]@.len() ==> #[trigger] ext[r]@[c] == tile_cost(
            cell(grid, r % grid.len() as int, c % grid[0]@.len() as int),
            r / grid.len() as int + c / grid[0]@.len() as int,
        )
}

/// `adj` is the graph of `grid` that `create_graph` builds.
pub open spec fn is_grid_graph(grid: Seq<Vec<u8>>, adj: Seq<Vec<Edge>>) -> bool {
    let h = grid.len() as int;
    let w = grid[0]@.len() as int;
    &&& adj.len() == h * w
    &&& forall|k: int|
        0 <= k < adj.len() ==> edges_view(#[trigger] adj[k]@) == cell_edges(grid, h, w, k / w, k % w)
}

/// The least total risk of a walk from the top left to the bottom right cell
/// of a grid, entering a cell costing its digit; `None` where no walk leads
/// there.
pub fn part1(input: &[Vec<u8>]) -> (r: Option<usize>)
    requires
        is_digit_grid(input@),
        input@.len() * input@[0]@.len() <= usize::MAX / 10,
    ensures
        is_lowest_risk(input@, r),
{
    let h = input.len();
    let w = input[0].len();
    proof {
        assert(h * w >= 1) by (nonlinear_arith)
            requires
                h >= 1,
                w >= 1,
        ;
    }
    let graph = create_graph(input);
    proof {
        let adj = graph@;
        let n = adj.len() as int;
        assert(10 * n <= usize::MAX);
        assert(9 < (usize::MAX as int) / n) by (nonlinear_arith)
            requires
                10 * n <= usize::MAX,
                n >= 1,
        ;
        assert forall|u: int, j: int| #[trigger] is_edge(adj, u, j) implies 0 <= edge_target(
            adj,
            u,
            j,
        ) < adj.len() && edge_cost(adj, u, j) < (usize::MAX as int) / (adj.len() as int) by {
            lemma_fundamental_div_mod(u, w as int);
            assert(0 <= u / (w as int) < h) by (nonlinear_arith)
                requires
                    0 <= u < h * w,
                    w >= 1,
                    u == (w as int) * (u / (w as int)) + u % (w as int),
                    0 <= u % (w as int) < w,
            ;
            lemma_cell_edges_in_range(input@, h as int, w as int, u / (w as int), u % (w as int));
            assert(edges_view(adj[u]@)[j] == adj[u]@[j]@);
        }
    }
    let r = shortest_path(graph.as_slice(), 0, h * w - 1);
    assert(is_grid_graph(input@, graph@));
    r
}

/// The lowest total risk across the grid tiled five times each way.
pub fn part2(input: &[Vec<u8>]) -> (r: Option<usize>)
    requires
        is_digit_grid(input@),
        input@.len() * input@[0]@.len() <= usize::MAX / 250,
    ensures
        exists|ext: Seq<Vec<u8>>| is_tiled(input@, ext) && is_lowest_risk(ext, r),
{
    let h = input.len();
    let w = input[0].len();
    proof {
        assert(5 * h <= usize::MAX && 5 * w <= usize::MAX) by (nonlinear_arith)
            requires
                h * w <= usize::MAX / 250,
                h >= 1,
                w >= 1,
        ;
    }
    let extended = extend_input(input);
    proof {
        let ext = extended@;
        assert(ext[0]@.len() == 5 * w);
        assert(ext.len() * ext[0]@.len() <= usize::MAX / 10) by (nonlinear_arith)
            requires
                ext.len() == 5 * h,
                ext[0]@.len() == 5 * w,
                h * w <= usize::MAX / 250,
        ;
        assert forall|r: int, c: int|
            0 <= r < ext.len() && 0 <= c < ext[r]@.len() implies #[trigger] ext[r]@[c] <= 9 by {
            assert(0 <= r % (h as int) < h && 0 <= c % (w as int) < w) by (nonlinear_arith)
                requires
                    h > 0,
                    w > 0,
            ;
            assert(0 <= r / (h as int) < 5 && 0 <= c / (w as int) < 5) by (nonlinear_arith)
                requires
                    h > 0,
                    w > 0,
                    0 <= r < 5 * h,
                    0 <= c < 5 * w,
            ;
            assert(input@[r % h as int]@.len() == w);
            assert(input@[r % h as int]@[c % w as int] <= 9);
            assert(ext[r]@.len() == 5 * w);
        }
    }
    let r = part1(extended.as_slice());
    assert(is_tiled(input@, extended@));
    r
}

/// The least cost from a node to itself is nothing.
pub proof fn lemma_distance_to_start_is_zero(adj: Seq<Vec<Edge>>, start: int)
    requires
        0 <= start < adj.len(),
    ensures
        is_shortest_distance(adj, start, start, 0),
{
    let nodes = seq![start];
    let edges = Seq::<int>::empty();
    assert(is_path(adj, nodes, edges, start, start));
    assert forall|ns: Seq<int>, es: Seq<int>| is_path(adj, ns, es, start, start) implies 0
        <= path_cost(adj, ns, es) by {
        lemma_path_cost_nonneg(adj, ns, es);
    }
}

pub proof fn lemma_path_cost_nonneg(adj: Seq<Vec<Edge>>, nodes: Seq<int>, edges: Seq<int>)
    ensures
        path_cost(adj, nodes, edges) >= 0,
    decreases edges.len(),
{
    if edges.len() > 0 {
        lemma_path_cost_nonneg(adj, nodes.drop_last(), edges.drop_last());
    }
}

/// The first `k` steps of a walk are a walk, and cost no more than all of it.
pub proof fn lemma_prefix_path(
    adj: Seq<Vec<Edge>>,
    nodes: Seq<int>,
    edges: Seq<int>,
    from: int,
    to: int,
    k: int,
)
    requires
        is_path(adj, nodes, edges, from, to),
        0 <= k <= edges.len(),
    ensures
        is_path(adj, nodes.subrange(0, k + 1), edges.subrange(0, k), from, nodes[k]),
        path_cost(adj, nodes.subrange(0, k + 1), edges.subrange(0, k)) <= path_cost(
            adj,
            nodes,
            edges,
        ),
    decreases edges.len() - k,
{
    let ns = nodes.subrange(0, k + 1);
    let es = edges.subrange(0, k);
    assert forall|i: int| 0 <= i < es.len() implies #[trigger] is_edge(adj, ns[i], es[i])
        && edge_target(adj, ns[i], es[i]) == ns[i + 1] by {
        assert(is_edge(adj, nodes[i], edges[i]));
    }
    if k < edges.len() {
        let n1 = nodes.subrange(0, k + 2);
        let e1 = edges.subrange(0, k + 1);
        lemma_prefix_path(adj, nodes, edges, from, to, k + 1);
        assert(n1.drop_last() =~= ns);
        assert(e1.drop_last() =~= es);
        assert(is_edge(adj, nodes[k], edges[k]));
    } else {
        assert(ns =~= nodes);
        assert(es =~= edges);
    }
}

/// Distances never fall along a shortest walk: a node that a shortest walk to
/// `to` passes through is no farther from the start than `to` is.
pub proof fn lemma_distance_grows_along_shortest_path(
    adj: Seq<Vec<Edge>>,
    from: int,
    to: int,
    nodes: Seq<int>,
    edges: Seq<int>,
    k: int,
    d_mid: int,
    d_to: int,
)
    requires
        is_path(adj, nodes, edges, from, to),
        path_cost(adj, nodes, edges) == d_to,
        0 <= k <= edges.len(),
        is_shortest_distance(adj, from, nodes[k], d_mid),
    ensures
        d_mid <= d_to,
{
    lemma_prefix_path(adj, nodes, edges, from, to, k);
}

/// Searching from a node to itself answers 0.
pub proof fn lemma_search_to_start_costs_nothing(adj: Seq<Vec<Edge>>, start: int, r: Option<usize>)
    requires
        0 <= start < adj.len(),
        match r {
            Some(d) => is_shortest_distance(adj, start, start, d as int),
            None => !reachable(adj, start, start),
        },
    ensures
        r == Some(0usize),
{
    let nodes = seq![start];
    let edges = Seq::<int>::empty();
    assert(is_path(adj, nodes, edges, start, start));
    assert(path_cost(adj, nodes, edges) == 0);
}

/// The search answers `None` exactly when no walk leads to the goal.
pub proof fn lemma_none_iff_unreachable(
    adj: Seq<Vec<Edge>>,
    start: int,
    goal: int,
    r: Option<usize>,
)
    requires
        match r {
            Some(d) => is_shortest_distance(adj, start, goal, d as int),
            None => !reachable(adj, start, goal),
        },
    ensures
        r is None <==> !reachable(adj, start, goal),
{
}

/// In a grid tiled five times each way from a grid of costs 1 to 9, the cell
/// in tile row `ti`, tile column `tj`, at `(r, c)` within its tile costs
/// `((cost - 1 + ti + tj) mod 9) + 1`, which lies in 1 to 9.
pub proof fn lemma_tiled_grid(grid: Seq<Vec<u8>>, ext: Seq<Vec<u8>>, ti: int, tj: int, r: int, c: int)
    requires
        is_grid(grid),
        is_tiled(grid, ext),
        0 <= ti < 5,
        0 <= tj < 5,
        0 <= r < grid.len(),
        0 <= c < grid[0]@.len(),
        1 <= cell(grid, r, c) <= 9,
    ensures
        ext[ti * grid.len() + r]@[tj * grid[0]@.len() + c] == ((cell(grid, r, c) - 1 + ti + tj) % 9)
            + 1,
        1 <= ext[ti * grid.len() + r]@[tj * grid[0]@.len() + c] <= 9,
{
    let h = grid.len() as int;
    let w = grid[0]@.len() as int;
    let row = ti * h + r;
    let col = tj * w + c;
    assert(0 <= row < 5 * h && 0 <= col < 5 * w) by (nonlinear_arith)
        requires
            0 <= ti < 5,
            0 <= tj < 5,
            0 <= r < h,
            0 <= c < w,
            row == ti * h + r,
            col == tj * w + c,
    ;
    vstd::arithmetic::div_mod::lemma_fundamental_div_mod_converse(row, h, ti, r);
    vstd::arithmetic::div_mod::lemma_fundamental_div_mod_converse(col, w, tj, c);
    lemma_tile_cost_wraps(cell(grid, r, c), ti + tj);
}

} // verus!
