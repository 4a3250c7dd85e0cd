use advent_of_rust_2021::chiton::{create_graph, extend_input, part1, part2, shortest_path, Edge};
use advent_of_rust_2021::input_read::read_to_2d_byte_array;

fn grid(rows: &[&str]) -> Vec<Vec<u8>> {
    let lines: Vec<String> = rows.iter().map(|r| r.to_string()).collect();
    read_to_2d_byte_array(&lines).unwrap()
}

fn example() -> Vec<Vec<u8>> {
    grid(&[
        "1163751742",
        "1381373672",
        "2136511328",
        "3694931569",
        "7463417111",
        "1319128137",
        "1359912421",
        "3125421639",
        "1293138521",
        "2311944581",
    ])
}

#[test]
fn example_lowest_risk() {
    assert_eq!(part1(&example()), Some(40));
}

#[test]
fn example_lowest_risk_extended() {
    assert_eq!(part2(&example()), Some(315));
}

#[test]
fn single_cell_costs_nothing() {
    assert_eq!(part1(&grid(&["7"])), Some(0));
}

#[test]
fn graph_edges_of_a_small_grid() {
    let g = create_graph(&grid(&["12", "34"]));
    assert_eq!(g.len(), 4);
    let e: Vec<(usize, usize)> = g[0].iter().map(|e| (e.node, e.cost)).collect();
    assert_eq!(e, vec![(1, 2), (2, 3)]);
    let e: Vec<(usize, usize)> = g[3].iter().map(|e| (e.node, e.cost)).collect();
    assert_eq!(e, vec![(1, 2), (2, 3)]);
}

#[test]
fn tiles_wrap_from_nine_to_one() {
    let ext = extend_input(&grid(&["8"]));
    assert_eq!(ext.len(), 5);
    assert_eq!(ext[0], vec![8, 9, 1, 2, 3]);
    assert_eq!(ext[4], vec![3, 4, 5, 6, 7]);
    for c in 1..=9u8 {
        let ext = extend_input(&vec![vec![c]]);
        for r in 0..5 {
            for k in 0..5 {
                let t = (r + k) as u8;
                assert_eq!(ext[r][k], ((c - 1 + t) % 9) + 1);
                assert!(ext[r][k] >= 1 && ext[r][k] <= 9);
            }
        }
    }
}

#[test]
fn unreachable_goal_gives_none() {
    let adj = vec![vec![Edge { node: 1, cost: 3 }], vec![], vec![]];
    assert_eq!(shortest_path(&adj, 0, 2), None);
    assert_eq!(shortest_path(&adj, 0, 1), Some(3));
    assert_eq!(shortest_path(&adj, 2, 2), Some(0));
    assert_eq!(shortest_path(&adj, 0, 7), None);
}

#[test]
fn cheaper_detour_wins() {
    let adj = vec![
        vec![Edge { node: 1, cost: 10 }, Edge { node: 2, cost: 1 }],
        vec![Edge { node: 3, cost: 1 }],
        vec![Edge { node: 1, cost: 1 }],
        vec![],
    ];
    assert_eq!(shortest_path(&adj, 0, 3), Some(3));
    assert_eq!(shortest_path(&adj, 0, 1), Some(2));
}

#[test]
fn distance_grows_with_the_goal() {
    let g = create_graph(&grid(&["119", "191", "111"]));
    let d: Vec<usize> = (0..9).map(|k| shortest_path(&g, 0, k).unwrap()).collect();
    assert_eq!(d[0], 0);
    assert!(d[1] <= d[2]);
    assert!(d[3] <= d[6] && d[6] <= d[7] && d[7] <= d[8]);
    assert_eq!(d[8], 4);
}
