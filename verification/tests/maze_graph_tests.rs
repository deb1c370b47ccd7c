use maze_graph::graph::{AdjacencyGraph, Edge, EdgeSetGraph, Graph};
use maze_graph::image_graph::{extract_graph, Grid, GridSquare};
use maze_graph::math::{Rect, V2};

fn unit_rect(i: i32) -> Rect {
    Rect::new(V2::new(i, 0), V2::new(i + 1, 1))
}

fn nodes_of(ids: &[u32]) -> Vec<(u32, Rect)> {
    ids.iter().map(|&i| (i, unit_rect(i as i32))).collect()
}

fn grid_from_rows(rows: &[&str]) -> Grid {
    let height = rows.len();
    let width = rows[0].len();
    let mut clear = Vec::new();
    for row in rows {
        for c in row.chars() {
            clear.push(c == '.');
        }
    }
    Grid::new(width, height, clear)
}

#[test]
fn v2_and_rect_basics() {
    let a = V2::new(3, -2);
    assert_eq!(a.x, 3);
    assert_eq!(a.y, -2);
    let r = Rect::new(V2::new(4, 5), V2::new(1, 2));
    assert_eq!(r.mins, V2::new(1, 2));
    assert_eq!(r.maxs, V2::new(4, 5));
    assert_eq!(r.width(), 3);
    assert_eq!(r.height(), 3);
    assert!(r.contains(V2::new(1, 2)));
    assert!(r.contains(V2::new(3, 4)));
    assert!(!r.contains(V2::new(4, 4)));
    assert!(!r.contains(V2::new(0, 2)));
}

#[test]
fn rect_intersect_exact() {
    let a = Rect::new_unchecked(V2::new(0, 0), V2::new(4, 4));
    let b = Rect::new_unchecked(V2::new(2, 1), V2::new(6, 3));
    let c = a.intersect(b);
    assert_eq!(c.mins, V2::new(2, 1));
    assert_eq!(c.maxs, V2::new(4, 3));
    // disjoint rectangles give an empty (unordered) result
    let d = Rect::new_unchecked(V2::new(5, 5), V2::new(6, 6));
    let e = a.intersect(d);
    assert!(e.mins.x >= e.maxs.x || e.mins.y >= e.maxs.y);
}

#[test]
fn edge_is_canonical() {
    let e1 = Edge::new(7, 3);
    let e2 = Edge::new(3, 7);
    assert_eq!(e1, e2);
    assert_eq!(e1.min, 3);
    assert_eq!(e1.max, 7);
}

#[test]
fn grid_access() {
    let g = grid_from_rows(&["..#", "#.."]);
    assert!(g.in_bounds(V2::new(0, 0)));
    assert!(g.in_bounds(V2::new(2, 1)));
    assert!(!g.in_bounds(V2::new(3, 0)));
    assert!(!g.in_bounds(V2::new(-1, 0)));
    assert_eq!(g.get(V2::new(0, 0)), GridSquare::Clear);
    assert_eq!(g.get(V2::new(2, 0)), GridSquare::Wall);
    assert_eq!(g.get(V2::new(0, 1)), GridSquare::Wall);
    assert_eq!(g.get(V2::new(2, 1)), GridSquare::Clear);
}

// edge symmetry after conversion: each edge appears in both neighbor sets
#[test]
fn adjacency_symmetry() {
    let nodes = nodes_of(&[1, 2, 3, 4]);
    let edges = vec![Edge::new(1, 2), Edge::new(2, 3), Edge::new(2, 4)];
    let g = EdgeSetGraph::new(nodes, 1, 3, edges);
    let adj = g.to_adjacency_graph();
    for (a, b) in [(1u32, 2u32), (2, 3), (2, 4)] {
        assert!(adj.neighbors(a).contains(&b), "{b} missing from adj[{a}]");
        assert!(adj.neighbors(b).contains(&a), "{a} missing from adj[{b}]");
    }
    // an isolated node still has an (empty) entry
    let nodes = nodes_of(&[1, 2, 3]);
    let g = EdgeSetGraph::new(nodes, 1, 2, vec![Edge::new(1, 2)]);
    let adj = g.to_adjacency_graph();
    assert!(adj.neighbors(3).is_empty());
}

// a T-junction: a dead-end branch of two nodes hangs off the path; pruning
// removes the branch in cascade and keeps the straight path
#[test]
fn prune_removes_dead_end_branch() {
    let nodes = nodes_of(&[1, 2, 3, 4, 5]);
    let edges = vec![
        Edge::new(1, 2),
        Edge::new(2, 3),
        Edge::new(2, 4),
        Edge::new(4, 5),
    ];
    let g = EdgeSetGraph::new(nodes, 1, 3, edges);
    let p = g.prune();
    let mut kept: Vec<u32> = p.nodes.iter().map(|n| n.0).collect();
    kept.sort();
    assert_eq!(kept, vec![1, 2, 3]);
    let mut kept_edges = p.edges.clone();
    kept_edges.sort_by_key(|e| (e.min, e.max));
    assert_eq!(kept_edges, vec![Edge::new(1, 2), Edge::new(2, 3)]);
}

// start and goal survive pruning even at degree zero or one
#[test]
fn prune_preserves_terminals() {
    let nodes = nodes_of(&[1, 2, 3]);
    let edges = vec![Edge::new(1, 2), Edge::new(2, 3)];
    let g = EdgeSetGraph::new(nodes, 1, 1, edges);
    // goal == start == 1; nodes 3 then 2 are stripped away entirely
    let p = g.prune();
    let kept: Vec<u32> = p.nodes.iter().map(|n| n.0).collect();
    assert_eq!(kept, vec![1]);
    assert!(p.edges.is_empty());
    assert_eq!(p.start, 1);
    assert_eq!(p.goal, 1);
}

// pruning is idempotent: a second run changes nothing
#[test]
fn prune_is_idempotent() {
    let nodes = nodes_of(&[1, 2, 3, 4, 5]);
    let edges = vec![
        Edge::new(1, 2),
        Edge::new(2, 3),
        Edge::new(2, 4),
        Edge::new(4, 5),
    ];
    let g = EdgeSetGraph::new(nodes, 1, 3, edges);
    let once = g.prune();
    let nodes1 = once.nodes.clone();
    let edges1 = once.edges.clone();
    let twice = once.prune();
    assert_eq!(twice.nodes, nodes1);
    assert_eq!(twice.edges, edges1);
    assert_eq!(twice.start, 1);
    assert_eq!(twice.goal, 3);
}

// unit-weight shortest path on a small graph with a shortcut
#[test]
fn dijkstra_distances() {
    let nodes = nodes_of(&[1, 2, 3, 4]);
    // a square 1-2-4 / 1-3-4 plus the direct edge 1-4
    let edges = vec![
        Edge::new(1, 2),
        Edge::new(2, 4),
        Edge::new(1, 3),
        Edge::new(3, 4),
        Edge::new(1, 4),
    ];
    let g = EdgeSetGraph::new(nodes, 1, 4, edges);
    let d = g.to_adjacency_graph().into_dijkstra();
    assert_eq!(d.distance(1), 0);
    assert_eq!(d.distance(2), 1);
    assert_eq!(d.distance(3), 1);
    assert_eq!(d.goal_distance(), 1);
    assert_eq!(d.predecessor(1), None);
}

// start and goal in components no edge joins: the goal stays unreached
#[test]
fn dijkstra_disconnected_goal() {
    let nodes = nodes_of(&[1, 2, 3]);
    let g = EdgeSetGraph::new(nodes, 1, 3, vec![Edge::new(1, 2)]);
    let d = g.to_adjacency_graph().into_dijkstra();
    assert_eq!(d.goal_distance(), i32::MAX);
    assert_eq!(d.predecessor(3), None);
    assert_eq!(d.distance(2), 1);
}

// following predecessors from the goal reaches the start in exactly
// goal_distance steps
#[test]
fn predecessor_walk_length() {
    let nodes = nodes_of(&[1, 2, 3, 4]);
    let edges = vec![Edge::new(1, 2), Edge::new(2, 3), Edge::new(3, 4)];
    let g = EdgeSetGraph::new(nodes, 1, 4, edges);
    let d = g.to_adjacency_graph().into_dijkstra();
    let expected = d.goal_distance();
    assert_eq!(expected, 3);
    let mut steps = 0;
    let mut at = d.goal();
    while let Some(prev) = d.predecessor(at) {
        at = prev;
        steps += 1;
    }
    assert_eq!(at, d.start());
    assert_eq!(steps, expected);
}

// an open room: one rectangle holds both start and goal
#[test]
fn extract_open_room() {
    let grid = grid_from_rows(&["...", "...", "..."]);
    let g = extract_graph(grid, V2::new(0, 0), V2::new(2, 2)).expect("graph");
    assert_eq!(g.nodes.len(), 1);
    assert!(g.edges.is_empty());
    assert_eq!(g.start, g.goal);
    let rect = g.nodes[0].1;
    assert_eq!(rect.mins, V2::new(0, 0));
    assert_eq!(rect.maxs, V2::new(3, 3));
    let d = g.prune().to_adjacency_graph().into_dijkstra();
    assert_eq!(d.goal_distance(), 0);
}

// a 1-wide zigzag corridor decomposes into a chain of rectangles, none of
// which is pruned (degree two inside the chain), and the goal distance is
// the chain length minus one
#[test]
fn extract_corridor_chain() {
    let grid = grid_from_rows(&[
        "...##", //
        "##.##", //
        "##...",
    ]);
    let g = extract_graph(grid, V2::new(0, 0), V2::new(4, 2)).expect("graph");
    assert_eq!(g.nodes.len(), 3);
    assert_eq!(g.edges.len(), 2);
    assert_ne!(g.start, g.goal);
    let p = g.prune();
    assert_eq!(p.nodes.len(), 3);
    assert_eq!(p.edges.len(), 2);
    let d = p.to_adjacency_graph().into_dijkstra();
    assert_eq!(d.goal_distance(), 2);
}

// the decomposition claims disjoint rectangles covering the reachable clear
// cells exactly once
#[test]
fn extract_rectangles_disjoint() {
    let grid = grid_from_rows(&[
        "....#", //
        "..#..", //
        ".....",
    ]);
    let g = extract_graph(grid, V2::new(0, 0), V2::new(4, 2)).expect("graph");
    let rects: Vec<Rect> = g.nodes.iter().map(|n| n.1).collect();
    let mut covered = 0;
    for y in 0..3 {
        for x in 0..5 {
            let p = V2::new(x, y);
            let owners = rects.iter().filter(|r| r.contains(p)).count();
            assert!(owners <= 1, "cell ({x},{y}) claimed {owners} times");
            covered += owners;
        }
    }
    // 13 clear cells, all reachable from the start
    assert_eq!(covered, 13);
}

// a dead-end side room off an open corridor disappears under pruning
#[test]
fn extract_t_junction_prunes_branch() {
    let grid = grid_from_rows(&[
        "##.##", //
        "##.##", //
        ".....",
    ]);
    // the vertical branch is a dead end; start and goal sit in the corridor
    let g = extract_graph(grid, V2::new(0, 2), V2::new(4, 2)).expect("graph");
    assert_eq!(g.nodes.len(), 2);
    assert_eq!(g.edges.len(), 1);
    let p = g.prune();
    assert_eq!(p.nodes.len(), 1);
    assert!(p.edges.is_empty());
    let d = p.to_adjacency_graph().into_dijkstra();
    assert_eq!(d.goal_distance(), 0);
}

// a wall fully separates start and goal: the goal is never covered and the
// caller is told there is no graph to search
#[test]
fn extract_disconnected_components() {
    let grid = grid_from_rows(&[
        ".#.", //
        ".#.", //
        ".#.",
    ]);
    let r = extract_graph(grid, V2::new(0, 0), V2::new(2, 2));
    assert!(r.is_none());
}

// the graph trait exposes the same start, goal and payloads on every
// representation
#[test]
fn graph_views_agree() {
    let grid = grid_from_rows(&[
        "...##", //
        "##.##", //
        "##...",
    ]);
    let g = extract_graph(grid, V2::new(0, 0), V2::new(4, 2)).expect("graph");
    let start = g.start();
    let goal = g.goal();
    let start_rect = *g.get_node(start);
    assert!(start_rect.contains(V2::new(0, 0)));
    let goal_rect = *g.get_node(goal);
    assert!(goal_rect.contains(V2::new(4, 2)));
    let d = g.prune().to_adjacency_graph().into_dijkstra();
    assert_eq!(d.start(), start);
    assert_eq!(d.goal(), goal);
    assert_eq!(*d.get_node(goal), goal_rect);
    assert_eq!(d.nodes().len(), 3);
}
