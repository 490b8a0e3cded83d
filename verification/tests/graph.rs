use std::collections::{HashMap, HashSet};

use libgo::game::graph::Graph;
use libgo::game::region::{Node, Region};
use libgo::game::matrix::Matrix;
use libgo::game::vertex::Vertex;

fn node_set(nodes: Vec<Node>) -> HashSet<Node> {
    nodes.into_iter().collect()
}

fn nodes_of(region: &Region) -> HashSet<Node> {
    node_set(region.nodes())
}

fn adjacencies_of(region: &Region) -> HashSet<Node> {
    node_set(region.adjacencies())
}

#[test]
fn get_region() {
    let mut graph = Graph::with_matrix_order(3);
    let _ = graph.set(Vertex { x: 2, y: 2 }, 1);
    let _ = graph.set(Vertex { x: 1, y: 1 }, 1);
    let _ = graph.set(Vertex { x: 0, y: 1 }, 1);

    let region = graph.get_region(Node(4), |&value| value == 1);
    assert_eq!(nodes_of(&region), vec![Node(3), Node(4)].into_iter().collect());
    assert_eq!(
        adjacencies_of(&region),
        vec![Node(0), Node(1), Node(5), Node(6), Node(7)].into_iter().collect()
    );

    let region = graph.get_region(Node(8), |&value| value == 1);
    assert_eq!(nodes_of(&region), vec![Node(8)].into_iter().collect());
    assert_eq!(adjacencies_of(&region), vec![Node(5), Node(7)].into_iter().collect());

    let region = graph.get_region(Node(2), |&value| value == 1);
    assert_eq!(nodes_of(&region), HashSet::new());
    assert_eq!(adjacencies_of(&region), HashSet::new());
}

#[test]
fn get_regions() {
    let mut graph = Graph::with_matrix_order(3);
    let _ = graph.set(Vertex { x: 2, y: 2 }, 1);
    let _ = graph.set(Vertex { x: 1, y: 1 }, 1);
    let _ = graph.set(Vertex { x: 0, y: 1 }, 1);

    let regions = graph.get_regions(|&value| value == 1);
    assert_eq!(regions.len(), 2);
    assert_eq!(nodes_of(&regions[0]), vec![Node(3), Node(4)].into_iter().collect());
    assert_eq!(nodes_of(&regions[1]), vec![Node(8)].into_iter().collect());
}

#[test]
fn partition_by_value() {
    let mut graph = Graph::with_matrix_order(2);
    let _ = graph.set(Vertex { x: 0, y: 0 }, 1);
    let _ = graph.set(Vertex { x: 1, y: 0 }, 1);

    let regions: HashMap<i32, Region> = graph.get_regions_by_value().into_iter().collect();
    assert_eq!(regions.len(), 2);
    assert_eq!(nodes_of(&regions[&0]), vec![Node(2), Node(3)].into_iter().collect());
    assert_eq!(adjacencies_of(&regions[&0]), vec![Node(0), Node(1)].into_iter().collect());
    assert_eq!(nodes_of(&regions[&1]), vec![Node(0), Node(1)].into_iter().collect());
    assert_eq!(adjacencies_of(&regions[&1]), vec![Node(2), Node(3)].into_iter().collect());
}

#[test]
fn by_value_keeps_the_last_region_of_a_value() {
    // 1 0 1 on one row of a 3x3 graph: two regions hold 1, the one that starts at node 2 is
    // found last.
    let mut graph = Graph::with_matrix_order(3);
    let _ = graph.set(Vertex { x: 0, y: 0 }, 1);
    let _ = graph.set(Vertex { x: 2, y: 0 }, 1);
    let entries = graph.get_regions_by_value();
    assert_eq!(entries.len(), 2);
    let regions: HashMap<i32, Region> = entries.into_iter().collect();
    assert_eq!(nodes_of(&regions[&1]), vec![Node(2)].into_iter().collect());
    assert_eq!(regions[&0].len(), 7);
}

/// The node sets of the regions that the graph keeps for the value.
fn kept(graph: &Graph<i32>, value: i32) -> Vec<Vec<usize>> {
    let mut all: Vec<Vec<usize>> = graph
        .regions(value)
        .iter()
        .map(|region| {
            let mut nodes: Vec<usize> = region.nodes().iter().map(|node| node.0).collect();
            nodes.sort();
            nodes
        })
        .collect();
    all.sort();
    all
}

#[test]
fn a_new_graph_is_one_region() {
    let graph: Graph<i32> = Graph::with_matrix_order(3);
    assert_eq!(graph.grid_length(), 3);
    assert_eq!(kept(&graph, 0), vec![(0..9).collect::<Vec<usize>>()]);
    assert_eq!(kept(&graph, 1), Vec::<Vec<usize>>::new());
    assert_eq!(graph.values(), &vec![0; 9]);
}

#[test]
fn set_splits_a_region() {
    // A wall down the middle column cuts the empty region in two.
    let mut graph: Graph<i32> = Graph::with_matrix_order(3);
    assert_eq!(graph.set(Vertex { x: 1, y: 0 }, 1), Ok(()));
    assert_eq!(graph.set(Vertex { x: 1, y: 1 }, 1), Ok(()));
    assert_eq!(kept(&graph, 0), vec![vec![0, 2, 3, 5, 6, 7, 8]]);
    assert_eq!(graph.set(Vertex { x: 1, y: 2 }, 1), Ok(()));
    assert_eq!(kept(&graph, 0), vec![vec![0, 3, 6], vec![2, 5, 8]]);
    assert_eq!(kept(&graph, 1), vec![vec![1, 4, 7]]);
}

#[test]
fn set_joins_regions() {
    let mut graph: Graph<i32> = Graph::with_matrix_order(3);
    let _ = graph.set(Vertex { x: 0, y: 0 }, 1);
    let _ = graph.set(Vertex { x: 2, y: 0 }, 1);
    assert_eq!(kept(&graph, 1), vec![vec![0], vec![2]]);
    let _ = graph.set(Vertex { x: 1, y: 0 }, 1);
    assert_eq!(kept(&graph, 1), vec![vec![0, 1, 2]]);
    assert_eq!(kept(&graph, 0), vec![vec![3, 4, 5, 6, 7, 8]]);
    // Taking the middle one out again parts them.
    let _ = graph.set(Vertex { x: 1, y: 0 }, 0);
    assert_eq!(kept(&graph, 1), vec![vec![0], vec![2]]);
    assert_eq!(kept(&graph, 0), vec![vec![1, 3, 4, 5, 6, 7, 8]]);
}

#[test]
fn the_regions_divide_the_cells_among_them() {
    let mut graph: Graph<i32> = Graph::with_matrix_order(4);
    let cells = [(0, 0, 1), (1, 0, 2), (1, 1, 1), (2, 2, 2), (3, 3, 1), (0, 0, 0), (2, 1, 1), (3, 0, 2)];
    for (x, y, value) in cells {
        let _ = graph.set(Vertex { x, y }, value);
        let mut seen = vec![0; 16];
        for value in 0..3 {
            for region in graph.regions(value) {
                for node in region.nodes() {
                    seen[node.0] += 1;
                    assert_eq!(graph.values()[node.0], value);
                }
            }
        }
        assert_eq!(seen, vec![1; 16]);
    }
}

#[test]
fn set_to_the_value_held_changes_nothing() {
    let mut graph: Graph<i32> = Graph::with_matrix_order(3);
    let _ = graph.set(Vertex { x: 1, y: 1 }, 1);
    let before: Vec<Vec<Node>> = graph.regions(0).iter().map(|region| region.nodes()).collect();
    let stones: Vec<Vec<Node>> = graph.regions(1).iter().map(|region| region.nodes()).collect();
    assert_eq!(graph.set(Vertex { x: 1, y: 1 }, 1), Ok(()));
    assert_eq!(graph.set(Vertex { x: 0, y: 0 }, 0), Ok(()));
    let after: Vec<Vec<Node>> = graph.regions(0).iter().map(|region| region.nodes()).collect();
    assert_eq!(before, after);
    let stones_after: Vec<Vec<Node>> = graph.regions(1).iter().map(|region| region.nodes()).collect();
    assert_eq!(stones, stones_after);
}

#[test]
fn set_turns_down_a_vertex_outside() {
    let mut graph: Graph<i32> = Graph::with_matrix_order(3);
    assert_eq!(graph.set(Vertex { x: 3, y: 0 }, 1), Err(libgo::game::error::Error::OutOfBounds));
    assert_eq!(graph.set(Vertex { x: 0, y: 3 }, 1), Err(libgo::game::error::Error::OutOfBounds));
    assert_eq!(graph.values(), &vec![0; 9]);
    assert_eq!(graph.get(Vertex { x: 3, y: 0 }), None);
    assert_eq!(graph.get(Vertex { x: 2, y: 2 }), Some(&0));
}

#[test]
fn shift_regions_moves_the_regions_that_do_not_touch() {
    // 1 1 2
    // 0 0 0
    // 1 0 0   (bottom row first)
    let mut graph: Graph<i32> = Graph::with_matrix_order(3);
    let _ = graph.set(Vertex { x: 0, y: 0 }, 1);
    let _ = graph.set(Vertex { x: 0, y: 2 }, 1);
    let _ = graph.set(Vertex { x: 1, y: 2 }, 1);
    let _ = graph.set(Vertex { x: 2, y: 2 }, 2);
    // Both regions of 1 touch 0: neither moves to 0.
    assert!(!graph.shift_regions(1, 0));
    // Neither touches 3: both move.
    assert!(graph.shift_regions(1, 3));
    assert_eq!(graph.values(), &vec![3, 0, 0, 0, 0, 0, 3, 3, 2]);
    // The region at the top touches 2, the one at the bottom does not.
    assert!(graph.shift_regions(3, 2));
    assert_eq!(graph.values(), &vec![2, 0, 0, 0, 0, 0, 3, 3, 2]);
    assert!(!graph.shift_regions(5, 2));
}

#[test]
fn reset_gives_the_first_state() {
    let mut graph: Graph<i32> = Graph::with_matrix_order(3);
    let _ = graph.set(Vertex { x: 1, y: 1 }, 1);
    graph.reset();
    assert_eq!(graph.values(), &vec![0; 9]);
    assert_eq!(kept(&graph, 0), vec![(0..9).collect::<Vec<usize>>()]);
    assert_eq!(graph.vertices().len(), 9);
    assert_eq!(graph.vertices()[5], Vertex { x: 2, y: 1 });
}

#[test]
fn matrix_neighbours() {
    let matrix: Matrix<i32> = Matrix::with_order(3);
    assert_eq!(matrix.order(), 3);
    assert_eq!(matrix.adjacencies(0), vec![1, 3]);
    assert_eq!(matrix.adjacencies(4), vec![3, 1, 5, 7]);
    assert_eq!(matrix.adjacencies(8), vec![7, 5]);
    assert_eq!(matrix.left_of(3), None);
    assert_eq!(matrix.left_of(4), Some(3));
    assert_eq!(matrix.right_of(5), None);
    assert_eq!(matrix.right_of(4), Some(5));
    assert_eq!(matrix.above(6), None);
    assert_eq!(matrix.above(4), Some(7));
    assert_eq!(matrix.below(2), None);
    assert_eq!(matrix.below(4), Some(1));
    assert_eq!(matrix.index_from_vertex(Vertex { x: 2, y: 1 }), Some(5));
    assert_eq!(matrix.index_from_vertex(Vertex { x: 3, y: 1 }), None);
    assert_eq!(matrix.vertex_from_index(5), Vertex { x: 2, y: 1 });
}

#[test]
fn matrix_cells() {
    let mut matrix: Matrix<i32> = Matrix::with_order(2);
    assert_eq!(matrix.get(Vertex { x: 1, y: 1 }), Some(&0));
    assert_eq!(matrix.get(Vertex { x: 2, y: 0 }), None);
    assert_eq!(matrix.set(Vertex { x: 1, y: 0 }, 7), Ok(()));
    assert_eq!(matrix.set(Vertex { x: 0, y: 2 }, 7), Err(libgo::game::error::Error::OutOfBounds));
    assert_eq!(matrix.values(), &vec![0, 7, 0, 0]);
    assert_eq!(matrix.verts_in_state(0), vec![
        Vertex { x: 0, y: 0 },
        Vertex { x: 0, y: 1 },
        Vertex { x: 1, y: 1 },
    ]);
    assert_eq!(matrix.verts_in_state(7), vec![Vertex { x: 1, y: 0 }]);
    assert_eq!(matrix.vertices().len(), 4);
    let copy = matrix.clone();
    assert!(copy.same(&matrix));
    matrix.reset();
    assert_eq!(matrix.values(), &vec![0; 4]);
    assert!(!copy.same(&matrix));
}
