use navmesh::mesh::{count_shared_sides, NavTriangle, NavTriangleGraph};
use navmesh::Error;

fn tri(first: u32, second: u32, third: u32) -> NavTriangle {
    NavTriangle {
        first,
        second,
        third,
    }
}

#[test]
fn mesh_rejects_outside_vertices() {
    match NavTriangleGraph::new(3, vec![tri(0, 1, 2), tri(3, 1, 2)]) {
        Err(Error::TriangleVerticeIndexOutOfBounds(1, 0, 3)) => {}
        other => panic!("unexpected: {:?}", other.map(|_| ())),
    }
    match NavTriangleGraph::new(3, vec![tri(0, 4, 2)]) {
        Err(Error::TriangleVerticeIndexOutOfBounds(0, 1, 4)) => {}
        other => panic!("unexpected: {:?}", other.map(|_| ())),
    }
    match NavTriangleGraph::new(3, vec![tri(0, 1, 2), tri(0, 1, 9)]) {
        Err(Error::TriangleVerticeIndexOutOfBounds(1, 2, 9)) => {}
        other => panic!("unexpected: {:?}", other.map(|_| ())),
    }
}

#[test]
fn mesh_quad_halves_are_adjacent() {
    let m = NavTriangleGraph::new(4, vec![tri(0, 1, 2), tri(2, 3, 0)]).unwrap();
    assert_eq!(count_shared_sides(&tri(0, 1, 2), &tri(2, 3, 0)), 1);
    assert_eq!(m.neighbors(0), Some(vec![1]));
    assert_eq!(m.neighbors(1), Some(vec![0]));
    assert_eq!(m.neighbors(2), None);
    assert_eq!(m.triangles_costs(), &[1, 1]);
}

#[test]
fn mesh_corner_contact_is_not_adjacency() {
    // Sharing one vertex, or all three sides, links nothing.
    let m = NavTriangleGraph::new(6, vec![tri(0, 1, 2), tri(2, 3, 4), tri(2, 1, 0)]).unwrap();
    assert_eq!(count_shared_sides(&tri(0, 1, 2), &tri(2, 1, 0)), 3);
    assert_eq!(m.neighbors(0), Some(vec![]));
    assert_eq!(m.neighbors(1), Some(vec![]));
    assert_eq!(m.find_path_triangles(0, 1), None);
    assert_eq!(m.find_islands().len(), 3);
}

#[test]
fn mesh_corridor_along_strip() {
    // A strip of four triangles over vertices 0..6.
    let m = NavTriangleGraph::new(
        6,
        vec![tri(0, 1, 2), tri(1, 3, 2), tri(2, 3, 4), tri(3, 5, 4)],
    )
    .unwrap();
    assert_eq!(m.find_path_triangles(0, 3), Some(vec![0, 1, 2, 3]));
    assert_eq!(m.find_path_triangles(3, 0), Some(vec![3, 2, 1, 0]));
    assert_eq!(m.find_path_triangles(2, 2), Some(vec![2]));
    assert_eq!(m.find_path_triangles(4, 4), None);
    assert_eq!(m.find_path_triangles(0, 4), None);
    let islands = m.find_islands();
    assert_eq!(islands.len(), 1);
    let mut all = islands[0].clone();
    all.sort();
    assert_eq!(all, vec![0, 1, 2, 3]);
}

#[test]
fn mesh_costs_steer_the_corridor() {
    // Two triangles fan out of triangle 0 and meet again at triangle 3.
    let mut m = NavTriangleGraph::new(
        6,
        vec![tri(0, 1, 2), tri(1, 3, 2), tri(0, 2, 4), tri(2, 3, 5), tri(2, 5, 4)],
    )
    .unwrap();
    assert_eq!(m.set_triangle_cost(1, 9), Some(1));
    assert_eq!(m.set_triangle_cost(5, 9), None);
    assert_eq!(m.find_path_triangles(0, 3), Some(vec![0, 2, 4, 3]));
    assert_eq!(m.set_triangle_cost(1, 1), Some(9));
    assert_eq!(m.set_triangle_cost(4, 9), Some(1));
    assert_eq!(m.find_path_triangles(0, 3), Some(vec![0, 1, 3]));
    assert_eq!(m.triangles().len(), 5);
}
