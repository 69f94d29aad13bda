use navmesh::grid::{NavGrid, NavGridConnection};
use navmesh::Error;

fn open_grid(cols: usize, rows: usize) -> NavGrid {
    NavGrid::new(cols, rows, vec![true; cols * rows]).unwrap()
}

#[test]
fn grid_new_accepts_matching_shapes() {
    for (cols, rows) in [(1usize, 1usize), (1, 5), (4, 1), (3, 7)] {
        let g = NavGrid::new(cols, rows, vec![true; cols * rows]).unwrap();
        assert_eq!(g.cells().len(), cols * rows);
        assert!(g.cells_costs().iter().all(|c| *c == 1));
    }
}

#[test]
fn grid_new_rejects_shape_mismatch() {
    match NavGrid::new(3, 2, vec![true; 5]) {
        Err(Error::CellsCountDoesNotMatchColsRows(5, 3, 2)) => {}
        other => panic!("unexpected: {:?}", other.map(|_| ())),
    }
    match NavGrid::new(2, 2, vec![true; 5]) {
        Err(Error::CellsCountDoesNotMatchColsRows(5, 2, 2)) => {}
        other => panic!("unexpected: {:?}", other.map(|_| ())),
    }
}

#[test]
fn grid_new_rejects_empty_dimensions() {
    match NavGrid::new(0, 3, vec![]) {
        Err(Error::EmptyCells(0, 3)) => {}
        other => panic!("unexpected: {:?}", other.map(|_| ())),
    }
    match NavGrid::new(2, 0, vec![]) {
        Err(Error::EmptyCells(2, 0)) => {}
        other => panic!("unexpected: {:?}", other.map(|_| ())),
    }
}

#[test]
fn grid_with_connections_rejects_outside_coordinates() {
    let bad_from = vec![NavGridConnection {
        from: (2, 0),
        to: (0, 0),
    }];
    match NavGrid::with_connections(2, 2, bad_from) {
        Err(Error::InvalidCellCoordinate(2, 0, 2, 2)) => {}
        other => panic!("unexpected: {:?}", other.map(|_| ())),
    }
    let bad_to = vec![
        NavGridConnection {
            from: (0, 0),
            to: (1, 1),
        },
        NavGridConnection {
            from: (1, 1),
            to: (0, 5),
        },
    ];
    match NavGrid::with_connections(2, 2, bad_to) {
        Err(Error::InvalidCellCoordinate(0, 5, 2, 2)) => {}
        other => panic!("unexpected: {:?}", other.map(|_| ())),
    }
    match NavGrid::with_connections(0, 2, vec![]) {
        Err(Error::EmptyCells(0, 2)) => {}
        other => panic!("unexpected: {:?}", other.map(|_| ())),
    }
}

#[test]
fn grid_path_to_itself() {
    let g = NavGrid::new(2, 2, vec![true, false, true, true]).unwrap();
    assert_eq!(g.find_path((0, 0), (0, 0)), Some(vec![(0, 0)]));
    assert_eq!(g.find_path((1, 1), (1, 1)), Some(vec![(1, 1)]));
    assert_eq!(g.find_path((1, 0), (1, 0)), None);
    assert_eq!(g.find_path((5, 0), (5, 0)), None);
}

#[test]
fn grid_paths_both_ways() {
    let g = NavGrid::new(
        4,
        3,
        vec![
            true, true, true, true, //
            false, false, true, false, //
            true, true, true, true,
        ],
    )
    .unwrap();
    let there = g.find_path((0, 0), (0, 2)).unwrap();
    let back = g.find_path((0, 2), (0, 0)).unwrap();
    assert_eq!(there.len(), back.len());
    assert_eq!(there.len(), 7);
    assert_eq!(there.first(), Some(&(0, 0)));
    assert_eq!(there.last(), Some(&(0, 2)));
    assert_eq!(g.find_path((0, 0), (1, 1)), None);
    assert_eq!(g.find_path((1, 1), (0, 0)), None);
}

#[test]
fn grid_costs_steer_the_path() {
    let mut g = open_grid(3, 2);
    // Two equal routes from (0,0) to (2,1); make the top row dear.
    assert_eq!(g.set_cell_cost(1, 0, 10), Some(1));
    assert_eq!(g.set_cell_cost(2, 0, 10), Some(1));
    let path = g.find_path((0, 0), (2, 1)).unwrap();
    assert_eq!(path, vec![(0, 0), (0, 1), (1, 1), (2, 1)]);
    assert_eq!(g.set_cell_cost(2, 0, 0), Some(10));
    assert_eq!(g.set_cell_cost(3, 0, 5), None);
    assert_eq!(g.cells_costs(), &[1, 10, 0, 1, 1, 1]);
}

#[test]
fn grid_filter_avoids_blocked_steps() {
    let g = open_grid(3, 2);
    let path = g
        .find_path_custom((0, 0), (2, 0), |a, b| !(a == (0, 0) && b == (1, 0)))
        .unwrap();
    assert_eq!(path, vec![(0, 0), (0, 1), (1, 1), (1, 0), (2, 0)]);
    // A blocked step is still taken where nothing else leads on.
    let line = open_grid(3, 1);
    let path = line.find_path_custom((0, 0), (2, 0), |_, _| false).unwrap();
    assert_eq!(path, vec![(0, 0), (1, 0), (2, 0)]);
}

#[test]
fn grid_neighbors_and_indices() {
    let g = NavGrid::new(3, 2, vec![true, true, false, true, true, true]).unwrap();
    let mut n = g.neighbors(1, 0).unwrap();
    n.sort();
    assert_eq!(n, vec![(0, 0), (1, 1)]);
    assert!(g.neighbors(2, 0).is_none());
    assert!(g.neighbors(3, 0).is_none());
    assert_eq!(g.index(2, 1), Some(5));
    assert_eq!(g.index(3, 1), None);
    assert_eq!(g.coord(5), Some((2, 1)));
    assert_eq!(g.coord(6), None);
}

#[test]
fn grid_islands_of_cut_grid() {
    // (2,2) is walkable but walled off by free cells.
    let cells = vec![
        true, true, false, //
        true, true, false, //
        false, false, true,
    ];
    let g = NavGrid::new(3, 3, cells.clone()).unwrap();
    let islands = g.find_islands();
    assert!(islands.len() >= 2);
    let mut all: Vec<(usize, usize)> = islands.iter().flatten().copied().collect();
    all.sort();
    let mut walkable: Vec<(usize, usize)> = (0..9)
        .filter(|i| cells[*i])
        .map(|i| (i % 3, i / 3))
        .collect();
    walkable.sort();
    assert_eq!(all, walkable);
    assert!(islands.iter().any(|i| i == &vec![(2, 2)]));
}

#[test]
fn grid_islands_of_one_way_ring() {
    let g = NavGrid::with_connections(
        2,
        1,
        vec![NavGridConnection {
            from: (0, 0),
            to: (1, 0),
        }],
    )
    .unwrap();
    assert_eq!(g.find_path((0, 0), (1, 0)), Some(vec![(0, 0), (1, 0)]));
    assert_eq!(g.find_path((1, 0), (0, 0)), None);
    assert_eq!(g.find_islands().len(), 2);
}

#[test]
fn grid_neighbors_newest_link_first() {
    let g = NavGrid::with_connections(
        2,
        2,
        vec![
            NavGridConnection {
                from: (0, 0),
                to: (1, 0),
            },
            NavGridConnection {
                from: (0, 0),
                to: (0, 1),
            },
            NavGridConnection {
                from: (1, 1),
                to: (0, 0),
            },
        ],
    )
    .unwrap();
    assert_eq!(g.neighbors(0, 0), Some(vec![(0, 1), (1, 0)]));
    assert_eq!(g.neighbors(1, 1), Some(vec![(0, 0)]));
    assert_eq!(g.neighbors(0, 1), Some(vec![]));
}

#[test]
fn grid_free_cell_has_no_cost_to_set() {
    let mut g = NavGrid::new(2, 2, vec![true, false, true, true]).unwrap();
    assert_eq!(g.set_cell_cost(1, 0, 7), None);
    assert_eq!(g.set_cell_cost(0, 1, 7), Some(1));
    assert_eq!(g.cells_costs(), &[1, 1, 7, 1]);
}

#[test]
fn grid_neighbors_listed_once() {
    let g = open_grid(3, 3);
    let mut n = g.neighbors(1, 1).unwrap();
    n.sort();
    assert_eq!(n, vec![(0, 1), (1, 0), (1, 2), (2, 1)]);
}
