use navmesh::free_grid::{NavFreeGrid, NavFreeGridConnection};
use navmesh::grid::{NavGrid, NavGridConnection};
use navmesh::islands::{NavIslandPortal, NavIslands, NavIslandsConnection};

#[test]
fn test_grid() {
    let grid = NavGrid::new(
        3,
        3,
        vec![true, true, true, true, false, true, true, true, true],
    )
    .unwrap();
    let path = grid.find_path((0, 0), (1, 2)).unwrap();
    assert_eq!(path, vec![(0, 0), (0, 1), (0, 2), (1, 2)]);
    assert_eq!(grid.find_path((0, 0), (1, 1)), None);

    let grid = NavGrid::with_connections(
        2,
        2,
        vec![
            NavGridConnection {
                from: (0, 0),
                to: (1, 0),
            },
            NavGridConnection {
                from: (1, 0),
                to: (1, 1),
            },
            NavGridConnection {
                from: (1, 1),
                to: (0, 1),
            },
            NavGridConnection {
                from: (0, 1),
                to: (0, 0),
            },
        ],
    )
    .unwrap();
    let path = grid.find_path((0, 0), (0, 1)).unwrap();
    assert_eq!(path, vec![(0, 0), (1, 0), (1, 1), (0, 1)]);

    let grid = NavFreeGrid::new(vec![
        NavFreeGridConnection {
            from: (0, 0),
            to: (0, 2),
        },
        NavFreeGridConnection {
            from: (0, 2),
            to: (-1, -1),
        },
    ]);
    let path = grid.find_path((0, 0), (-1, -1)).unwrap();
    assert_eq!(path, vec![(0, 0), (0, 2), (-1, -1)]);
}

#[test]
fn test_islands() {
    let grid_a = NavGrid::new(2, 2, vec![true, true, true, false]).unwrap();
    let grid_b = NavGrid::new(2, 2, vec![true, true, false, true]).unwrap();
    let island_a = NavIslandPortal {
        island: grid_a.id(),
        portal: None,
    };
    let island_a_portal = NavIslandPortal {
        island: grid_a.id(),
        portal: Some((1, 0)),
    };
    let island_b_portal = NavIslandPortal {
        island: grid_b.id(),
        portal: Some((0, 0)),
    };
    let island_b = NavIslandPortal {
        island: grid_b.id(),
        portal: None,
    };
    let islands = NavIslands::new(
        vec![
            NavIslandsConnection {
                from: island_a.clone(),
                to: island_a_portal.clone(),
                distance: 1,
            },
            NavIslandsConnection {
                from: island_a_portal.clone(),
                to: island_b_portal.clone(),
                distance: 0,
            },
            NavIslandsConnection {
                from: island_b_portal.clone(),
                to: island_b.clone(),
                distance: 1,
            },
        ],
        true,
    );
    let (distance, path) = islands.find_path(&island_a, &island_b).unwrap();
    assert_eq!(
        path,
        vec![&island_a, &island_a_portal, &island_b_portal, &island_b]
    );
    assert!((distance as f64 - 2.0).abs() < 1.0e-6);
}
