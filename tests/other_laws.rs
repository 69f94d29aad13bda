use navmesh::free_grid::{NavFreeGrid, NavFreeGridConnection};
use navmesh::islands::{NavIslandPortal, NavIslands, NavIslandsConnection};
use navmesh::net::check_connections;
use navmesh::{Error, NavConnection};
use std::collections::hash_map::DefaultHasher;
use std::hash::{Hash, Hasher};

fn hash_of(c: &NavConnection) -> u64 {
    let mut h = DefaultHasher::new();
    c.hash(&mut h);
    h.finish()
}

#[test]
fn connection_equality_is_symmetric() {
    for (a, b) in [(0u32, 1u32), (7, 3), (5, 5), (u32::MAX, 0)] {
        assert_eq!(NavConnection(a, b), NavConnection(b, a));
        assert_eq!(hash_of(&NavConnection(a, b)), hash_of(&NavConnection(b, a)));
    }
    assert_ne!(NavConnection(1, 2), NavConnection(1, 3));
    assert_eq!(NavConnection(9, 4).key(), (4, 9));
}

fn conn(from: (isize, isize), to: (isize, isize)) -> NavFreeGridConnection {
    NavFreeGridConnection { from, to }
}

#[test]
fn free_grid_cells_are_deduplicated() {
    let g = NavFreeGrid::new(vec![
        conn((0, 0), (1, 0)),
        conn((1, 0), (0, 0)),
        conn((1, 0), (5, -5)),
    ]);
    let mut cells = g.cells().to_vec();
    cells.sort();
    assert_eq!(cells, vec![(0, 0), (1, 0), (5, -5)]);
    assert_eq!(g.cells_costs(), &[1, 1, 1]);
    let i = g.index(5, -5).unwrap();
    assert_eq!(g.coord(i), Some((5, -5)));
    assert_eq!(g.index(2, 2), None);
    assert_eq!(g.coord(3), None);
}

#[test]
fn free_grid_paths_both_ways() {
    let mut g = NavFreeGrid::new(vec![
        conn((0, 0), (1, 0)),
        conn((1, 0), (2, 0)),
        conn((0, 0), (0, 1)),
        conn((0, 1), (2, 0)),
    ]);
    assert_eq!(g.find_path((0, 0), (0, 0)), Some(vec![(0, 0)]));
    assert_eq!(g.find_path((9, 9), (9, 9)), None);
    assert_eq!(g.set_cell_cost(1, 0, 5), Some(1));
    assert_eq!(g.set_cell_cost(7, 7, 5), None);
    assert_eq!(
        g.find_path((0, 0), (2, 0)),
        Some(vec![(0, 0), (0, 1), (2, 0)])
    );
    assert_eq!(
        g.find_path((2, 0), (0, 0)),
        Some(vec![(2, 0), (0, 1), (0, 0)])
    );
    let path = g
        .find_path_custom((0, 0), (2, 0), |a, _| a != (0, 1))
        .unwrap();
    assert_eq!(path, vec![(0, 0), (1, 0), (2, 0)]);
    let mut n = g.neighbors(0, 0).unwrap();
    n.sort();
    assert_eq!(n, vec![(0, 1), (1, 0)]);
    assert!(g.neighbors(4, 4).is_none());
}

#[test]
fn free_grid_islands() {
    let g = NavFreeGrid::new(vec![conn((0, 0), (1, 0)), conn((5, 5), (6, 6))]);
    let mut islands: Vec<Vec<(isize, isize)>> = g
        .find_islands()
        .into_iter()
        .map(|mut i| {
            i.sort();
            i
        })
        .collect();
    islands.sort();
    assert_eq!(islands, vec![vec![(0, 0), (1, 0)], vec![(5, 5), (6, 6)]]);
    assert_eq!(g.find_path((0, 0), (6, 6)), None);
}

fn node(island: u8, portal: Option<u8>) -> NavIslandPortal<u8, u8> {
    NavIslandPortal { island, portal }
}

#[test]
fn islands_distances_and_costs() {
    let a = node(0, None);
    let ap = node(0, Some(1));
    let b = node(1, None);
    let mut islands = NavIslands::new(
        vec![
            NavIslandsConnection {
                from: a.clone(),
                to: ap.clone(),
                distance: 3,
            },
            NavIslandsConnection {
                from: ap.clone(),
                to: b.clone(),
                distance: 4,
            },
            NavIslandsConnection {
                from: a.clone(),
                to: b.clone(),
                distance: 10,
            },
        ],
        true,
    );
    assert_eq!(islands.portals().len(), 3);
    let (d, path) = islands.find_path(&a, &b).unwrap();
    assert_eq!(d, 7);
    assert_eq!(path, vec![&a, &ap, &b]);
    let (back, _) = islands.find_path(&b, &a).unwrap();
    assert_eq!(back, d);
    assert_eq!(islands.find_path(&a, &a), Some((0, vec![&a])));
    assert_eq!(islands.set_portal_cost(&ap, 2), Some(1));
    // Both steps through the portal now weigh twice as much: 6 + 8 > 10.
    let (d, path) = islands.find_path(&a, &b).unwrap();
    assert_eq!(d, 10);
    assert_eq!(path, vec![&a, &b]);
    assert_eq!(islands.set_portal_cost(&node(9, None), 2), None);
    assert!(islands.find_path(&a, &node(9, None)).is_none());
    let (d, path) = islands
        .find_path_custom(&a, &b, |x, y| !(x == &a && y == &b))
        .unwrap();
    assert_eq!(d, 14);
    assert_eq!(path, vec![&a, &ap, &b]);
    let mut n: Vec<NavIslandPortal<u8, u8>> =
        islands.neighbors(&a).unwrap().into_iter().cloned().collect();
    n.sort_by_key(|p| (p.island, p.portal));
    assert_eq!(n, vec![ap.clone(), b.clone()]);
    assert_eq!(islands.index(&b).map(|i| islands.portal(i)), Some(Some(&b)));
    assert_eq!(islands.portal(3), None);
}

#[test]
fn islands_one_way_connections() {
    let a = node(0, None);
    let b = node(1, None);
    let islands = NavIslands::new(
        vec![NavIslandsConnection {
            from: a.clone(),
            to: b.clone(),
            distance: 2,
        }],
        false,
    );
    assert_eq!(islands.find_path(&a, &b), Some((2, vec![&a, &b])));
    assert_eq!(islands.find_path(&b, &a), None);
    assert_eq!(islands.find_islands().len(), 2);
    assert!(islands.neighbors(&b).unwrap().is_empty());
}


#[test]
fn net_connections_checked() {
    let ok = vec![NavConnection(0, 1), NavConnection(2, 1)];
    assert!(check_connections(3, &ok).is_ok());
    let bad_first = vec![NavConnection(0, 1), NavConnection(3, 1)];
    match check_connections(3, &bad_first) {
        Err(Error::ConnectionVerticeIndexOutOfBounds(1, 0, 3)) => {}
        other => panic!("unexpected: {:?}", other),
    }
    let bad_second = vec![NavConnection(0, 7), NavConnection(9, 9)];
    match check_connections(3, &bad_second) {
        Err(Error::ConnectionVerticeIndexOutOfBounds(0, 1, 7)) => {}
        other => panic!("unexpected: {:?}", other),
    }
}
