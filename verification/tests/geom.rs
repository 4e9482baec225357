use quicksilver::geom::quadtree::{
    branch_count, check_item_pairs, check_node_pairs, node_count, query_down_nodes,
    query_up_nodes,
};
use quicksilver::geom::tilemap::{Tile, TileGrid};

#[test]
fn tile_constructors() {
    let solid = Tile::solid(Some(5));
    assert_eq!(solid.value, Some(5));
    assert!(!solid.empty);
    let empty: Tile<i32> = Tile::empty(None);
    assert_eq!(empty.value, None);
    assert!(empty.empty);
}

#[test]
fn tile_values() {
    // a 20 by 15 map of 32 pixel tiles, the tile at (32, 32) made solid
    let columns = 640 / 32;
    let rows = 480 / 32;
    let mut grid: TileGrid<i32> = TileGrid::new(columns * rows);
    assert_eq!(grid.len(), 300);
    grid.set(1 * rows + 1, Tile::solid(Some(5)));
    assert!(grid.tile_empty(1 * rows));
    assert!(!grid.tile_empty(1 * rows + 1));
    assert_eq!(grid.tile(1 * rows + 1).value, Some(5));
    assert_eq!(grid.tile(0).value, None);
}

#[test]
fn set_then_read_leaves_the_rest() {
    let mut grid = TileGrid::with_data(vec![Tile::empty(Some(1)), Tile::solid(Some(2)), Tile::empty(None)]);
    grid.set(1, Tile::empty(Some(9)));
    assert_eq!(grid.tile(1).value, Some(9));
    assert!(grid.tile_empty(1));
    assert_eq!(grid.tile(0).value, Some(1));
    assert_eq!(grid.tile(2).value, None);
    assert_eq!(grid.len(), 3);
}

#[test]
fn convert_keeps_emptiness() {
    let grid = TileGrid::with_data(vec![Tile::solid(Some(2)), Tile::empty(None), Tile::empty(Some(-3))]);
    let converted = grid.convert(|v: &i32| v * 10);
    assert_eq!(converted.len(), 3);
    assert_eq!(converted.tile(0).value, Some(20));
    assert!(!converted.tile_empty(0));
    assert_eq!(converted.tile(1).value, None);
    assert!(converted.tile_empty(1));
    assert_eq!(converted.tile(2).value, Some(-30));
}

#[test]
fn quadtree_sizes() {
    assert_eq!(node_count(1), 1);
    assert_eq!(node_count(2), 5);
    assert_eq!(node_count(3), 21);
    assert_eq!(node_count(10), 349525);
    assert_eq!(branch_count(1), 0);
    assert_eq!(branch_count(3), 5);
    assert_eq!(branch_count(10), 87381);
    assert_eq!(node_count(16), 0x5555_5555);
}

#[test]
fn query_walks_up_to_the_root() {
    assert_eq!(query_up_nodes(0), vec![0]);
    assert_eq!(query_up_nodes(7), vec![7, 1, 0]);
    assert_eq!(query_up_nodes(30), vec![30, 7, 1, 0]);
}

#[test]
fn query_walks_down_over_nodes_with_children() {
    // in a tree of 21 nodes only the root and nodes 1 to 3 have all their children, node 4
    // does not: 4 * 4 + 5 is not below 21
    assert_eq!(query_down_nodes(0, 21), vec![0, 1, 2, 3]);
    assert_eq!(query_down_nodes(2, 21), vec![2]);
    assert!(query_down_nodes(5, 21).is_empty());
    assert!(query_down_nodes(30, 21).is_empty());
    assert!(query_down_nodes(0, 5).is_empty());
}

#[test]
fn collision_check_pairs_each_node_with_its_subtree() {
    assert_eq!(check_node_pairs(1), vec![(0, 0)]);
    assert_eq!(
        check_node_pairs(5),
        vec![(0, 0), (0, 1), (0, 2), (0, 3), (0, 4), (1, 1), (2, 2), (3, 3), (4, 4)]
    );
    let pairs = check_node_pairs(21);
    assert_eq!(pairs.len(), 21 + 4 * 5 + 16);
    assert_eq!(pairs[0..6].to_vec(), vec![(0, 0), (0, 1), (0, 5), (0, 6), (0, 7), (0, 8)]);
}

#[test]
fn collision_item_pairs() {
    assert_eq!(check_item_pairs(true, 3, 3), vec![(0, 1), (0, 2), (1, 0), (1, 2), (2, 0), (2, 1)]);
    assert_eq!(check_item_pairs(false, 2, 2), vec![(0, 0), (0, 1), (1, 0), (1, 1)]);
    assert!(check_item_pairs(true, 1, 1).is_empty());
    assert!(check_item_pairs(false, 0, 4).is_empty());
}

#[test]
fn collision_pairs_stay_within_subtrees() {
    for (a, d) in check_node_pairs(85) {
        assert!(query_up_nodes(d).contains(&a), "pair ({}, {})", a, d);
    }
}

#[test]
fn collision_pairs_cover_every_subtree() {
    let pairs = check_node_pairs(85);
    for d in 0..85 {
        for a in query_up_nodes(d) {
            assert!(pairs.contains(&(a, d)), "pair ({}, {})", a, d);
        }
    }
}
