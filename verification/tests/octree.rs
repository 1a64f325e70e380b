//! Tests for the spatial index.

use brs::octree::{ChunkTree, Node, NodeValue, Point, SaveOctree, CHUNK_SIZE};
use brs::save::{Brick, BrickColor, Collision, Color, Direction, Rotation, SaveData, Size};

#[test]
fn chunk_floor_division() {
    assert_eq!(Point::new(0, 1023, 1024).chunk(), Point::new(0, 0, 1));
    assert_eq!(Point::new(-1, -1024, -1025).chunk(), Point::new(-1, -1, -2));
    assert_eq!(CHUNK_SIZE, 1024);
}

#[test]
fn octant_selection() {
    let c = Point::new(0, 0, 0);
    assert_eq!(c.octant(Point::new(1, -1, -1)), 1);
    assert_eq!(c.octant(Point::new(-1, 1, -1)), 2);
    assert_eq!(c.octant(Point::new(-1, -1, 1)), 4);
    assert_eq!(c.octant(Point::new(1, 1, 1)), 7);
    assert_eq!(c.octant(Point::new(-1, -1, -1)), 0);
}

#[test]
fn point_is_in_bounds() {
    let p = Point::new(5, 5, 5);
    assert!(p.is_in(Point::new(0, 0, 0), Point::new(10, 10, 10)));
    assert!(!p.is_in(Point::new(6, 0, 0), Point::new(10, 10, 10)));
}

#[test]
fn insert_then_search_finds_value() {
    let mut tree = ChunkTree::new();
    tree.insert(3, Point::new(0, 0, 0), Point::new(16, 16, 16));
    let found = tree.search(Point::new(0, 0, 0), Point::new(16, 16, 16));
    assert!(found.contains(&3));
    let elsewhere = tree.search(Point::new(200, 200, 200), Point::new(232, 232, 232));
    assert!(!elsewhere.contains(&3));
}

#[test]
fn get_reads_point_value() {
    let mut tree = ChunkTree::new();
    tree.insert(9, Point::new(0, 0, 0), Point::new(32, 32, 32));
    assert_eq!(tree.get(Point::new(8, 8, 8)), Some(9));
    assert_eq!(tree.get(Point::new(900, 900, 900)), None);
}

#[test]
fn reduce_collapses_uniform_subtrees() {
    let mut node = Node::new(Point::new(512, 512, 512), 10, None);
    // fill the whole cube with one value, splitting on the way
    node.insert(5, Point::new(0, 0, 0), Point::new(512, 1024, 1024));
    node.reduce();
    // after reduction the half-filled tree keeps children, but no subtree of
    // eight identical leaves remains; filling the rest and reducing again
    // collapses the root to a single leaf
    node.insert(5, Point::new(512, 0, 0), Point::new(1024, 1024, 1024));
    node.reduce();
    assert!(matches!(node.value, NodeValue::Value(Some(5))));
}

#[test]
fn reduce_keeps_distinct_values() {
    let mut node = Node::new(Point::new(512, 512, 512), 10, None);
    node.insert(1, Point::new(0, 0, 0), Point::new(512, 1024, 1024));
    node.insert(2, Point::new(512, 0, 0), Point::new(1024, 1024, 1024));
    node.reduce();
    assert!(matches!(node.value, NodeValue::Children(_)));
}

fn brick_at(pos: (i32, i32, i32), size: (u32, u32, u32)) -> Brick {
    Brick {
        asset_name_index: 0,
        size: Size::Procedural(size.0, size.1, size.2),
        position: pos,
        direction: Direction::ZPositive,
        rotation: Rotation::Deg0,
        collision: Collision::for_all(true),
        visibility: true,
        material_index: 0,
        physical_index: 0,
        material_intensity: 5,
        color: BrickColor::Unique(Color { r: 1, g: 2, b: 3, a: 255 }),
        owner_index: 0,
        components: Vec::new(),
    }
}

#[test]
fn octree_contains_inserted_brick() {
    let mut data = SaveData::default();
    data.bricks = vec![brick_at((10, 20, 30), (5, 5, 6))];
    let tree = SaveOctree::new(data);
    let bounds = tree.brick_bounds(&tree.data().bricks[0]);
    assert_eq!(bounds, ((5, 15, 24), (15, 25, 36)));
    let found = tree.bricks_in(bounds.0, bounds.1);
    assert!(found.contains(&0));
}

#[test]
fn octree_brick_side_neighbours() {
    let mut data = SaveData::default();
    data.bricks = vec![
        brick_at((0, 0, 10), (5, 5, 6)),
        brick_at((0, 0, 22), (5, 5, 6)),
    ];
    let tree = SaveOctree::new(data);
    let b0 = brick_at((0, 0, 10), (5, 5, 6));
    let above = tree.brick_side(&b0, Direction::ZPositive).expect("slab in range");
    assert!(above.contains(&1));
    let sizes = tree.brick_size(&b0);
    assert_eq!(sizes, (5, 5, 6));
    let data = tree.into_inner();
    assert_eq!(data.bricks.len(), 2);
}

#[test]
fn degenerate_bricks_are_not_indexed() {
    let mut data = SaveData::default();
    data.bricks = vec![brick_at((10, 10, 10), (0, 0, 0))];
    let tree = SaveOctree::new(data);
    let found = tree.bricks_in((0, 0, 0), (64, 64, 64));
    assert!(!found.contains(&0));
}

#[test]
fn save_data_into_octree() {
    let mut data = SaveData::default();
    data.bricks = vec![brick_at((100, 100, 100), (10, 10, 10))];
    let tree = data.into_octree();
    let found = tree.bricks_in((80, 80, 80), (120, 120, 120));
    assert!(found.contains(&0));
}

#[test]
fn static_bricks_use_extent_table() {
    let mut data = SaveData::default();
    let mut b = brick_at((40, 40, 40), (0, 0, 0));
    b.size = Size::Empty;
    data.bricks = vec![b];
    // without an extent table the static brick has degenerate bounds
    let bare = SaveOctree::new(data);
    assert!(!bare.bricks_in((0, 0, 0), (64, 64, 64)).contains(&0));
    let data = bare.into_inner();
    // with the table the brick takes its asset's half-extents and is indexed
    let tree = SaveOctree::new_with_extents(data, vec![(5, 5, 6)]);
    let bounds = tree.brick_bounds(&tree.data().bricks[0]);
    assert_eq!(bounds, ((35, 35, 34), (45, 45, 46)));
    assert!(tree.bricks_in(bounds.0, bounds.1).contains(&0));
    assert_eq!(tree.brick_size(&tree.data().bricks[0]), (5, 5, 6));
}

#[test]
fn later_bricks_pave_over_earlier_ones() {
    let mut data = SaveData::default();
    data.bricks = vec![
        brick_at((16, 16, 16), (4, 4, 4)),
        brick_at((16, 16, 16), (16, 16, 16)),
    ];
    let tree = SaveOctree::new(data);
    let found = tree.bricks_in((12, 12, 12), (20, 20, 20));
    // the second brick's cells cover every cell of the first
    assert!(found.contains(&1));
    assert!(!found.contains(&0));
}
