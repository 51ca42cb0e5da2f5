// Exercises the quadtree end to end: placement of items across the
// subdivision, region queries, and identity-based removal.  Coordinates
// are given in half-units (everything doubled, and the subdivision
// threshold scaled by four with it) so that unit boxes centered between
// grid lines keep integral corners.

use quadtree::geometry::Aabb;
use quadtree::geometry::Point;
use quadtree::quadtree::KeyedAabb;
use quadtree::quadtree::QuadNode;
use std::sync::Arc;

fn aabb(min_x: i32, min_y: i32, max_x: i32, max_y: i32) -> Aabb {
    Aabb { min: Point { x: min_x, y: min_y }, max: Point { x: max_x, y: max_y } }
}

fn item(key: u64, min_x: i32, min_y: i32, max_x: i32, max_y: i32) -> Arc<KeyedAabb> {
    Arc::new(KeyedAabb { key, aabb: aabb(min_x, min_y, max_x, max_y) })
}

#[test]
fn test_insert() {
    let mut tree: QuadNode<KeyedAabb> = QuadNode::with_threshold(aabb(0, 0, 20, 20), 24);

    let data1 = item(1, 7, 3, 9, 5);
    let data1_ref = Arc::clone(&data1);
    tree.insert(data1);

    assert!(tree.iter_children().is_none());
    assert!(tree.iter_data().len() == 1);
    assert!(Arc::ptr_eq(&tree.iter_data()[0], &data1_ref));

    let data2 = item(2, 13, 13, 15, 15);
    let data2_ref = Arc::clone(&data2);
    tree.insert(data2);

    assert!(tree.iter_children().is_none());
    assert!(tree.iter_data().len() == 2);
    assert!(Arc::ptr_eq(&tree.iter_data()[1], &data2_ref));

    let data3 = item(3, 5, 5, 7, 7);
    let data3_ref = Arc::clone(&data3);
    tree.insert(data3);

    assert!(tree.iter_children().is_some());
    assert!(tree.iter_data().len() == 0);
    assert!(Arc::ptr_eq(&tree.left_bottom().unwrap().iter_data()[0], &data1_ref));
    assert!(Arc::ptr_eq(&tree.right_top().unwrap().iter_data()[0], &data2_ref));
    assert!(Arc::ptr_eq(&tree.left_bottom().unwrap().iter_data()[1], &data3_ref));
}

#[test]
fn test_query() {
    let mut tree: QuadNode<KeyedAabb> = QuadNode::with_threshold(aabb(0, 0, 20, 20), 24);

    let data1 = item(1, 7, 3, 9, 5);
    let data1_ref = Arc::clone(&data1);
    tree.insert(data1);

    let data2 = item(2, 13, 13, 15, 15);
    tree.insert(data2);

    let data3 = item(3, 5, 5, 7, 7);
    let data3_ref = Arc::clone(&data3);
    tree.insert(data3);

    let query_boundary = aabb(4, 4, 12, 12);

    let results = tree.query(&query_boundary);
    assert!(results.len() == 2);
    assert!(Arc::ptr_eq(&results[0], &data1_ref));
    assert!(Arc::ptr_eq(&results[1], &data3_ref));
}

#[test]
fn test_remove() {
    let mut tree: QuadNode<KeyedAabb> = QuadNode::with_threshold(aabb(0, 0, 20, 20), 24);

    let data1 = item(1, 7, 3, 9, 5);
    let data1_ref = Arc::clone(&data1);
    tree.insert(data1);

    let data2 = item(2, 13, 13, 15, 15);
    tree.insert(data2);

    let data3 = item(3, 5, 5, 7, 7);
    let data3_ref = Arc::clone(&data3);
    tree.insert(data3);

    let query_boundary = aabb(4, 4, 12, 12);

    tree.remove(data1_ref.as_ref());
    let results = tree.query(&query_boundary);
    assert!(results.len() == 1);
    assert!(Arc::ptr_eq(&results[0], &data3_ref));
}
