// Checks the stated behavior of the index on concrete values: the
// containment round trip, removal by identity, the two subdivision gates,
// the quadrant partition, idempotent subdivision, out-of-bounds items,
// and the geometry helpers.

use quadtree::geometry::Aabb;
use quadtree::geometry::Point;
use quadtree::platform::is_mobile;
use quadtree::platform::is_non_mobile;
use quadtree::quadtree::KeyedAabb;
use quadtree::quadtree::QuadNode;
use quadtree::quadtree::SUBDIVISION_THRESHOLD;
use std::sync::Arc;

fn aabb(min_x: i32, min_y: i32, max_x: i32, max_y: i32) -> Aabb {
    Aabb { min: Point { x: min_x, y: min_y }, max: Point { x: max_x, y: max_y } }
}

fn item(key: u64, min_x: i32, min_y: i32, max_x: i32, max_y: i32) -> Arc<KeyedAabb> {
    Arc::new(KeyedAabb { key, aabb: aabb(min_x, min_y, max_x, max_y) })
}

fn keys(results: &[Arc<KeyedAabb>]) -> Vec<u64> {
    let mut ks: Vec<u64> = results.iter().map(|r| r.key).collect();
    ks.sort();
    ks
}

#[test]
fn containment_round_trip() {
    let mut tree: QuadNode<KeyedAabb> = QuadNode::new(aabb(0, 0, 100, 100));
    let x = item(7, 30, 30, 34, 34);
    tree.insert(Arc::clone(&x));

    // every region overlapping the item's box reports it
    assert_eq!(keys(&tree.query(&aabb(0, 0, 30, 30))), vec![7]);
    assert_eq!(keys(&tree.query(&aabb(33, 33, 90, 90))), vec![7]);
    assert_eq!(keys(&tree.query(&aabb(31, 31, 32, 32))), vec![7]);
    // a region disjoint from the box reports nothing
    assert_eq!(keys(&tree.query(&aabb(35, 35, 90, 90))), Vec::<u64>::new());
    assert_eq!(keys(&tree.query(&aabb(0, 0, 29, 29))), Vec::<u64>::new());
}

#[test]
fn removal_leaves_no_trace() {
    let mut tree: QuadNode<KeyedAabb> = QuadNode::new(aabb(0, 0, 100, 100));
    let a = item(1, 10, 10, 14, 14);
    let b = item(2, 60, 60, 64, 64);
    let c = item(3, 12, 60, 16, 64);
    tree.insert(Arc::clone(&a));
    tree.insert(Arc::clone(&b));
    tree.insert(Arc::clone(&c));

    tree.remove(a.as_ref());
    assert_eq!(keys(&tree.query(&aabb(0, 0, 100, 100))), vec![2, 3]);
    assert_eq!(keys(&tree.query(&aabb(10, 10, 14, 14))), Vec::<u64>::new());
    // removing again is a silent no-op
    tree.remove(a.as_ref());
    assert_eq!(keys(&tree.query(&aabb(0, 0, 100, 100))), vec![2, 3]);
}

#[test]
fn identity_not_value_determines_removal() {
    let mut tree: QuadNode<KeyedAabb> = QuadNode::new(aabb(0, 0, 100, 100));
    // two distinct items with identical boxes
    let first = item(10, 40, 40, 44, 44);
    let second = item(11, 40, 40, 44, 44);
    tree.insert(Arc::clone(&first));
    tree.insert(Arc::clone(&second));
    assert_eq!(keys(&tree.query(&aabb(40, 40, 44, 44))), vec![10, 11]);

    tree.remove(first.as_ref());
    assert_eq!(keys(&tree.query(&aabb(40, 40, 44, 44))), vec![11]);

    tree.remove(second.as_ref());
    assert_eq!(keys(&tree.query(&aabb(40, 40, 44, 44))), Vec::<u64>::new());
}

#[test]
fn small_boundary_never_subdivides() {
    // half-size (1, 1), squared length 2, not above the default threshold
    let mut tree: QuadNode<KeyedAabb> = QuadNode::new(aabb(0, 0, 2, 2));
    for k in 0..10 {
        tree.insert(item(k, 0, 0, 1, 1));
    }
    assert!(tree.iter_children().is_none());
    assert_eq!(tree.iter_data().len(), 10);
}

#[test]
fn occupancy_gate_holds_subdivision() {
    let mut tree: QuadNode<KeyedAabb> = QuadNode::new(aabb(0, 0, 100, 100));
    tree.insert(item(1, 10, 10, 12, 12));
    assert!(tree.iter_children().is_none());
    // the split is weighed before an insertion lands, so the second item
    // still finds an undivided node holding one item
    tree.insert(item(2, 70, 70, 72, 72));
    assert!(tree.iter_children().is_none());
    // the third insertion finds two items and a large boundary: it splits
    tree.insert(item(3, 20, 20, 22, 22));
    assert!(tree.iter_children().is_some());
}

#[test]
fn quadrants_partition_the_boundary() {
    let mut tree: QuadNode<KeyedAabb> = QuadNode::new(aabb(0, 0, 100, 100));
    tree.insert(item(1, 10, 10, 12, 12));
    tree.insert(item(2, 70, 70, 72, 72));
    tree.insert(item(3, 20, 20, 22, 22));
    assert!(tree.iter_children().is_some());

    assert_eq!(*tree.left_top().unwrap().get_bouding_box(), aabb(0, 50, 50, 100));
    assert_eq!(*tree.right_top().unwrap().get_bouding_box(), aabb(50, 50, 100, 100));
    assert_eq!(*tree.right_bottom().unwrap().get_bouding_box(), aabb(50, 0, 100, 50));
    assert_eq!(*tree.left_bottom().unwrap().get_bouding_box(), aabb(0, 0, 50, 50));

    let children = tree.iter_children().unwrap();
    assert_eq!(children.len(), 4);
}

#[test]
fn subdivision_happens_once() {
    let mut tree: QuadNode<KeyedAabb> = QuadNode::new(aabb(0, 0, 100, 100));
    tree.insert(item(1, 10, 10, 12, 12));
    tree.insert(item(2, 70, 70, 72, 72));
    tree.insert(item(3, 20, 20, 22, 22));
    assert!(tree.iter_children().is_some());
    // an item that straddles the center lines stays at the root
    tree.insert(item(4, 48, 48, 52, 52));
    assert_eq!(tree.iter_data().len(), 1);
    assert_eq!(tree.iter_data()[0].key, 4);
    // more insertions never rebuild the children or move the straddler
    for k in 5..12 {
        tree.insert(item(k, 30, 30, 32, 32));
    }
    assert_eq!(*tree.left_bottom().unwrap().get_bouding_box(), aabb(0, 0, 50, 50));
    assert_eq!(tree.iter_data().len(), 1);
    assert_eq!(tree.iter_data()[0].key, 4);
    assert_eq!(tree.iter_children().unwrap().len(), 4);
}

#[test]
fn out_of_bounds_items_are_accepted() {
    let mut tree: QuadNode<KeyedAabb> = QuadNode::new(aabb(0, 0, 10, 10));
    let stray = item(9, 20, 20, 24, 24);
    tree.insert(Arc::clone(&stray));
    assert_eq!(tree.iter_data().len(), 1);
    // a region that also touches the root boundary reports the stray item
    assert_eq!(keys(&tree.query(&aabb(5, 5, 30, 30))), vec![9]);
    // the root prunes a region disjoint from its own boundary, even though
    // the region overlaps the stray item's box
    assert_eq!(keys(&tree.query(&aabb(15, 15, 30, 30))), Vec::<u64>::new());
}

#[test]
fn query_on_empty_tree_is_empty() {
    let tree: QuadNode<KeyedAabb> = QuadNode::new(aabb(0, 0, 10, 10));
    assert!(tree.query(&aabb(0, 0, 10, 10)).is_empty());
    assert!(tree.query(&aabb(20, 20, 30, 30)).is_empty());
}

#[test]
fn query_returns_shared_handles() {
    let mut tree: QuadNode<KeyedAabb> = QuadNode::new(aabb(0, 0, 10, 10));
    let x = item(5, 2, 2, 4, 4);
    tree.insert(Arc::clone(&x));
    let results = tree.query(&aabb(0, 0, 10, 10));
    assert_eq!(results.len(), 1);
    assert!(Arc::ptr_eq(&results[0], &x));
}

#[test]
fn geometry_center_and_half_size() {
    let b = aabb(0, 0, 10, 10);
    assert_eq!(b.center(), Point { x: 5, y: 5 });
    assert_eq!(b.half_size(), Point { x: 5, y: 5 });
    assert_eq!(b.half_sq(), 50);

    let odd = aabb(-3, 1, 2, 2);
    assert_eq!(odd.center(), Point { x: -1, y: 1 });
    assert_eq!(odd.half_size(), Point { x: 2, y: 0 });
    assert_eq!(odd.half_sq(), 4);

    assert_eq!(SUBDIVISION_THRESHOLD, 6);
}

#[test]
fn geometry_contains_and_intersects() {
    let outer = aabb(0, 0, 10, 10);
    assert!(outer.contains(&aabb(0, 0, 10, 10)));
    assert!(outer.contains(&aabb(3, 4, 5, 6)));
    assert!(!outer.contains(&aabb(-1, 0, 5, 5)));
    assert!(!outer.contains(&aabb(5, 5, 11, 10)));

    // touching edges count as overlap
    assert!(outer.intersects(&aabb(10, 10, 20, 20)));
    assert!(outer.intersects(&aabb(-5, -5, 0, 0)));
    assert!(!outer.intersects(&aabb(11, 0, 20, 10)));
    assert!(!outer.intersects(&aabb(0, -9, 10, -1)));
}

#[test]
fn platform_is_fixed() {
    assert!(!is_mobile());
    assert!(is_non_mobile());
}
