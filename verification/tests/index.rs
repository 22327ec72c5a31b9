use collisions::collidable::{CollidableShape, CollidableType};
use collisions::quadtree::{child_holds_circle, fitting_child, Quadtree};

const NONE: [bool; 4] = [false, false, false, false];

fn into(child: usize) -> [bool; 4] {
    let mut fits = NONE;
    fits[child] = true;
    fits
}

fn nodes(tree: &Quadtree) -> usize {
    let mut n = 1;
    for q in tree.quads.iter() {
        n += nodes(q);
    }
    n
}

#[test]
fn the_tree_is_subdivided_at_once() {
    let leaf = Quadtree::new(0);
    assert!(leaf.quads.is_empty());
    assert!(leaf.items.is_empty());
    let tree = Quadtree::new(3);
    assert_eq!(tree.quads.len(), 4);
    assert_eq!(nodes(&tree), 1 + 4 + 16 + 64);
    assert!(tree.quads[2].quads[1].quads[3].quads.is_empty());
}

#[test]
fn insertion_takes_the_first_child_that_fits() {
    let mut tree = Quadtree::new(2);
    tree.insert(5, &vec![[false, true, true, false], [false, false, false, true]]);
    assert_eq!(tree.quads[1].quads[3].items, vec![5]);
    assert!(tree.quads[2].items.is_empty());
    assert!(tree.items.is_empty());
}

#[test]
fn insertion_stops_where_nothing_fits() {
    let mut tree = Quadtree::new(2);
    tree.insert(5, &vec![into(2), NONE]);
    tree.insert(6, &vec![NONE, into(1)]);
    tree.insert(7, &vec![]);
    tree.insert(8, &vec![into(0)]);
    assert_eq!(tree.quads[2].items, vec![5]);
    assert_eq!(tree.items, vec![6, 7]);
    assert_eq!(tree.quads[0].items, vec![8]);
}

#[test]
fn insertion_stops_at_a_leaf() {
    let mut tree = Quadtree::new(1);
    tree.insert(5, &vec![into(3), into(0), into(0)]);
    assert_eq!(tree.quads[3].items, vec![5]);
    let mut leaf = Quadtree::new(0);
    leaf.insert(4, &vec![into(1)]);
    assert_eq!(leaf.items, vec![4]);
}

#[test]
fn first_fitting_child() {
    assert_eq!(fitting_child(&NONE), None);
    assert_eq!(fitting_child(&[true, true, true, true]), Some(0));
    assert_eq!(fitting_child(&[false, false, true, true]), Some(2));
    assert_eq!(fitting_child(&[false, false, false, true]), Some(3));
}

#[test]
fn a_circle_fits_with_its_whole_disk() {
    assert!(child_holds_circle(true, 5, 4));
    assert!(!child_holds_circle(true, 4, 4));
    assert!(!child_holds_circle(false, 5, 4));
}

#[test]
fn traversal_pairs_in_order() {
    let mut tree = Quadtree::new(1);
    tree.insert(10, &vec![]);
    tree.insert(1, &vec![into(0)]);
    tree.insert(3, &vec![into(2)]);
    tree.insert(11, &vec![NONE]);
    tree.insert(2, &vec![into(0)]);
    let mut pairs = vec![(99, 98)];
    let all = tree.check_collisions(&mut pairs);
    assert_eq!(all, vec![1, 2, 3, 10, 11]);
    assert_eq!(
        pairs,
        vec![(99, 98), (1, 2), (1, 10), (1, 11), (2, 10), (2, 11), (3, 10), (3, 11), (10, 11)]
    );
}

#[test]
fn traversal_pairs_own_items_once() {
    let mut leaf = Quadtree::new(0);
    for item in 0..4 {
        leaf.insert(item, &vec![]);
    }
    let mut pairs = Vec::new();
    let all = leaf.check_collisions(&mut pairs);
    assert_eq!(all, vec![0, 1, 2, 3]);
    assert_eq!(pairs, vec![(0, 1), (0, 2), (0, 3), (1, 2), (1, 3), (2, 3)]);
}

#[test]
fn traversal_reaches_every_ancestor() {
    let mut tree = Quadtree::new(2);
    tree.insert(1, &vec![]);
    tree.insert(2, &vec![into(3)]);
    tree.insert(3, &vec![into(3), into(0)]);
    let mut pairs = Vec::new();
    let all = tree.check_collisions(&mut pairs);
    assert_eq!(all, vec![3, 2, 1]);
    assert_eq!(pairs, vec![(3, 2), (3, 1), (2, 1)]);
}

#[test]
fn an_inserted_shape_is_gathered_once() {
    let mut tree = Quadtree::new(2);
    tree.insert(1, &vec![into(0), into(1)]);
    tree.insert(2, &vec![into(0)]);
    tree.insert(3, &vec![]);
    tree.insert(4, &vec![into(3), into(3)]);
    let mut pairs = Vec::new();
    let all = tree.check_collisions(&mut pairs);
    assert_eq!(all.len(), 4);
    for item in 1..5 {
        assert_eq!(all.iter().filter(|&&x| x == item).count(), 1);
    }
}

#[test]
fn shapes_in_separate_quadrants_are_not_paired() {
    let mut tree = Quadtree::new(1);
    tree.insert(1, &vec![into(0)]);
    tree.insert(2, &vec![into(1)]);
    let mut pairs = Vec::new();
    let all = tree.check_collisions(&mut pairs);
    assert_eq!(all, vec![1, 2]);
    assert!(pairs.is_empty());
}

#[test]
fn an_empty_tree_gives_nothing() {
    let tree = Quadtree::new(2);
    let mut pairs = Vec::new();
    assert!(tree.check_collisions(&mut pairs).is_empty());
    assert!(pairs.is_empty());
}

#[test]
fn kinds_and_tags() {
    assert_ne!(CollidableShape::Circle, CollidableShape::Polygon);
    assert_eq!(CollidableType::Actor, CollidableType::Actor);
    assert_ne!(CollidableType::Landscape, CollidableType::Object);
}
