use rustree::{BoundingBox, Point, RTree, RTreeNode};

fn point_box(x: i32, y: i32) -> BoundingBox {
    BoundingBox::new(x, y, x, y)
}

/// The five points of the demonstration, on a grid of tenths.
fn five_points() -> RTree<Point> {
    let mut tree = RTree::new();
    for (x, y) in [(20, 0), (-20, 10), (10, 70), (0, 50), (-10, -50)] {
        tree.insert_entry(Point::new(x, y), point_box(x, y));
    }
    tree
}

fn collect<T: Copy>(tree: &RTree<T>, query: &BoundingBox) -> Vec<T> {
    let mut finder = tree.find_multi(query);
    let mut found = Vec::new();
    while let Some(value) = finder.next() {
        found.push(*value);
    }
    found
}

#[test]
fn empty_tree_has_seed_box_and_depth_one() {
    let tree: RTree<u32> = RTree::new();
    assert_eq!(tree.bounding_box(), BoundingBox::new(-1, -1, 1, 1));
    assert_eq!(tree.max_depth(), 1);
    let stops = tree.walk();
    assert_eq!(stops.len(), 1);
    assert_eq!(stops[0].0, 0);
    assert_eq!(stops[0].1, 0);
    assert!(matches!(stops[0].2.node(), RTreeNode::Node(children) if children.is_empty()));
}

#[test]
fn empty_tree_finds_nothing() {
    let tree: RTree<u32> = RTree::new();
    let everything = BoundingBox::new(i32::MIN, i32::MIN, i32::MAX, i32::MAX);
    assert_eq!(tree.find(&everything), None);
    assert!(tree.find_multi(&everything).next().is_none());
}

#[test]
fn first_insertions_stay_under_the_root() {
    let mut tree = RTree::new();
    for (i, (x, y)) in [(20, 0), (-20, 10), (10, 70), (0, 50)].into_iter().enumerate() {
        tree.insert_entry(i, point_box(x, y));
    }
    let stops = tree.walk();
    assert_eq!(stops.len(), 5);
    match stops[0].2.node() {
        RTreeNode::Node(children) => assert_eq!(children, &vec![1, 2, 3, 4]),
        RTreeNode::Leaf(_) => panic!("the root is a group"),
    }
    for stop in &stops[1..] {
        assert_eq!(stop.1, 1);
        assert!(matches!(stop.2.node(), RTreeNode::Leaf(_)));
    }
    assert_eq!(tree.max_depth(), 1);
}

#[test]
fn root_box_is_union_of_seed_and_stored_boxes() {
    let mut tree = RTree::new();
    tree.insert_entry(0u8, point_box(2, 0));
    assert_eq!(tree.bounding_box(), BoundingBox::new(-1, -1, 2, 1));
    tree.insert_entry(1u8, BoundingBox::new(-5, 3, -4, 9));
    assert_eq!(tree.bounding_box(), BoundingBox::new(-5, -1, 2, 9));
}

#[test]
fn fifth_insertion_splits_the_root_once() {
    let tree = five_points();
    let stops = tree.walk();
    // the root, two new groups, five values
    assert_eq!(stops.len(), 8);
    let root_children = match stops[0].2.node() {
        RTreeNode::Node(children) => children.clone(),
        RTreeNode::Leaf(_) => panic!("the root is a group"),
    };
    assert_eq!(root_children, vec![6, 7]);
    let mut values = 0;
    let mut groups = 0;
    for stop in &stops {
        match stop.2.node() {
            RTreeNode::Node(children) => {
                groups += 1;
                assert!(children.len() <= 4);
                if stop.0 != 0 {
                    assert_eq!(stop.1, 1);
                    assert!(!children.is_empty());
                    values += children.len();
                }
            },
            RTreeNode::Leaf(_) => assert_eq!(stop.1, 2),
        }
    }
    assert_eq!(groups, 3);
    assert_eq!(values, 5);
    assert_eq!(tree.max_depth(), 2);
}

#[test]
fn split_picks_the_cheapest_division() {
    // Sides {(20,0), (10,70), (0,50)} and {(-20,10), (-10,-50)} cost
    // 20 * 70 + 10 * 60 = 2000; no other division is cheaper, and of the
    // two patterns for it the one tried first puts the first three on the
    // first side.
    let tree = five_points();
    let stops = tree.walk();
    let by_slot = |slot: usize| stops.iter().find(|s| s.0 == slot).unwrap();
    match by_slot(6).2.node() {
        RTreeNode::Node(children) => assert_eq!(children, &vec![1, 3, 4]),
        RTreeNode::Leaf(_) => panic!("slot 6 is a group"),
    }
    match by_slot(7).2.node() {
        RTreeNode::Node(children) => assert_eq!(children, &vec![2, 5]),
        RTreeNode::Leaf(_) => panic!("slot 7 is a group"),
    }
    assert_eq!(*by_slot(6).2.bounding_box(), BoundingBox::new(0, 0, 20, 70));
    assert_eq!(*by_slot(7).2.bounding_box(), BoundingBox::new(-20, -50, -10, 10));
    assert_eq!(tree.bounding_box(), BoundingBox::new(-20, -50, 20, 70));
}

#[test]
fn walk_is_preorder() {
    let tree = five_points();
    let order: Vec<(usize, usize)> = tree.walk().iter().map(|s| (s.0, s.1)).collect();
    assert_eq!(order, vec![(0, 0), (6, 1), (1, 2), (3, 2), (4, 2), (7, 1), (2, 2), (5, 2)]);
}

#[test]
fn find_returns_point_near_query() {
    // centre (0.5, 7.1), half extent (0.5, 0.5), on the grid of tenths
    let tree = five_points();
    let query = BoundingBox::new(0, 66, 10, 76);
    assert_eq!(tree.find(&query), Some(&Point::new(10, 70)));
}

#[test]
fn find_returns_first_hit_in_walk_order() {
    let tree = five_points();
    let everything = BoundingBox::new(-100, -100, 100, 100);
    assert_eq!(tree.find(&everything), Some(&Point::new(20, 0)));
}

#[test]
fn find_misses_where_nothing_is_stored() {
    let tree = five_points();
    let query = BoundingBox::new(30, 30, 40, 40);
    assert_eq!(tree.find(&query), None);
    assert!(collect(&tree, &query).is_empty());
}

#[test]
fn find_multi_yields_every_hit_once() {
    // centre (0, 0.5), half extent (2, 2), on the grid of tenths
    let tree = five_points();
    let query = BoundingBox::new(-20, -15, 20, 25);
    assert_eq!(collect(&tree, &query), vec![Point::new(20, 0), Point::new(-20, 10)]);
}

#[test]
fn find_multi_resumes_where_it_stopped() {
    let tree = five_points();
    let everything = BoundingBox::new(-100, -100, 100, 100);
    let mut finder = tree.find_multi(&everything);
    assert_eq!(finder.next(), Some(&Point::new(20, 0)));
    assert_eq!(finder.next(), Some(&Point::new(10, 70)));
    assert_eq!(finder.next(), Some(&Point::new(0, 50)));
    assert_eq!(finder.next(), Some(&Point::new(-20, 10)));
    assert_eq!(finder.next(), Some(&Point::new(-10, -50)));
    assert_eq!(finder.next(), None);
    assert_eq!(finder.next(), None);
}

#[test]
fn queries_repeat_their_answers() {
    let tree = five_points();
    let query = BoundingBox::new(-20, -15, 20, 70);
    assert_eq!(tree.find(&query), tree.find(&query));
    assert_eq!(collect(&tree, &query), collect(&tree, &query));
    let first: Vec<(usize, usize)> = tree.walk().iter().map(|s| (s.0, s.1)).collect();
    let second: Vec<(usize, usize)> = tree.walk().iter().map(|s| (s.0, s.1)).collect();
    assert_eq!(first, second);
}

#[test]
fn every_hit_is_a_stop_of_the_walk() {
    let tree = five_points();
    let query = BoundingBox::new(-20, -15, 20, 70);
    let stored: Vec<Point> = tree
        .walk()
        .iter()
        .filter_map(|s| match s.2.node() {
            RTreeNode::Leaf(p) => Some(*p),
            RTreeNode::Node(_) => None,
        })
        .collect();
    for hit in collect(&tree, &query) {
        assert!(stored.contains(&hit));
    }
}

#[test]
fn routing_descends_into_the_group_that_grows_least() {
    let mut tree = five_points();
    // To take (-11, -51) the first group would grow to 31 * 121, the
    // second to 10 * 61: the second takes it.
    tree.insert_entry(Point::new(-11, -51), point_box(-11, -51));
    let stops = tree.walk();
    let second = stops.iter().find(|s| s.0 == 7).unwrap();
    match second.2.node() {
        RTreeNode::Node(children) => assert_eq!(children, &vec![2, 5, 8]),
        RTreeNode::Leaf(_) => panic!("slot 7 is a group"),
    }
    assert_eq!(*second.2.bounding_box(), BoundingBox::new(-20, -51, -10, 10));
    let first = stops.iter().find(|s| s.0 == 6).unwrap();
    assert_eq!(*first.2.bounding_box(), BoundingBox::new(0, 0, 20, 70));
    assert_eq!(tree.bounding_box(), BoundingBox::new(-20, -51, 20, 70));
    assert_eq!(tree.max_depth(), 2);
}

#[test]
fn deeper_split_raises_max_depth() {
    let mut tree = five_points();
    // the first group holds three values: a fourth fills it, a fifth
    // divides it
    tree.insert_entry(Point::new(5, 60), point_box(5, 60));
    assert_eq!(tree.max_depth(), 2);
    tree.insert_entry(Point::new(6, 61), point_box(6, 61));
    assert_eq!(tree.max_depth(), 3);
    let stops = tree.walk();
    let deepest = stops.iter().map(|s| s.1).max().unwrap();
    assert_eq!(deepest, 3);
    let first = stops.iter().find(|s| s.0 == 6).unwrap();
    match first.2.node() {
        RTreeNode::Node(children) => assert_eq!(children, &vec![10, 11]),
        RTreeNode::Leaf(_) => panic!("slot 6 is a group"),
    }
}

#[test]
fn groups_cover_their_children_and_hold_at_most_four() {
    let mut tree = RTree::new();
    let mut x: i32 = 7;
    for i in 0..200u32 {
        x = (x * 73 + 19) % 1009;
        let y = (x * 31 + 5) % 503;
        tree.insert_entry(i, BoundingBox::new(x, y, x + 3, y + 2));
    }
    let stops = tree.walk();
    let box_of = |slot: usize| *stops.iter().find(|s| s.0 == slot).unwrap().2.bounding_box();
    let mut deepest_value = 0;
    let mut values = 0;
    for stop in &stops {
        match stop.2.node() {
            RTreeNode::Node(children) => {
                assert!(children.len() <= 4);
                if stop.0 != 0 {
                    let mut union = box_of(children[0]);
                    for child in children {
                        union = union.get_union(&box_of(*child));
                    }
                    assert_eq!(*stop.2.bounding_box(), union);
                }
            },
            RTreeNode::Leaf(_) => {
                values += 1;
                deepest_value = deepest_value.max(stop.1);
                assert!(tree.bounding_box().get_union(stop.2.bounding_box()) == tree.bounding_box());
            },
        }
    }
    assert_eq!(values, 200);
    assert_eq!(tree.max_depth(), deepest_value);
}

#[test]
fn every_slot_above_a_value_covers_it() {
    let mut tree = RTree::new();
    let mut x: i32 = 11;
    for i in 0..120u32 {
        x = (x * 57 + 13) % 997;
        let y = (x * 29 + 3) % 499;
        tree.insert_entry(i, BoundingBox::new(x - 500, y - 250, x - 498, y - 249));
    }
    // the boxes on the way from the root to the current stop
    let mut above: Vec<BoundingBox> = Vec::new();
    let mut values = 0;
    for stop in tree.walk() {
        above.truncate(stop.1);
        let here = *stop.2.bounding_box();
        for outer in &above {
            assert_eq!(outer.get_union(&here), *outer);
        }
        if matches!(stop.2.node(), RTreeNode::Leaf(_)) {
            values += 1;
            assert_eq!(above.len(), stop.1);
        }
        above.push(here);
    }
    assert_eq!(values, 120);
}

#[test]
fn fifty_random_boxes_are_all_found() {
    let mut tree = RTree::new();
    for i in 0..50usize {
        let x = (rand::random::<u32>() % 2000) as i32 - 1000;
        let y = (rand::random::<u32>() % 2000) as i32 - 1000;
        let w = (rand::random::<u32>() % 10) as i32;
        let h = (rand::random::<u32>() % 10) as i32;
        tree.insert_entry(i, BoundingBox::new(x, y, x + w, y + h));
    }
    let mut found = collect(&tree, &tree.bounding_box());
    assert_eq!(found.len(), 50);
    found.sort();
    found.dedup();
    assert_eq!(found, (0..50).collect::<Vec<usize>>());
}
