use rustree::{BoundingBox, ConvexHull, Point, RTree};

#[test]
fn dot_of_empty_tree() {
    let tree: RTree<u8> = RTree::new();
    let expected = "digraph G {\nrankdir=\"LR\";\n            newrank=true;\n\
a0 [label=\"#0 (-1, -1, 1, 1)\" shape=rect style=filled fillcolor=\"#ffff7f\"];\n\
}\n";
    assert_eq!(tree.dot(false), expected);
}

#[test]
fn dot_lists_each_slot_then_its_edges() {
    let mut tree = RTree::new();
    tree.insert_entry(0u8, BoundingBox::new(2, 0, 2, 0));
    tree.insert_entry(1u8, BoundingBox::new(-120, 15, -7, 1000));
    let expected = "digraph G {\nrankdir=\"TB\";\n            newrank=true;\n\
a0 [label=\"#0 (-120, -1, 2, 1000)\" shape=rect style=filled fillcolor=\"#ffff7f\"];\n\
a0 -> a1;\n\
a0 -> a2;\n\
a1 [label=\"#1 (2, 0, 2, 0)\" shape=rect style=filled fillcolor=\"#7fff7f\"];\n\
a2 [label=\"#2 (-120, 15, -7, 1000)\" shape=rect style=filled fillcolor=\"#7fff7f\"];\n\
}\n";
    assert_eq!(tree.dot(true), expected);
}

#[test]
fn dot_numbers_slots_of_two_digits() {
    let mut tree = RTree::new();
    for i in 0..9i32 {
        tree.insert_entry(i, BoundingBox::new(i, i, i, i));
    }
    let text = tree.dot(true);
    assert!(text.contains("a10 [label=\"#10 "));
    assert!(text.ends_with("}\n"));
    let nodes = text.lines().filter(|l| l.contains("[label=")).count();
    assert_eq!(nodes, tree.walk().len());
    let edges = text.lines().filter(|l| l.contains(" -> ")).count();
    assert_eq!(edges, tree.walk().len() - 1);
}

#[test]
fn box_text_lists_min_then_max() {
    assert_eq!(BoundingBox::new(-1, -1, 1, 1).to_text(), "(-1, -1, 1, 1)");
    assert_eq!(BoundingBox::new(0, 10, 205, 9).to_text(), "(0, 10, 205, 9)");
    assert_eq!(
        BoundingBox::new(i32::MIN, 0, i32::MAX, 0).to_text(),
        "(-2147483648, 0, 2147483647, 0)"
    );
}

#[test]
fn points_add_and_subtract_by_coordinate() {
    assert_eq!(Point::new(1, 2) + Point::new(30, -40), Point::new(31, -38));
    assert_eq!(Point::new(1, 2) - Point::new(30, -40), Point::new(-29, 42));
    let p = Point::new(7, -9);
    assert_eq!(p + Point::new(0, 0), p);
    assert_eq!((p + Point::new(3, 4)) - Point::new(3, 4), p);
}

#[test]
fn hull_box_is_envelope_of_its_points() {
    let hull = ConvexHull {
        id: 7,
        apexes: vec![Point::new(3, 1), Point::new(-2, 4), Point::new(0, -6)],
    };
    assert_eq!(hull.bounding_box(), Some(BoundingBox::new(-2, -6, 3, 4)));
}

#[test]
fn hull_of_one_point_has_point_box() {
    let hull = ConvexHull { id: 0, apexes: vec![Point::new(5, 5)] };
    assert_eq!(hull.bounding_box(), Some(BoundingBox::new(5, 5, 5, 5)));
}

#[test]
fn hull_without_points_has_no_box() {
    let hull = ConvexHull { id: 0, apexes: vec![] };
    assert_eq!(hull.bounding_box(), None);
}

#[test]
fn hulls_are_found_by_their_box() {
    let mut tree = RTree::new();
    for id in 0..6usize {
        let x = 10 * id as i32;
        let hull = ConvexHull {
            id,
            apexes: vec![Point::new(x, 0), Point::new(x + 4, 0), Point::new(x + 2, 3)],
        };
        let bbox = hull.bounding_box().unwrap();
        tree.insert_entry(hull, bbox);
    }
    let found = tree.find(&BoundingBox::new(32, 1, 33, 2)).map(|h| h.id);
    assert_eq!(found, Some(3));
    let mut finder = tree.find_multi(&BoundingBox::new(14, 0, 20, 0));
    let mut ids = Vec::new();
    while let Some(h) = finder.next() {
        ids.push(h.id);
    }
    ids.sort();
    assert_eq!(ids, vec![1, 2]);
}
