use harmony::spatial::{BoundingBox, Point, SpatialIndex};

fn meta() -> Vec<(String, String)> {
    Vec::new()
}

#[test]
fn test_bounding_box_contains() {
    let bbox = BoundingBox { min_x: 0, min_y: 0, max_x: 100, max_y: 100 };
    assert!(bbox.contains(&Point { x: 50, y: 50 }));
    assert!(!bbox.contains(&Point { x: 150, y: 50 }));
}

#[test]
fn test_spatial_index_insert_and_query() {
    let mut index = SpatialIndex::new(0, 0, 1000, 1000, 4);
    assert!(index.insert("node1".to_string(), 100, 100, meta()));
    assert!(index.insert("node2".to_string(), 200, 200, meta()));

    let result = index.query_range(50, 50, 150, 150);
    assert!(result.iter().any(|n| n.id == "node1"));
}

#[test]
fn test_query_radius() {
    let mut index = SpatialIndex::new(0, 0, 1000, 1000, 4);
    index.insert("node1".to_string(), 100, 100, meta());
    index.insert("node2".to_string(), 200, 200, meta());

    let result = index.query_radius(100, 100, 50);
    assert!(result.iter().any(|n| n.id == "node1"));
    assert!(!result.iter().any(|n| n.id == "node2"));
}

#[test]
fn test_range_query_excludes_outside_box() {
    let mut index = SpatialIndex::new(0, 0, 1000, 1000, 4);
    assert!(index.insert("node1".to_string(), 100, 100, meta()));
    assert!(index.insert("node2".to_string(), 200, 200, meta()));

    let result = index.query_range(50, 50, 150, 150);
    assert_eq!(result.len(), 1);
    assert_eq!(result[0].id, "node1");
    assert_eq!(result[0].position.x, 100);
    assert_eq!(result[0].position.y, 100);
}

#[test]
fn test_radius_query_distance_boundary() {
    // node2 sits at Euclidean distance sqrt(2) * 100 (about 141.4) from
    // the center: outside radius 141, inside radius 142.
    let mut index = SpatialIndex::new(0, 0, 1000, 1000, 4);
    index.insert("node2".to_string(), 200, 200, meta());

    assert!(index.query_radius(100, 100, 141).is_empty());
    assert_eq!(index.query_radius(100, 100, 142).len(), 1);
}

#[test]
fn test_fifth_insert_triggers_subdivision_and_succeeds() {
    let mut index = SpatialIndex::new(0, 0, 1000, 1000, 4);
    assert!(index.insert("a".to_string(), 10, 10, meta()));
    assert!(index.insert("b".to_string(), 20, 20, meta()));
    assert!(index.insert("c".to_string(), 30, 30, meta()));
    assert!(index.insert("d".to_string(), 40, 40, meta()));
    // All five points lie inside the quadrant (0,0)-(250,250); the fifth
    // must force a subdivision and still be accepted.
    assert!(index.insert("e".to_string(), 50, 50, meta()));
    assert_eq!(index.size(), 5);

    let all = index.query_range(0, 0, 1000, 1000);
    assert_eq!(all.len(), 5);
}

#[test]
fn test_insert_at_max_corner_accepted() {
    let mut index = SpatialIndex::new(0, 0, 1000, 1000, 4);
    // Closed-interval containment: the exact max corner is inside.
    assert!(index.insert("corner".to_string(), 1000, 1000, meta()));
}

#[test]
fn test_insert_outside_bounds_rejected() {
    let mut index = SpatialIndex::new(0, 0, 1000, 1000, 4);
    assert!(!index.insert("out".to_string(), 1001, 500, meta()));
    assert_eq!(index.size(), 0);
    assert_eq!(index.get_position("out".to_string()), None);
}

#[test]
fn test_clear_empties_index() {
    let mut index = SpatialIndex::new(0, 0, 1000, 1000, 4);
    index.insert("a".to_string(), 10, 10, meta());
    index.insert("b".to_string(), 20, 20, meta());
    index.insert("c".to_string(), 30, 30, meta());
    assert_eq!(index.size(), 3);

    index.clear();
    assert_eq!(index.size(), 0);
    assert!(index.query_range(0, 0, 1000, 1000).is_empty());

    // Clearing again is safe and keeps the index empty and usable.
    index.clear();
    assert_eq!(index.size(), 0);
    assert!(index.query_radius(500, 500, 1000).is_empty());
    assert!(index.insert("again".to_string(), 1, 1, meta()));
    assert_eq!(index.size(), 1);
}

#[test]
fn test_duplicate_id_keeps_both_tree_points() {
    let mut index = SpatialIndex::new(0, 0, 1000, 1000, 4);
    assert!(index.insert("dup".to_string(), 100, 100, meta()));
    assert!(index.insert("dup".to_string(), 300, 300, meta()));

    // The lookup table keeps only the latest position...
    assert_eq!(index.size(), 1);
    let pos = index.get_position("dup".to_string()).unwrap();
    assert_eq!((pos.x, pos.y), (300, 300));

    // ...while the tree still holds both points.
    let all = index.query_range(0, 0, 1000, 1000);
    assert_eq!(all.len(), 2);
}

#[test]
fn test_get_position_reflects_last_insert() {
    let mut index = SpatialIndex::new(0, 0, 1000, 1000, 4);
    index.insert("n".to_string(), 7, 9, meta());
    let pos = index.get_position("n".to_string()).unwrap();
    assert_eq!((pos.x, pos.y), (7, 9));
    assert_eq!(index.get_position("missing".to_string()), None);
}

#[test]
fn test_metadata_round_trips_through_query() {
    let mut index = SpatialIndex::new(0, 0, 1000, 1000, 4);
    let mut m: Vec<(String, String)> = Vec::new();
    m.push(("kind".to_string(), "oscillator".to_string()));
    assert!(index.insert("n".to_string(), 5, 5, m));

    let found = index.query_range(0, 0, 10, 10);
    assert_eq!(found.len(), 1);
    assert_eq!(found[0].metadata.len(), 1);
    assert_eq!(found[0].metadata[0].0, "kind");
    assert_eq!(found[0].metadata[0].1, "oscillator");
}

#[test]
fn test_query_nearest_sorted_and_truncated() {
    let mut index = SpatialIndex::new(0, 0, 1000, 1000, 4);
    index.insert("far".to_string(), 400, 0, meta());
    index.insert("near".to_string(), 10, 0, meta());
    index.insert("mid".to_string(), 100, 0, meta());

    let two = index.query_nearest(0, 0, 2);
    assert_eq!(two.len(), 2);
    assert_eq!(two[0].id, "near");
    assert_eq!(two[1].id, "mid");

    let all = index.query_nearest(0, 0, 10);
    assert_eq!(all.len(), 3);
    assert_eq!(all[2].id, "far");
}

#[test]
fn test_query_nearest_fixed_radius_cutoff() {
    // The candidate search uses a fixed radius of 1000: a point farther
    // than that is never returned, however large k is.
    let mut index = SpatialIndex::new(0, 0, 5000, 5000, 4);
    index.insert("inside".to_string(), 900, 0, meta());
    index.insert("beyond".to_string(), 2000, 0, meta());

    let found = index.query_nearest(0, 0, 10);
    assert_eq!(found.len(), 1);
    assert_eq!(found[0].id, "inside");
}

#[test]
fn test_boxes_touching_at_edge_intersect() {
    let a = BoundingBox { min_x: 0, min_y: 0, max_x: 10, max_y: 10 };
    let b = BoundingBox { min_x: 10, min_y: 0, max_x: 20, max_y: 10 };
    let c = BoundingBox { min_x: 11, min_y: 0, max_x: 20, max_y: 10 };
    assert!(a.intersects(&b));
    assert!(b.intersects(&a));
    assert!(!a.intersects(&c));
}

#[test]
fn test_split_line_point_can_be_rejected() {
    // Integer halving excludes the parent's far edge from every child:
    // over (0,0)-(5,5) the quadrants end at 4, so once the root is full
    // a point at the max corner is rejected by all four children.
    let mut index = SpatialIndex::new(0, 0, 5, 5, 1);
    assert!(index.insert("first".to_string(), 0, 0, meta()));
    assert!(!index.insert("edge".to_string(), 5, 5, meta()));
    assert_eq!(index.size(), 1);
}

#[test]
fn test_query_with_degenerate_box_is_empty() {
    let mut index = SpatialIndex::new(0, 0, 1000, 1000, 4);
    index.insert("n".to_string(), 100, 100, meta());
    // A box with min above max contains nothing.
    assert!(index.query_range(200, 200, 100, 100).is_empty());
}

#[test]
fn test_radius_zero_hits_exact_point_only() {
    let mut index = SpatialIndex::new(0, 0, 1000, 1000, 4);
    index.insert("hit".to_string(), 10, 10, meta());
    index.insert("near".to_string(), 10, 11, meta());
    let found = index.query_radius(10, 10, 0);
    assert_eq!(found.len(), 1);
    assert_eq!(found[0].id, "hit");
}
