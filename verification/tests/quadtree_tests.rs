use arena_trees::spatial::quadtree::point_quadtree::{PointQuadtree, Quad};
use arena_trees::spatial::quadtree::prelude::{BBox2D, Range, Vec2};

#[allow(non_snake_case)]
#[test]
fn test_BBox2D() {
    let bbox = BBox2D { min: Vec2::from([-10, -10]), max: Vec2::from([10, 10]) };

    assert!(bbox.contains(&Vec2::default()));
    assert!(!bbox.contains(&Vec2::from([20, -100])));
    assert!(!bbox.contains(&Vec2::from([-80, 10])));

    let [sw, se, ne, nw] = bbox.subdivide(&bbox.mid());
    assert!(!sw.contains(&Vec2::default()));
    assert!(!se.contains(&Vec2::default()));
    assert!(ne.contains(&Vec2::default()));
    assert!(!nw.contains(&Vec2::default()));

    assert!(bbox.intersects(&sw));
    assert!(bbox.intersects(&se));
    assert!(bbox.intersects(&ne));
    assert!(bbox.intersects(&nw));
}

#[allow(non_snake_case)]
#[test]
fn test_PointQuadtree() {
    let bbox = BBox2D { min: Vec2::from([-10, -10]), max: Vec2::from([10, 10]) };

    let origin = Vec2::from([0, 0]);
    let north_east = Vec2::from([1, 4]);
    let north_west = Vec2::from([-2, 3]);

    let mut tree = PointQuadtree::<i32>::new(&bbox);
    assert_eq!(tree.len(), 0);

    assert!(tree.insert(&origin, 12));
    assert_eq!(tree.len(), 1);

    assert!(!tree.insert(&origin, 14));
    assert_eq!(tree.len(), 1);

    // Now let's try to find the first point
    let (_, item) = tree.find(&origin).unwrap();
    assert_eq!(item, 12);

    assert!(tree.insert(&north_east, -1));
    assert!(tree.insert(&north_west, 4));

    // Now let's try a query points in a region
    let region = BBox2D { min: Vec2::from([0, 0]), max: Vec2::from([10, 10]) };
    let items = tree.find_within(&region);
    assert_eq!(items.len(), 2);
    assert_eq!(items[0].1, 12);
    assert_eq!(items[1].1, -1);
}

fn square(min: i64, max: i64) -> BBox2D {
    BBox2D { min: Vec2 { x: min, y: min }, max: Vec2 { x: max, y: max } }
}

#[test]
fn vec2_from_takes_x_then_y() {
    let v = Vec2::from([3, -7]);
    assert_eq!(v.x, 3);
    assert_eq!(v.y, -7);
    assert_eq!(Vec2::default(), Vec2 { x: 0, y: 0 });
    assert_eq!(BBox2D::default(), square(0, 0));
}

#[test]
fn bbox_owns_its_minimum_and_not_its_maximum() {
    let bbox = square(-10, 10);
    assert!(bbox.contains(&Vec2 { x: -10, y: -10 }));
    assert!(bbox.contains(&Vec2 { x: 9, y: 9 }));
    assert!(!bbox.contains(&Vec2 { x: 10, y: 0 }));
    assert!(!bbox.contains(&Vec2 { x: 0, y: 10 }));
    assert!(!bbox.contains(&Vec2 { x: -11, y: 0 }));
    assert!(!square(0, 0).contains(&Vec2 { x: 0, y: 0 }));
}

#[test]
fn bbox_intersection_counts_touching_boxes() {
    let a = square(0, 10);
    assert!(a.intersects(&square(10, 20)));
    assert!(a.intersects(&square(5, 6)));
    assert!(a.intersects(&square(-5, 0)));
    assert!(!a.intersects(&square(11, 20)));
    assert!(!a.intersects(&square(-5, -1)));
    let wide = BBox2D { min: Vec2 { x: 0, y: 20 }, max: Vec2 { x: 10, y: 30 } };
    assert!(!a.intersects(&wide));
    assert!(Range((0, 10)).intersects(&Range((10, 20))));
    assert!(!Range((0, 10)).intersects(&Range((11, 20))));
}

#[test]
fn bbox_mid_rounds_down() {
    assert_eq!(square(-10, 10).mid(), Vec2 { x: 0, y: 0 });
    assert_eq!(square(0, 5).mid(), Vec2 { x: 2, y: 2 });
    assert_eq!(square(-5, 0).mid(), Vec2 { x: -3, y: -3 });
    assert_eq!(square(-3, -2).mid(), Vec2 { x: -3, y: -3 });
    let far = BBox2D {
        min: Vec2 { x: i64::MIN, y: i64::MAX - 1 },
        max: Vec2 { x: i64::MAX, y: i64::MAX },
    };
    assert_eq!(far.mid(), Vec2 { x: -1, y: i64::MAX - 1 });
}

#[test]
fn bbox_subdivide_cuts_at_the_given_point() {
    let bbox = square(-10, 10);
    let quads = bbox.subdivide(&Vec2 { x: 2, y: -3 });
    assert_eq!(quads[0], BBox2D { min: Vec2 { x: -10, y: -10 }, max: Vec2 { x: 2, y: -3 } });
    assert_eq!(quads[1], BBox2D { min: Vec2 { x: 2, y: -10 }, max: Vec2 { x: 10, y: -3 } });
    assert_eq!(quads[2], BBox2D { min: Vec2 { x: 2, y: -3 }, max: Vec2 { x: 10, y: 10 } });
    assert_eq!(quads[3], BBox2D { min: Vec2 { x: -10, y: -3 }, max: Vec2 { x: 2, y: 10 } });
}

#[test]
fn bbox_quadrants_hold_each_point_once() {
    let bbox = square(-4, 4);
    let pivot = Vec2 { x: 1, y: -1 };
    let quads = bbox.subdivide(&pivot);
    for x in -5..6 {
        for y in -5..6 {
            let p = Vec2 { x, y };
            let hits = quads.iter().filter(|q| q.contains(&p)).count();
            assert_eq!(hits, if bbox.contains(&p) { 1 } else { 0 });
        }
    }
}

#[test]
fn quad_starts_empty() {
    let quad = Quad::<i32>::new(5, square(0, 4));
    assert_eq!(quad.id, 5);
    assert_eq!(quad.bbox, square(0, 4));
    assert!(quad.point.is_none());
    assert!(quad.children.is_none());
}

#[test]
fn quadtree_find_returns_what_was_inserted() {
    let mut tree = PointQuadtree::<i32>::new(&square(-100, 100));
    let points = [(0, 0), (5, 5), (-5, 5), (-5, -5), (5, -5), (6, 6), (5, 0), (0, 5), (99, 99)];
    for (n, (x, y)) in points.iter().enumerate() {
        assert!(tree.insert(&Vec2 { x: *x, y: *y }, n as i32));
    }
    assert_eq!(tree.len(), points.len());
    for (n, (x, y)) in points.iter().enumerate() {
        let p = Vec2 { x: *x, y: *y };
        assert_eq!(tree.find(&p), Some((p, n as i32)));
    }
    assert_eq!(tree.find(&Vec2 { x: 1, y: 1 }), None);
    assert_eq!(tree.find(&Vec2 { x: 500, y: 0 }), None);
}

#[test]
fn quadtree_rejects_a_point_twice() {
    let mut tree = PointQuadtree::<i32>::new(&square(-10, 10));
    assert!(tree.insert(&Vec2 { x: 1, y: 1 }, 1));
    assert!(tree.insert(&Vec2 { x: 2, y: 2 }, 2));
    assert!(tree.insert(&Vec2 { x: 3, y: 3 }, 3));
    assert!(!tree.insert(&Vec2 { x: 3, y: 3 }, 30));
    assert!(!tree.insert(&Vec2 { x: 1, y: 1 }, 10));
    assert_eq!(tree.len(), 3);
    assert_eq!(tree.find(&Vec2 { x: 3, y: 3 }), Some((Vec2 { x: 3, y: 3 }, 3)));
}

#[test]
fn quadtree_rejects_points_outside_its_box() {
    let mut tree = PointQuadtree::<i32>::new(&square(-10, 10));
    assert!(!tree.insert(&Vec2 { x: 10, y: 0 }, 1));
    assert!(!tree.insert(&Vec2 { x: 0, y: -11 }, 1));
    assert_eq!(tree.len(), 0);
    assert!(tree.insert(&Vec2 { x: -10, y: -10 }, 1));
    assert!(!tree.insert(&Vec2 { x: 20, y: 20 }, 2));
    assert_eq!(tree.len(), 1);
    assert_eq!(tree.find_within(&square(-100, 100)).len(), 1);
}

#[test]
fn quadtree_in_an_empty_box_takes_nothing() {
    let mut tree = PointQuadtree::<i32>::new(&square(3, 3));
    assert!(!tree.insert(&Vec2 { x: 3, y: 3 }, 1));
    assert_eq!(tree.len(), 0);
    assert_eq!(tree.find(&Vec2 { x: 3, y: 3 }), None);
    assert!(tree.find_within(&square(0, 10)).is_empty());
}

#[test]
fn quadtree_reports_south_west_first_and_north_west_last() {
    let mut tree = PointQuadtree::<i32>::new(&square(-10, 10));
    // The first point becomes the pivot of the root; the others are given in
    // the reverse of the order in which the tree reports them.
    assert!(tree.insert(&Vec2 { x: 0, y: 0 }, 0));
    assert!(tree.insert(&Vec2 { x: -3, y: 3 }, 4));
    assert!(tree.insert(&Vec2 { x: 3, y: 3 }, 3));
    assert!(tree.insert(&Vec2 { x: 3, y: -3 }, 2));
    assert!(tree.insert(&Vec2 { x: -3, y: -3 }, 1));
    let all: Vec<i32> = tree.find_within(&square(-10, 10)).iter().map(|e| e.1).collect();
    assert_eq!(all, vec![0, 1, 2, 3, 4]);
}

#[test]
fn quadtree_arranges_each_quadrant_around_its_own_first_point() {
    let mut tree = PointQuadtree::<i32>::new(&square(-100, 100));
    assert!(tree.insert(&Vec2 { x: 0, y: 0 }, 0));
    assert!(tree.insert(&Vec2 { x: 10, y: 10 }, 1));
    assert!(tree.insert(&Vec2 { x: -10, y: -10 }, 2));
    assert!(tree.insert(&Vec2 { x: 20, y: 5 }, 3));
    assert!(tree.insert(&Vec2 { x: 5, y: 20 }, 4));
    assert!(tree.insert(&Vec2 { x: 5, y: 5 }, 5));
    assert!(tree.insert(&Vec2 { x: -20, y: -5 }, 6));
    // Root, then its south-west group (2, with 6 to its north-west), then its
    // north-east group: 1, then 5, 3 and 4 around 1.
    let all: Vec<i32> = tree.find_within(&square(-100, 100)).iter().map(|e| e.1).collect();
    assert_eq!(all, vec![0, 2, 6, 1, 5, 3, 4]);
    let some: Vec<i32> = tree.find_within(&square(5, 21)).iter().map(|e| e.1).collect();
    assert_eq!(some, vec![1, 5, 3, 4]);
    let few: Vec<i32> = tree.find_within(&square(-10, 6)).iter().map(|e| e.1).collect();
    assert_eq!(few, vec![0, 2, 5]);
}

#[test]
fn quadtree_sends_points_level_with_the_pivot_east_and_north() {
    let mut tree = PointQuadtree::<i32>::new(&square(-10, 10));
    assert!(tree.insert(&Vec2 { x: 0, y: 0 }, 0));
    assert!(tree.insert(&Vec2 { x: 0, y: 5 }, 1));
    assert!(tree.insert(&Vec2 { x: 5, y: 0 }, 2));
    assert!(tree.insert(&Vec2 { x: 0, y: -5 }, 3));
    assert!(tree.insert(&Vec2 { x: -5, y: 0 }, 4));
    // (0,-5) lies south-east, (0,5) and (5,0) north-east, (-5,0) north-west.
    let all: Vec<i32> = tree.find_within(&square(-10, 10)).iter().map(|e| e.1).collect();
    assert_eq!(all, vec![0, 3, 1, 2, 4]);
}

#[test]
fn quadtree_region_query_matches_a_scan() {
    let mut tree = PointQuadtree::<usize>::new(&square(-50, 50));
    let mut stored: Vec<Vec2> = Vec::new();
    let mut x: i64 = 7;
    let mut y: i64 = -3;
    for n in 0..200 {
        x = (x * 31 + 17) % 101 - 50;
        y = (y * 17 + 29) % 103 - 51;
        let p = Vec2 { x, y };
        let fresh = square(-50, 50).contains(&p) && !stored.contains(&p);
        assert_eq!(tree.insert(&p, n), fresh);
        if fresh {
            stored.push(p);
        }
    }
    assert_eq!(tree.len(), stored.len());
    let region = BBox2D { min: Vec2 { x: -20, y: -5 }, max: Vec2 { x: 15, y: 30 } };
    let found = tree.find_within(&region);
    let expected = stored.iter().filter(|p| region.contains(p)).count();
    assert_eq!(found.len(), expected);
    for (i, entry) in found.iter().enumerate() {
        assert!(region.contains(&entry.0));
        assert!(stored.contains(&entry.0));
        assert!(found.iter().skip(i + 1).all(|other| other.0 != entry.0));
    }
}
