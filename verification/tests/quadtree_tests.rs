use boids::quadtree::{in_rect, in_square, QuadTree};
use boids::vec2::Vec2;

fn keys(v: &[Vec2]) -> Vec<(i64, i64)> {
    let mut out: Vec<(i64, i64)> = v.iter().map(|p| (p.x, p.y)).collect();
    out.sort();
    out
}

#[test]
fn test_in_square() {
    assert!(in_square(Vec2::new(10, 20), Vec2::zero(), 50));
    assert!(in_square(Vec2::zero(), Vec2::zero(), 10));
    assert!(in_square(Vec2::new(50, 60), Vec2::new(50, 30), 83));
    assert!(!in_square(Vec2::new(100, 40), Vec2::new(1010, 40), 70));
}

#[test]
fn test_in_rect_edges() {
    // all four closed edges are inside
    assert!(in_rect(Vec2::new(0, 0), Vec2::zero(), Vec2::new(10, 20)));
    assert!(in_rect(Vec2::new(10, 20), Vec2::zero(), Vec2::new(10, 20)));
    assert!(in_rect(Vec2::new(10, 0), Vec2::zero(), Vec2::new(10, 20)));
    assert!(!in_rect(Vec2::new(11, 0), Vec2::zero(), Vec2::new(10, 20)));
    assert!(!in_rect(Vec2::new(0, -1), Vec2::zero(), Vec2::new(10, 20)));
}

#[test]
fn test_quadtree_new() {
    let mut tree: QuadTree<Vec2> = QuadTree::new(Vec2::zero(), Vec2::from(1230));
    tree.push(&Vec2::new(120, 329));
    for child in tree.get_nodes()[0].children().iter() {
        assert_eq!(*child, 0);
    }
}

#[test]
fn test_quadtree_push_in_bound() {
    let mut tree: QuadTree<Vec2> = QuadTree::new(Vec2::zero(), Vec2::new(100, 100));
    for i in 0..=10i64 {
        for j in 0..=10i64 {
            assert!(tree.push(&Vec2::new(i * 10, j * 10)));
        }
    }
}

#[test]
fn test_quadtree_push_out_bound() {
    let mut tree: QuadTree<Vec2> = QuadTree::new(Vec2::zero(), Vec2::from(500));
    assert!(!tree.push(&Vec2::from(-10)));
    assert!(!tree.push(&Vec2::new(70, 503)));
    assert!(!tree.push(&Vec2::new(90, -123)));
    assert!(!tree.push(&Vec2::new(983, 93)));
    assert!(!tree.push(&Vec2::new(-123, 342)));
    assert!(!tree.push(&Vec2::new(999, 882)));
}

#[test]
fn test_quadtree_child_nodes() {
    let mut tree: QuadTree<Vec2> = QuadTree::new(Vec2::zero(), Vec2::from(100));
    // fill top layer
    for _ in 0..tree.max_points() {
        tree.push(&Vec2::from(1));
    }
    // insert into top left
    tree.push(&Vec2::new(39, 45));
    // insert into bottom right
    tree.push(&Vec2::new(94, 61));
    // insert into bottom left
    tree.push(&Vec2::new(9, 96));
    // insert into top right
    tree.push(&Vec2::new(77, 25));

    let nodes = tree.get_nodes();
    assert_eq!(nodes[1].get_items()[0], Vec2::new(39, 45));
    assert_eq!(nodes[2].get_items()[0], Vec2::new(94, 61));
    assert_eq!(nodes[3].get_items()[0], Vec2::new(9, 96));
    assert_eq!(nodes[4].get_items()[0], Vec2::new(77, 25));

    // check number of points in each quadrant
    assert_eq!(nodes.len(), 5);
    assert_eq!(nodes[0].get_items().len(), 4);
    assert_eq!(nodes[1].get_items().len(), 1);
    assert_eq!(nodes[2].get_items().len(), 1);
    assert_eq!(nodes[3].get_items().len(), 1);
    assert_eq!(nodes[4].get_items().len(), 1);

    // check the size of each quadrant
    // root
    assert_eq!(nodes[0].rect_tl(), Vec2::zero());
    assert_eq!(nodes[0].rect_dims(), Vec2::from(100));
    // top left
    assert_eq!(nodes[1].rect_tl(), Vec2::zero());
    assert_eq!(nodes[1].rect_dims(), Vec2::from(50));
    // bottom right
    assert_eq!(nodes[2].rect_tl(), Vec2::from(50));
    assert_eq!(nodes[2].rect_dims(), Vec2::from(50));
    // bottom left
    assert_eq!(nodes[3].rect_tl(), Vec2::new(0, 50));
    assert_eq!(nodes[3].rect_dims(), Vec2::from(50));
    // top right
    assert_eq!(nodes[4].rect_tl(), Vec2::new(50, 0));
    assert_eq!(nodes[4].rect_dims(), Vec2::from(50));
}

#[test]
fn test_quadtree_query_square() {
    let mut tree: QuadTree<Vec2> = QuadTree::new(Vec2::zero(), Vec2::from(100));
    for i in 0..10i64 {
        for j in 0..10i64 {
            tree.push(&Vec2::new(i * 10, j * 10));
        }
    }
    assert_eq!(tree.query_square(Vec2::zero(), tree.dims().x).len(), 10 * 10);
    assert_eq!(tree.query_square(Vec2::zero(), tree.dims().x / 2).len(), 6 * 6);
    assert_eq!(tree.query_square(Vec2::new(5, 67), 34).len(), 3 * 3);
}

#[test]
fn test_quadtree_query_circle() {
    let mut tree: QuadTree<Vec2> = QuadTree::new(Vec2::zero(), Vec2::from(100));
    for i in 0..=10i64 {
        for j in 0..=10i64 {
            tree.push(&Vec2::new(i * 10, j * 10));
        }
    }
    assert_eq!(
        tree.query_circle(Vec2::from(50), 50).len(),
        tree.query_circle_brute_force(Vec2::from(50), 50).len()
    );
    assert_eq!(
        tree.query_circle(Vec2::zero(), 35).len(),
        tree.query_circle_brute_force(Vec2::zero(), 35).len()
    );
    assert_eq!(
        tree.query_circle(Vec2::new(832, 456), 222).len(),
        tree.query_circle_brute_force(Vec2::new(832, 456), 222).len()
    );

    // weird edge case
    // numbers from randomly clicking points
    let mut tree: QuadTree<Vec2> = QuadTree::new(Vec2::zero(), Vec2::new(13520, 3420));
    tree.push(&Vec2::new(1540, 280));
    tree.push(&Vec2::new(2270, 280));
    tree.push(&Vec2::new(1880, 450));
    tree.push(&Vec2::new(1860, 1140));
    tree.push(&Vec2::new(8380, 710));
    tree.push(&Vec2::new(9060, 710));
    tree.push(&Vec2::new(9170, 620));
    tree.push(&Vec2::new(8890, 960));
    assert!(!tree
        .query_square(Vec2::new(8730, 770).sub_vec(&Vec2::from(1450)), 1450 * 2)
        .is_empty());
    assert!(!tree.query_circle(Vec2::new(8730, 770), 1450).is_empty());
    assert_eq!(
        tree.query_circle(Vec2::new(8730, 770), 1450).len(),
        tree.query_circle_brute_force(Vec2::new(8730, 770), 1450).len()
    );
}

#[test]
fn test_insert_out_of_bounds_keeps_count() {
    let mut tree: QuadTree<Vec2> = QuadTree::new(Vec2::new(-100, -100), Vec2::from(200));
    assert!(tree.push(&Vec2::new(-100, 100)));
    assert_eq!(tree.len(), 1);
    assert!(!tree.push(&Vec2::new(101, 0)));
    assert!(!tree.push(&Vec2::new(0, -101)));
    assert_eq!(tree.len(), 1);
}

#[test]
fn test_count_after_inserts() {
    let mut tree: QuadTree<Vec2> = QuadTree::new(Vec2::zero(), Vec2::from(100));
    let mut n: usize = 0;
    for i in 0..=10i64 {
        for j in 0..=10i64 {
            assert!(tree.push(&Vec2::new(i * 10, j * 10)));
            n += 1;
            assert_eq!(tree.len(), n);
        }
    }
    assert_eq!(tree.len(), 121);
}

#[test]
fn test_node_capacity() {
    let mut tree: QuadTree<Vec2> = QuadTree::new(Vec2::zero(), Vec2::from(1000));
    for i in 0..=10i64 {
        for j in 0..=10i64 {
            tree.push(&Vec2::new(i * 97 % 1000, j * 89 % 1000));
        }
    }
    for k in 0..tree.num_nodes() {
        assert!(tree.node_len(k) <= tree.max_points());
    }
}

#[test]
fn test_query_equivalence_sets() {
    let mut tree: QuadTree<Vec2> = QuadTree::new(Vec2::zero(), Vec2::new(1000, 1000));
    let mut all: Vec<Vec2> = Vec::new();
    let mut x: i64 = 7;
    for _ in 0..200 {
        x = (x * 31 + 17) % 1001;
        let y = (x * 57 + 23) % 1001;
        let p = Vec2::new(x, y);
        assert!(tree.push(&p));
        all.push(p);
    }
    // circle query equals the brute-force scan, as a set with multiplicity
    for (c, r) in [
        (Vec2::new(500, 500), 300),
        (Vec2::new(0, 0), 700),
        (Vec2::new(999, 1), 150),
        (Vec2::new(500, 500), 0),
    ] {
        let fast = tree.query_circle(c, r);
        let brute = tree.query_circle_brute_force(c, r);
        assert_eq!(keys(&fast), keys(&brute));
        let manual: Vec<Vec2> = all
            .iter()
            .copied()
            .filter(|p| p.distance_squared(&c) <= r * r)
            .collect();
        assert_eq!(keys(&fast), keys(&manual));
    }
    // rectangle query equals a filter of everything inserted
    let tl = Vec2::new(100, 200);
    let dims = Vec2::new(400, 300);
    let got = tree.query_rect(tl, dims);
    let manual: Vec<Vec2> = all
        .iter()
        .copied()
        .filter(|p| {
            tl.x <= p.x && p.x <= tl.x + dims.x && tl.y <= p.y && p.y <= tl.y + dims.y
        })
        .collect();
    assert_eq!(keys(&got), keys(&manual));
}

#[test]
fn test_reset() {
    let mut tree: QuadTree<Vec2> = QuadTree::new(Vec2::zero(), Vec2::from(100));
    for i in 0..20i64 {
        tree.push(&Vec2::new(i, i));
    }
    assert!(tree.num_nodes() > 1);
    tree.reset(Vec2::new(20, 30), Vec2::new(40, 50));
    assert_eq!(tree.len(), 0);
    assert_eq!(tree.num_nodes(), 1);
    assert_eq!(tree.top_left(), Vec2::new(20, 30));
    assert_eq!(tree.dims(), Vec2::new(40, 50));
    // the new rectangle is what bounds inserts now
    assert!(!tree.push(&Vec2::new(0, 0)));
    assert!(tree.push(&Vec2::new(25, 35)));
}

#[test]
fn test_clear_keeps_rect() {
    let mut tree: QuadTree<Vec2> = QuadTree::new(Vec2::new(-50, -50), Vec2::from(100));
    for i in 0..10i64 {
        tree.push(&Vec2::new(i, i));
    }
    tree.clear();
    assert_eq!(tree.len(), 0);
    assert_eq!(tree.num_nodes(), 1);
    assert_eq!(tree.top_left(), Vec2::new(-50, -50));
    assert_eq!(tree.dims(), Vec2::from(100));
}

#[test]
fn test_node_introspection() {
    let mut tree: QuadTree<Vec2> = QuadTree::new(Vec2::zero(), Vec2::from(100));
    for _ in 0..4 {
        tree.push(&Vec2::from(1));
    }
    tree.push(&Vec2::new(80, 90));
    assert_eq!(tree.num_nodes(), 2);
    assert_eq!(tree.node_len(0), 4);
    assert_eq!(tree.node_len(1), 1);
    assert_eq!(tree.node_item_pos(1, 0), Vec2::new(80, 90));
    // (80, 90) lands in the bottom-right quadrant: slot order tl, tr, bl, br
    assert_eq!(tree.node_children(0), vec![0, 0, 0, 1]);
    assert_eq!(tree.node_children(1), vec![0, 0, 0, 0]);
}

#[test]
fn test_grid_queries_whole_and_quarter() {
    // bounding box (0,0)-(100,100); all 121 grid points; the quarter box
    // keeps the 36 points with both coordinates at most 50
    let mut tree: QuadTree<Vec2> = QuadTree::new(Vec2::zero(), Vec2::from(100));
    for i in 0..=10i64 {
        for j in 0..=10i64 {
            assert!(tree.push(&Vec2::new(i * 10, j * 10)));
        }
    }
    assert_eq!(tree.query_rect(Vec2::zero(), Vec2::from(100)).len(), 121);
    assert_eq!(tree.query_rect(Vec2::zero(), Vec2::from(50)).len(), 36);
}
