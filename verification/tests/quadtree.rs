use my_library::quadtree::{collision_candidates, StaticQuadTree};

type Rect = (i64, i64, i64, i64);

fn quadrants(r: &Rect) -> (Rect, Rect, Rect, Rect) {
    let (x0, y0, x1, y1) = *r;
    let cx = (x0 + x1) / 2;
    let cy = (y0 + y1) / 2;
    (
        (x0, y0, cx, cy),
        (cx, y0, x1, cy),
        (x0, cy, cx, y1),
        (cx, cy, x1, y1),
    )
}

fn meets(a: &Rect, b: &Rect) -> bool {
    a.0 <= b.2 && a.2 >= b.0 && a.1 <= b.3 && a.3 >= b.1
}

fn tree(depth: usize) -> StaticQuadTree<Rect> {
    StaticQuadTree::new((-512, -384, 512, 384), depth, quadrants)
}

#[test]
fn tree_sizes() {
    assert_eq!(tree(0).len(), 5);
    assert_eq!(tree(1).len(), 5);
    assert_eq!(tree(2).len(), 21);
    assert_eq!(tree(4).len(), 341);
}

#[test]
fn smallest_node_descends_into_the_only_quadrant() {
    let t = tree(1);
    let target: Rect = (-300, -300, -290, -290);
    assert_eq!(t.smallest_node(&|b: &Rect| meets(b, &target)), 1);
    let target: Rect = (290, 290, 300, 300);
    assert_eq!(t.smallest_node(&|b: &Rect| meets(b, &target)), 4);
}

#[test]
fn smallest_node_stays_at_the_root_across_the_centre() {
    let t = tree(3);
    let target: Rect = (-10, -10, 10, 10);
    assert_eq!(t.smallest_node(&|b: &Rect| meets(b, &target)), 0);
}

#[test]
fn smallest_node_descends_several_levels() {
    let t = tree(2);
    let target: Rect = (-500, -380, -490, -370);
    assert_eq!(t.smallest_node(&|b: &Rect| meets(b, &target)), 5);
}

#[test]
fn intersecting_nodes_of_a_small_object() {
    let t = tree(1);
    let target: Rect = (-300, -300, -290, -290);
    let mut nodes: Vec<usize> = t.intersecting_nodes(&|b: &Rect| meets(b, &target)).into_iter().collect();
    nodes.sort();
    assert_eq!(nodes, vec![0, 1]);
}

#[test]
fn intersecting_nodes_across_the_centre() {
    let t = tree(1);
    let target: Rect = (-10, -10, 10, 10);
    let mut nodes: Vec<usize> = t.intersecting_nodes(&|b: &Rect| meets(b, &target)).into_iter().collect();
    nodes.sort();
    assert_eq!(nodes, vec![0, 1, 2, 3, 4]);
}

#[test]
fn intersecting_nodes_outside_the_tree() {
    let t = tree(2);
    let target: Rect = (1000, 1000, 1010, 1010);
    assert!(t.intersecting_nodes(&|b: &Rect| meets(b, &target)).is_empty());
    assert_eq!(t.smallest_node(&|b: &Rect| meets(b, &target)), 0);
}

#[test]
fn candidates_skip_the_query_itself() {
    let placed_ids = vec![10, 11, 12];
    let placed_nodes = vec![vec![1], vec![1], vec![2]];
    let query_ids = vec![10, 12];
    let query_nodes = vec![vec![0, 1], vec![2, 1]];
    let r = collision_candidates(&placed_ids, &placed_nodes, &query_ids, &query_nodes);
    assert_eq!(r, vec![vec![1], vec![0, 1]]);
}

#[test]
fn candidates_follow_node_order_and_repeat_across_nodes() {
    let placed_ids = vec![1, 2];
    let placed_nodes = vec![vec![3, 4], vec![4]];
    let query_ids = vec![9];
    let query_nodes = vec![vec![4, 3, 5]];
    let r = collision_candidates(&placed_ids, &placed_nodes, &query_ids, &query_nodes);
    assert_eq!(r, vec![vec![0, 1, 0]]);
}

#[test]
fn home_node_is_among_the_met_nodes() {
    let t = tree(3);
    for target in [
        (-500, -380, -490, -370),
        (-10, -10, 10, 10),
        (100, 100, 140, 120),
        (-256, 0, -250, 10),
    ] {
        let hit = |b: &Rect| meets(b, &target);
        let home = t.smallest_node(&hit);
        assert!(t.intersecting_nodes(&hit).contains(&home));
    }
}

#[test]
fn intersecting_nodes_are_all_nodes_met() {
    let t = tree(2);
    let mut regions: Vec<Rect> = vec![(-512, -384, 512, 384)];
    let mut i = 0;
    while regions.len() < t.len() {
        let (a, b, c, d) = quadrants(&regions[i]);
        regions.push(a);
        regions.push(b);
        regions.push(c);
        regions.push(d);
        i += 1;
    }
    for target in [(-300, -300, -290, -290), (-10, -10, 10, 10), (500, 370, 600, 400), (600, 0, 700, 10)] {
        let hit = |b: &Rect| meets(b, &target);
        let mut found: Vec<usize> = t.intersecting_nodes(&hit).into_iter().collect();
        found.sort();
        let expected: Vec<usize> = (0..t.len()).filter(|n| meets(&regions[*n], &target)).collect();
        assert_eq!(found, expected);
    }
}
