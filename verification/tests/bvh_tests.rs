use pathtracer::bounding_volume_hierarchy::{
    bucket_counts, partition_level, split_counts, BVHNode, MIN_PRIMITIVES, N_BUCKETS,
};

#[derive(Clone, Copy, Debug)]
struct Ball {
    center: [f64; 3],
    r: f64,
}

type Aabb = ([f64; 3], [f64; 3]);

const EMPTY: Aabb = ([f64::MAX; 3], [f64::MIN; 3]);

fn ball_box(b: &Ball) -> Aabb {
    (
        [b.center[0] - b.r, b.center[1] - b.r, b.center[2] - b.r],
        [b.center[0] + b.r, b.center[1] + b.r, b.center[2] + b.r],
    )
}

fn union(a: Aabb, b: Aabb) -> Aabb {
    let mut r = a;
    for i in 0..3 {
        r.0[i] = a.0[i].min(b.0[i]);
        r.1[i] = a.1[i].max(b.1[i]);
    }
    r
}

fn centroid(b: &Aabb) -> [f64; 3] {
    [(b.0[0] + b.1[0]) / 2.0, (b.0[1] + b.1[1]) / 2.0, (b.0[2] + b.1[2]) / 2.0]
}

struct Ray {
    origin: [f64; 3],
    direction: [f64; 3],
}

fn dot(a: [f64; 3], b: [f64; 3]) -> f64 {
    a[0] * b[0] + a[1] * b[1] + a[2] * b[2]
}

fn sub(a: [f64; 3], b: [f64; 3]) -> [f64; 3] {
    [a[0] - b[0], a[1] - b[1], a[2] - b[2]]
}

fn ball_hit(ray: &Ray, b: &Ball) -> Option<f64> {
    let o = sub(ray.origin, b.center);
    let a = dot(ray.direction, ray.direction);
    let bb = 2.0 * dot(o, ray.direction);
    let c = dot(o, o) - b.r * b.r;
    let disc = bb * bb - 4.0 * a * c;
    if disc < 0.0 {
        return None;
    }
    let t1 = (-bb - disc.sqrt()) / (2.0 * a);
    let t2 = (-bb + disc.sqrt()) / (2.0 * a);
    let t = if t1 > 0.001 { t1 } else { t2 };
    if t > 0.001 { Some(t) } else { None }
}

fn box_hit(ray: &Ray, b: &Aabb) -> bool {
    let mut t_min: f64 = 0.0;
    let mut t_max: f64 = f64::MAX;
    for i in 0..3 {
        let a = (b.0[i] - ray.origin[i]) / ray.direction[i];
        let c = (b.1[i] - ray.origin[i]) / ray.direction[i];
        t_min = t_min.max(a.min(c));
        t_max = t_max.min(a.max(c));
    }
    t_min <= t_max
}

fn build<'a>(balls: &'a Vec<Ball>) -> BVHNode<'a, Ball, Aabb> {
    let split = |level: &Vec<usize>| {
        let mut bounds = EMPTY;
        for i in level {
            let c = centroid(&ball_box(&balls[*i]));
            bounds = union(bounds, (c, c));
        }
        let ext: Vec<f64> = (0..3).map(|k| bounds.1[k] - bounds.0[k]).collect();
        let dim = if ext[0] >= ext[1] && ext[0] >= ext[2] { 0 } else if ext[1] >= ext[2] { 1 } else { 2 };
        ((bounds, dim), (N_BUCKETS / 2) as i32)
    };
    let key = |ctx: &(Aabb, usize), i: usize| {
        let (bounds, dim) = ctx;
        let c = centroid(&ball_box(&balls[i]));
        let off = (c[*dim] - bounds.0[*dim]) / (bounds.1[*dim] - bounds.0[*dim] + 1e-10);
        let v = (off * N_BUCKETS as f64).floor();
        if v.is_nan() { None } else { Some(v as i64) }
    };
    let bounds = |list: &Vec<usize>| {
        let mut b = EMPTY;
        for i in list {
            b = union(b, ball_box(&balls[*i]));
        }
        b
    };
    BVHNode::create(balls, EMPTY, &split, &key, &bounds)
}

fn leaves(n: &BVHNode<Ball, Aabb>) -> Vec<usize> {
    if n.is_terminal() {
        return n.primitives_at_level().clone();
    }
    let mut v = vec![];
    if let Some(l) = n.left() {
        v.extend(leaves(l));
    }
    if let Some(r) = n.right() {
        v.extend(leaves(r));
    }
    v
}

#[test]
fn check_sphere_intersection() {
    let balls = vec![Ball { center: [0.0, 1.0, 0.0], r: 1.0 }];
    let mut bvh = build(&balls);
    let origin = [0.0, 10.0, 0.0];
    let d = sub(balls[0].center, origin);
    let len = dot(d, d).sqrt();
    let ray = Ray { origin, direction: [d[0] / len, d[1] / len, d[2] / len] };
    let found = bvh.intersection(&|b: &Ball| ball_hit(&ray, b), &|bx: &Aabb| box_hit(&ray, bx));
    assert!(found.is_some());
    assert_eq!(bvh.cached_primitive(), Some(0));
}

fn grid_of_balls() -> Vec<Ball> {
    let mut balls = vec![];
    for x in 0..6 {
        for y in 0..5 {
            balls.push(Ball { center: [x as f64 * 3.0, y as f64 * 3.0, (x * y) as f64], r: 1.0 });
        }
    }
    balls
}

#[test]
fn bvh_leaves_hold_every_primitive_once() {
    let balls = grid_of_balls();
    let bvh = build(&balls);
    assert!(!bvh.is_terminal());
    let mut l = leaves(&bvh);
    l.sort();
    assert_eq!(l, (0..balls.len()).collect::<Vec<_>>());
}

#[test]
fn bvh_small_scene_is_a_single_leaf() {
    let balls: Vec<Ball> = grid_of_balls().into_iter().take(MIN_PRIMITIVES).collect();
    let bvh = build(&balls);
    assert!(bvh.is_terminal());
    assert_eq!(bvh.primitives_at_level(), &vec![0, 1, 2, 3, 4]);
    assert!(bvh.left().is_none() && bvh.right().is_none());
}

#[test]
fn bvh_finds_same_nearest_hit_as_brute_force() {
    let balls = grid_of_balls();
    let mut bvh = build(&balls);
    let rays = vec![
        Ray { origin: [-10.0, 1.0, 0.5], direction: [1.0, 0.05, 0.01] },
        Ray { origin: [7.5, 7.5, 50.0], direction: [0.01, 0.02, -1.0] },
        Ray { origin: [100.0, 100.0, 100.0], direction: [1.0, 0.001, 0.002] },
        Ray { origin: [3.1, -20.0, 2.3], direction: [0.001, 1.0, 0.002] },
        Ray { origin: [1.5, 4.5, -30.0], direction: [0.01, -0.02, 1.0] },
    ];
    for ray in &rays {
        let brute = balls
            .iter()
            .filter_map(|b| ball_hit(ray, b))
            .fold(None, |m: Option<f64>, t| Some(m.map_or(t, |m| m.min(t))));
        let found = bvh.intersection(&|b: &Ball| ball_hit(ray, b), &|bx: &Aabb| box_hit(ray, bx));
        assert_eq!(found, brute);
        if let Some(t) = found {
            let p = bvh.cached_primitive_ref().unwrap();
            assert_eq!(ball_hit(ray, p), Some(t));
        }
    }
}

#[test]
fn bvh_remembers_previous_hit() {
    let balls = grid_of_balls();
    let mut bvh = build(&balls);
    let r1 = Ray { origin: [-10.0, 0.0, 0.0], direction: [1.0, 0.0, 0.0] };
    let r2 = Ray { origin: [-10.0, 12.0, 0.0], direction: [1.0, 0.0, 0.0] };
    bvh.intersection(&|b: &Ball| ball_hit(&r1, b), &|bx: &Aabb| box_hit(&r1, bx));
    let first = bvh.cached_primitive();
    assert_eq!(first, Some(0));
    let (_, second, _) = bvh.intersection_helper(&|b: &Ball| ball_hit(&r2, b), &|bx: &Aabb| box_hit(&r2, bx));
    assert_eq!(bvh.cached_primitive_old(), first);
    assert_eq!(second, Some(4));
    assert_eq!(bvh.cached_primitive(), Some(4));
}

#[test]
fn partition_level_splits_by_key() {
    let level = vec![7usize, 3, 9, 1, 4];
    let keys = vec![Some(0i64), Some(8), None, Some(5), Some(6)];
    let (l, r) = partition_level(&level, &keys, 5);
    assert_eq!(l, vec![7, 1]);
    assert_eq!(r, vec![3, 4]);
}

#[test]
fn partition_level_sides_cover_keyed_primitives() {
    let level: Vec<usize> = (0..20).collect();
    let keys: Vec<Option<i64>> = (0..20).map(|i| Some((i * 7 % 13) as i64)).collect();
    let (l, r) = partition_level(&level, &keys, 6);
    let mut both = l.clone();
    both.extend(r.iter());
    both.sort();
    assert_eq!(both, level);
}

#[test]
fn partition_level_with_split_below_every_key_sends_all_right() {
    let level = vec![1usize, 2, 3];
    let keys = vec![Some(0i64), Some(4), Some(11)];
    let (l, r) = partition_level(&level, &keys, -1);
    assert!(l.is_empty());
    assert_eq!(r, level);
}

#[test]
fn bucket_counts_clamps_last_bucket() {
    let keys = vec![0, 3, 3, 11, 12, 40];
    let counts = bucket_counts(&keys, N_BUCKETS);
    assert_eq!(counts, vec![1, 0, 0, 2, 0, 0, 0, 0, 0, 0, 0, 3]);
}

#[test]
fn split_counts_prefix_and_suffix() {
    let counts = vec![1, 0, 2, 3];
    assert_eq!(split_counts(&counts), vec![(1, 5), (1, 5), (3, 3), (6, 0)]);
}


#[test]
fn split_sides_always_add_up_to_the_level() {
    let keys = vec![0, 1, 1, 4, 7, 7, 7, 11, 11, 30, 2, 5, 9];
    let counts = bucket_counts(&keys, N_BUCKETS);
    assert_eq!(counts.iter().sum::<i32>(), keys.len() as i32);
    for (left, right) in split_counts(&counts) {
        assert_eq!(left + right, keys.len() as i32);
    }
}

#[test]
fn bvh_traversal_counts_leaf_tests() {
    let balls: Vec<Ball> = grid_of_balls().into_iter().take(3).collect();
    let mut bvh = build(&balls);
    let ray = Ray { origin: [-10.0, 0.1, 0.2], direction: [1.0, 0.001, 0.002] };
    let (hit, idx, count) = bvh.intersection_helper(&|b: &Ball| ball_hit(&ray, b), &|bx: &Aabb| box_hit(&ray, bx));
    assert!(hit.is_some());
    assert_eq!(idx, Some(0));
    assert_eq!(count, 3);
}

#[test]
fn duplicate_keeps_the_tree_and_its_memory() {
    let balls = grid_of_balls();
    let mut bvh = build(&balls);
    let ray = Ray { origin: [-10.0, 0.1, 0.2], direction: [1.0, 0.001, 0.002] };
    bvh.intersection(&|b: &Ball| ball_hit(&ray, b), &|bx: &Aabb| box_hit(&ray, bx));
    let copy = bvh.duplicate();
    assert_eq!(copy.cached_primitive(), bvh.cached_primitive());
    let mut a = leaves(&copy);
    let mut b = leaves(&bvh);
    a.sort();
    b.sort();
    assert_eq!(a, b);
}

/// Six primitives along a line, at 0, 10, .., 50; each one's box spans
/// [10 i, 10 i + 1]. The split keeps the level and splits after bucket 2; the
/// key of primitive `i` is `i`.
fn line_of_six() -> Vec<i64> {
    (0..6).map(|i| 10 * i).collect()
}

type Span = (i64, i64);

fn build_line<'a>(xs: &'a Vec<i64>) -> BVHNode<'a, i64, Span> {
    let split = |_level: &Vec<usize>| ((), 2i32);
    let key = |_ctx: &(), i: usize| Some(i as i64);
    let bounds = |list: &Vec<usize>| {
        let mut b: Span = (i64::MAX, i64::MIN);
        for i in list {
            b = (b.0.min(xs[*i]), b.1.max(xs[*i] + 1));
        }
        b
    };
    BVHNode::create(xs, (i64::MAX, i64::MIN), &split, &key, &bounds)
}

#[test]
fn bvh_splits_at_the_chosen_bucket() {
    let xs = line_of_six();
    let bvh = build_line(&xs);
    assert!(!bvh.is_terminal());
    assert!(bvh.primitives_at_level().is_empty());
    let l = bvh.left().unwrap();
    let r = bvh.right().unwrap();
    assert!(l.is_terminal() && r.is_terminal());
    assert_eq!(l.primitives_at_level(), &vec![0, 1, 2]);
    assert_eq!(r.primitives_at_level(), &vec![3, 4, 5]);
    assert_eq!(*bvh.left_bounding_box(), (0, 21));
    assert_eq!(*bvh.right_bounding_box(), (30, 51));
    assert_eq!(*l.left_bounding_box(), (i64::MAX, i64::MIN));
}

#[test]
fn bvh_split_taking_everything_makes_a_leaf() {
    let xs = line_of_six();
    let split = |_level: &Vec<usize>| ((), 11i32);
    let key = |_ctx: &(), i: usize| Some(i as i64);
    let bounds = |_list: &Vec<usize>| (0i64, 0i64);
    let bvh = BVHNode::create(&xs, (-1, -1), &split, &key, &bounds);
    assert!(bvh.is_terminal());
    assert_eq!(bvh.primitives_at_level(), &vec![0, 1, 2, 3, 4, 5]);
    assert!(bvh.left().is_none() && bvh.right().is_none());
}

#[test]
fn bvh_query_changes_only_remembered_hits() {
    let xs = line_of_six();
    let mut bvh = build_line(&xs);
    let before = (*bvh.left_bounding_box(), *bvh.right_bounding_box());
    let hit = |x: &i64| if *x == 40 { Some(*x) } else { None };
    let found = bvh.intersection(&hit, &|_b: &Span| true);
    assert_eq!(found, Some(40));
    assert_eq!(bvh.cached_primitive(), Some(4));
    assert_eq!((*bvh.left_bounding_box(), *bvh.right_bounding_box()), before);
    assert_eq!(bvh.left().unwrap().primitives_at_level(), &vec![0, 1, 2]);
    assert_eq!(bvh.right().unwrap().primitives_at_level(), &vec![3, 4, 5]);
}

#[test]
fn bvh_miss_remembers_last_primitive_tried() {
    let xs = line_of_six();
    let mut bvh = build_line(&xs);
    let (found, idx, count) = bvh.intersection_helper(&|_x: &i64| None::<i64>, &|_b: &Span| true);
    assert_eq!(found, None);
    assert_eq!(idx, Some(5));
    assert_eq!(count, 2 + 6 + 6);
    let (found, idx, count) = bvh.intersection_helper(&|_x: &i64| None::<i64>, &|b: &Span| b.0 == 0);
    assert_eq!(found, None);
    assert_eq!(idx, Some(2));
    assert_eq!(count, 2 + 6);
    let (found, idx, count) = bvh.intersection_helper(&|_x: &i64| None::<i64>, &|_b: &Span| false);
    assert_eq!(found, None);
    assert_eq!(idx, None);
    assert_eq!(count, 2);
}

#[test]
fn bvh_single_primitive_hit_is_found() {
    let xs = vec![7i64];
    let mut bvh = build_line(&xs);
    assert!(bvh.is_terminal());
    let found = bvh.intersection(&|x: &i64| Some(*x + 1), &|_b: &Span| false);
    assert_eq!(found, Some(8));
    assert_eq!(bvh.cached_primitive(), Some(0));
}

fn depth(n: &BVHNode<Ball, Aabb>) -> usize {
    let l = n.left().map_or(0, |c| 1 + depth(c));
    let r = n.right().map_or(0, |c| 1 + depth(c));
    l.max(r)
}

#[test]
fn bvh_is_never_deeper_than_the_scene_is_large() {
    let balls = grid_of_balls();
    let bvh = build(&balls);
    let d = depth(&bvh);
    assert!(d >= 1);
    assert!(d <= balls.len());
}

fn well_shaped(n: &BVHNode<Ball, Aabb>) -> bool {
    if n.is_terminal() {
        n.left().is_none() && n.right().is_none()
    } else {
        n.primitives_at_level().is_empty()
            && n.left().map_or(false, well_shaped)
            && n.right().map_or(false, well_shaped)
    }
}

#[test]
fn bvh_every_node_is_well_shaped() {
    let balls = grid_of_balls();
    let bvh = build(&balls);
    assert!(well_shaped(&bvh));
}
