use ray_tracer::aabb::Aabb;
use ray_tracer::bvh::{linear_hit, BvhNode, BvhTree};
use ray_tracer::ordkey::{bits_from_key, key_from_bits};

fn key(x: f64) -> u64 {
    key_from_bits(x.to_bits())
}

fn val(k: u64) -> f64 {
    f64::from_bits(bits_from_key(k))
}

#[derive(Clone, Copy)]
struct Ray {
    o: [f64; 3],
    d: [f64; 3],
}

#[derive(Clone, Copy)]
enum Shape {
    Sphere([f64; 3], f64),
    Triangle([[f64; 3]; 3]),
}

fn sub(a: [f64; 3], b: [f64; 3]) -> [f64; 3] {
    [a[0] - b[0], a[1] - b[1], a[2] - b[2]]
}

fn dot(a: [f64; 3], b: [f64; 3]) -> f64 {
    a[0] * b[0] + a[1] * b[1] + a[2] * b[2]
}

fn cross(a: [f64; 3], b: [f64; 3]) -> [f64; 3] {
    [a[1] * b[2] - a[2] * b[1], a[2] * b[0] - a[0] * b[2], a[0] * b[1] - a[1] * b[0]]
}

fn shape_hit(s: &Shape, r: &Ray, t_min: f64, t_max: f64) -> Option<(f64, [f64; 3])> {
    match *s {
        Shape::Sphere(c, radius) => {
            let oc = sub(r.o, c);
            let a = dot(r.d, r.d);
            let half_b = dot(oc, r.d);
            let cc = dot(oc, oc) - radius * radius;
            let disc = half_b * half_b - a * cc;
            if disc < 0.0 {
                return None;
            }
            let sq = disc.sqrt();
            let mut root = (-half_b - sq) / a;
            if root < t_min || t_max < root {
                root = (-half_b + sq) / a;
                if root < t_min || t_max < root {
                    return None;
                }
            }
            let p = [r.o[0] + root * r.d[0], r.o[1] + root * r.d[1], r.o[2] + root * r.d[2]];
            let n = [(p[0] - c[0]) / radius, (p[1] - c[1]) / radius, (p[2] - c[2]) / radius];
            Some((root, n))
        }
        Shape::Triangle(v) => {
            let e1 = sub(v[1], v[0]);
            let e2 = sub(v[2], v[0]);
            let p = cross(r.d, e2);
            let det = dot(e1, p);
            if det == 0.0 {
                return None;
            }
            let s0 = sub(r.o, v[0]);
            let u = dot(s0, p) / det;
            let q = cross(s0, e1);
            let w = dot(r.d, q) / det;
            if u < 0.0 || w < 0.0 || u + w > 1.0 {
                return None;
            }
            let t = dot(e2, q) / det;
            if t < t_min || t > t_max {
                return None;
            }
            Some((t, cross(e1, e2)))
        }
    }
}

fn padded(mut lo: [f64; 3], mut hi: [f64; 3]) -> Aabb {
    for a in 0..3 {
        if lo[a] == hi[a] {
            lo[a] -= 0.0001;
            hi[a] += 0.0001;
        }
    }
    Aabb::new([key(lo[0]), key(lo[1]), key(lo[2])], [key(hi[0]), key(hi[1]), key(hi[2])])
}

fn shape_box(s: &Shape) -> Aabb {
    match *s {
        Shape::Sphere(c, r) => padded([c[0] - r, c[1] - r, c[2] - r], [c[0] + r, c[1] + r, c[2] + r]),
        Shape::Triangle(v) => {
            let mut lo = v[0];
            let mut hi = v[0];
            for p in v.iter() {
                for a in 0..3 {
                    lo[a] = lo[a].min(p[a]);
                    hi[a] = hi[a].max(p[a]);
                }
            }
            padded(lo, hi)
        }
    }
}

fn centroid(b: &Aabb) -> [u64; 3] {
    let (lo, hi) = (b.min(), b.max());
    let mut c = [0u64; 3];
    for a in 0..3 {
        c[a] = key(val(lo[a]) + (val(hi[a]) - val(lo[a])) / 2.0);
    }
    c
}

fn box_hit(b: &Aabb, r: &Ray, mut t_min: f64, mut t_max: f64) -> bool {
    for a in 0..3 {
        let tx0 = (val(b.min()[a]) - r.o[a]) / r.d[a];
        let tx1 = (val(b.max()[a]) - r.o[a]) / r.d[a];
        t_min = tx0.min(tx1).max(t_min);
        t_max = tx0.max(tx1).min(t_max);
        if t_max <= t_min {
            return false;
        }
    }
    true
}

fn wider(lo_a: u64, hi_a: u64, lo_b: u64, hi_b: u64) -> bool {
    val(hi_a) - val(lo_a) > val(hi_b) - val(lo_b)
}

fn build(shapes: &[Shape]) -> Option<BvhTree> {
    let boxes: Vec<Option<Aabb>> = shapes.iter().map(|s| Some(shape_box(s))).collect();
    let cents: Vec<[u64; 3]> = shapes.iter().map(|s| centroid(&shape_box(s))).collect();
    if shapes.is_empty() {
        return None;
    }
    Some(BvhTree::new(&boxes, &cents, &wider))
}

fn trace(tree: &BvhTree, shapes: &[Shape], r: Ray, t_min: f64, t_max: f64) -> (usize, Option<(usize, f64)>) {
    let bh = |b: Aabb| box_hit(&b, &r, t_min, t_max);
    let ph = |p: usize| shape_hit(&shapes[p], &r, t_min, t_max).map(|(t, n)| (key(t), n));
    let (count, h) = tree.hit_debug(&bh, &ph);
    (count, h.map(|(p, t, _)| (p, val(t))))
}

fn scan(shapes: &[Shape], r: Ray, t_min: f64, t_max: f64) -> Option<(usize, f64)> {
    let ph = |p: usize| shape_hit(&shapes[p], &r, t_min, t_max).map(|(t, n)| (key(t), n));
    linear_hit(shapes.len(), &ph).map(|(p, t, _)| (p, val(t)))
}

fn row_of_spheres() -> Vec<Shape> {
    (1..100).map(|i| Shape::Sphere([i as f64, 0.0, 0.0], 5.0)).collect()
}

fn ray(o: [f64; 3], d: [f64; 3]) -> Ray {
    Ray { o, d }
}

fn leaves(tree: &BvhTree, i: usize) -> Vec<usize> {
    match tree.node(i) {
        BvhNode::Root(l) => vec![l.prim],
        BvhNode::Branch(b) => {
            let mut v = leaves(tree, b.left);
            v.extend(leaves(tree, b.right));
            v
        }
    }
}

#[test]
fn branches_split_sorted_primitives_at_the_median() {
    // along x, out of order; y and z spans are narrower
    let xs = [4.0, 0.0, 9.0, 2.0, 7.0];
    let shapes: Vec<Shape> = xs.iter().map(|&x| Shape::Sphere([x * 10.0, 0.0, 0.0], 1.0)).collect();
    let tree = build(&shapes).unwrap();
    assert_eq!(tree.len(), 9);
    let root = tree.len() - 1;
    match tree.node(root) {
        BvhNode::Branch(b) => {
            let mut left = leaves(&tree, b.left);
            left.sort();
            let mut right = leaves(&tree, b.right);
            right.sort();
            assert_eq!(left, vec![1, 3]);
            assert_eq!(right, vec![0, 2, 4]);
        }
        BvhNode::Root(_) => panic!("five primitives make a branch"),
    }
}

#[test]
fn single_primitive_makes_a_leaf() {
    let shapes = [Shape::Sphere([0.0, 0.0, 0.0], 1.0)];
    let tree = build(&shapes).unwrap();
    assert_eq!(tree.len(), 1);
    assert!(matches!(tree.node(0), BvhNode::Root(l) if l.prim == 0));
}

#[test]
fn test_bvhnode_hit() {
    let r = ray([-10.0, 0.0, 0.0], [1.0, 0.0, 0.0]);
    let (t_min, t_max) = (0.0, 100.0);

    // Case 1: no intersections
    let mut list: Vec<Shape> = (1..100).map(|_| Shape::Sphere([0.0, -10.0, 0.0], 5.0)).collect();
    let bvh = build(&list).unwrap();
    assert!(trace(&bvh, &list, r, t_min, t_max).1.is_none());

    // Case 2: single intersection
    list.push(Shape::Sphere([0.0, 0.0, 0.0], 5.0));
    let bvh = build(&list).unwrap();
    let hit = trace(&bvh, &list, r, t_min, t_max).1;
    assert!(hit.is_some());
    assert_eq!(hit.unwrap().1, 5.0);

    // Case 3: two intersections
    list.push(Shape::Sphere([-2.0, 0.0, 0.0], 5.0));
    let bvh = build(&list).unwrap();
    let hit = trace(&bvh, &list, r, t_min, t_max).1;
    assert!(hit.is_some());
    assert_eq!(hit.unwrap().1, 3.0);
}

#[test]
fn test_bvhnode_hit_debug() {
    let (t_min, t_max) = (0.0, 1000.0);
    let list = row_of_spheres();
    let bvh = build(&list).unwrap();

    // Case 1: ray misses the bounding box entirely
    let hit = trace(&bvh, &list, ray([-10.0, -10.0, 0.0], [1.0, 0.0, 0.0]), t_min, t_max);
    assert_eq!(hit.0, 0);
    assert!(hit.1.is_none());

    // Case 2: ray misses the sphere boxes
    let hit = trace(&bvh, &list, ray([1.0, -10.0, 6.0], [0.0, 1.0, 0.0]), t_min, t_max);
    assert_eq!(hit.0, 0);
    assert!(hit.1.is_none());

    // Case 3: ray passes beside the boxes
    let hit = trace(&bvh, &list, ray([-10.0, 6.0, 0.0], [1.0, 0.0, 0.0]), t_min, t_max);
    assert_eq!(hit.0, 0);
    assert!(hit.1.is_none());

    // Case 4: ray hits all spheres
    let hit = trace(&bvh, &list, ray([-10.0, 0.0, 0.0], [1.0, 0.0, 0.0]), t_min, t_max);
    assert_eq!(hit.0, 99);
    assert!(hit.1.is_some());

    // Case 5: ray crosses a few boxes and spheres
    let hit = trace(&bvh, &list, ray([20.0, -10.0, 4.0], [0.0, 1.0, 0.0]), t_min, t_max);
    assert_eq!(hit.0, 9);
    assert!(hit.1.is_some());

    // Case 6: ray hits one triangle
    let tris: Vec<Shape> = (1..100)
        .map(|i| {
            let v1 = [i as f64, 0.0, 0.0];
            let v2 = [(i + 1) as f64, 0.0, 0.0];
            let v3 = [i as f64 + 0.5, 0.0, 10.0];
            Shape::Triangle([v1, v2, v3])
        })
        .collect();
    let bvh = build(&tris).unwrap();
    let hit = trace(&bvh, &tris, ray([1.5, -10.0, 4.0], [0.0, 1.0, 0.0]), t_min, t_max);
    assert_eq!(hit.0, 1);
    assert!(hit.1.is_some());
}

#[test]
fn sphere_at_origin_hit_from_the_left() {
    let r = ray([-10.0, 0.0, 0.0], [1.0, 0.0, 0.0]);
    for (radius, t) in [(5.0, 5.0), (1.0, 9.0)] {
        let shapes = [Shape::Sphere([0.0, 0.0, 0.0], radius)];
        let bvh = build(&shapes).unwrap();
        let hit = trace(&bvh, &shapes, r, 0.001, f64::INFINITY).1.unwrap();
        assert_eq!(hit, (0, t));
        let n = shape_hit(&shapes[0], &r, 0.001, f64::INFINITY).unwrap().1;
        assert_eq!(n, [-1.0, 0.0, 0.0]);
        assert!(dot(r.d, n) <= 0.0);
    }
}

#[test]
fn nearest_hit_regardless_of_insertion_order() {
    let near = Shape::Sphere([0.0, 0.0, 0.0], 2.0);
    let far = Shape::Sphere([2.0, 0.0, 0.0], 2.0);
    let r = ray([-10.0, 0.0, 0.0], [1.0, 0.0, 0.0]);
    for shapes in [[far, near], [near, far]] {
        let bvh = build(&shapes).unwrap();
        assert_eq!(trace(&bvh, &shapes, r, 0.0, 100.0).1.unwrap().1, 8.0);
        assert_eq!(scan(&shapes, r, 0.0, 100.0).unwrap().1, 8.0);
    }
}

#[test]
fn ray_through_every_box_but_no_sphere_is_missed() {
    let list = row_of_spheres();
    let bvh = build(&list).unwrap();
    let r = ray([-10.0, 4.5, 4.5], [1.0, 0.0, 0.0]);
    let hit = trace(&bvh, &list, r, 0.0, 1000.0);
    assert!(hit.1.is_none());
    assert!(scan(&list, r, 0.0, 1000.0).is_none());
    // every leaf box is crossed, so every leaf is tested
    assert_eq!(hit.0, 99);
}

#[test]
fn scan_keeps_the_later_of_equal_hits() {
    let s = Shape::Sphere([0.0, 0.0, 0.0], 1.0);
    let r = ray([-10.0, 0.0, 0.0], [1.0, 0.0, 0.0]);
    assert_eq!(scan(&[s, s, s], r, 0.0, 100.0), Some((2, 9.0)));
    let bvh = build(&[s, s, s]).unwrap();
    assert_eq!(trace(&bvh, &[s, s, s], r, 0.0, 100.0).1.unwrap().1, 9.0);
}

#[test]
fn hierarchy_matches_linear_scan_on_random_scenes() {
    let mut rng = fastrand::Rng::with_seed(7);
    for _ in 0..40 {
        let n = rng.usize(1..60);
        let shapes: Vec<Shape> = (0..n)
            .map(|_| {
                let c = [rng.f64() * 40.0 - 20.0, rng.f64() * 40.0 - 20.0, rng.f64() * 40.0 - 20.0];
                Shape::Sphere(c, 0.5 + rng.f64() * 4.0)
            })
            .collect();
        let bvh = build(&shapes).unwrap();
        for _ in 0..40 {
            let o = [rng.f64() * 60.0 - 30.0, rng.f64() * 60.0 - 30.0, rng.f64() * 60.0 - 30.0];
            let d = [rng.f64() * 2.0 - 1.0, rng.f64() * 2.0 - 1.0, rng.f64() * 2.0 - 1.0];
            let r = ray(o, d);
            let a = trace(&bvh, &shapes, r, 0.001, f64::INFINITY).1.map(|h| h.1);
            let b = scan(&shapes, r, 0.001, f64::INFINITY).map(|h| h.1);
            assert_eq!(a, b);
        }
    }
}

#[test]
fn every_branch_box_is_the_union_of_its_children() {
    let mut rng = fastrand::Rng::with_seed(11);
    let shapes: Vec<Shape> = (0..77)
        .map(|_| Shape::Sphere([rng.f64() * 10.0, rng.f64() * 10.0, rng.f64() * 10.0], 0.1 + rng.f64()))
        .collect();
    let bvh = build(&shapes).unwrap();
    assert_eq!(bvh.len(), 2 * 77 - 1);
    let bb = |n: BvhNode| match n {
        BvhNode::Branch(b) => b.bb,
        BvhNode::Root(l) => l.bb,
    };
    let mut leaves = vec![false; 77];
    for i in 0..bvh.len() {
        match bvh.node(i) {
            BvhNode::Branch(b) => {
                let (l, r) = (bb(bvh.node(b.left)), bb(bvh.node(b.right)));
                for a in 0..3 {
                    assert_eq!(b.bb.min()[a], l.min()[a].min(r.min()[a]));
                    assert_eq!(b.bb.max()[a], l.max()[a].max(r.max()[a]));
                }
            }
            BvhNode::Root(l) => {
                assert_eq!(l.bb.min(), shape_box(&shapes[l.prim]).min());
                leaves[l.prim] = true;
            }
        }
    }
    assert!(leaves.iter().all(|x| *x));
}
