use ray_tracer::aabb::{union_all, Aabb};
use ray_tracer::bvh::{get_largest_extent, linear_hit, measure_extent, sort_by_axis};
use ray_tracer::ordkey::{bits_from_key, key_from_bits};

fn key(x: f64) -> u64 {
    key_from_bits(x.to_bits())
}

fn val(k: u64) -> f64 {
    f64::from_bits(bits_from_key(k))
}

fn sphere_box(c: [f64; 3], r: f64) -> Aabb {
    Aabb::new([key(c[0] - r), key(c[1] - r), key(c[2] - r)], [key(c[0] + r), key(c[1] + r), key(c[2] + r)])
}

fn centroid(b: &Aabb) -> [u64; 3] {
    let (lo, hi) = (b.min(), b.max());
    [0, 1, 2].map(|a| key(val(lo[a]) + (val(hi[a]) - val(lo[a])) / 2.0))
}

fn wider(lo_a: u64, hi_a: u64, lo_b: u64, hi_b: u64) -> bool {
    val(hi_a) - val(lo_a) > val(hi_b) - val(lo_b)
}

/// The distance at which a ray from (-10,0,0) along +x first meets a sphere
/// centred on the x axis, within [t_min, t_max].
fn axis_sphere_hit(cx: f64, cy: f64, r: f64, t_min: f64, t_max: f64) -> Option<(u64, ())> {
    let oc = [-10.0 - cx, -cy, 0.0];
    let half_b = oc[0];
    let c = oc[0] * oc[0] + oc[1] * oc[1] - r * r;
    let disc = half_b * half_b - c;
    if disc < 0.0 {
        return None;
    }
    let sq = disc.sqrt();
    for root in [-half_b - sq, -half_b + sq] {
        if root >= t_min && root <= t_max {
            return Some((key(root), ()));
        }
    }
    None
}

#[test]
fn traceable_test_hit() {
    let (t_min, t_max) = (0.0, 100.0);
    let mut list: Vec<(f64, f64)> = Vec::new();

    // Case 1: no intersections
    list.push((0.0, -10.0));
    let hit = linear_hit(list.len(), &|p: usize| axis_sphere_hit(list[p].0, list[p].1, 5.0, t_min, t_max));
    assert!(hit.is_none());

    // Case 2: one intersection
    list.push((0.0, 0.0));
    let hit = linear_hit(list.len(), &|p: usize| axis_sphere_hit(list[p].0, list[p].1, 5.0, t_min, t_max));
    assert!(hit.is_some());
    assert_eq!(val(hit.unwrap().1), 5.0);

    // Case 3: two intersections
    list.push((-2.0, 0.0));
    let hit = linear_hit(list.len(), &|p: usize| axis_sphere_hit(list[p].0, list[p].1, 5.0, t_min, t_max));
    assert!(hit.is_some());
    assert_eq!(val(hit.unwrap().1), 3.0);
    assert_eq!(hit.unwrap().0, 2);
}

#[test]
fn test_sort_by() {
    let boxes: Vec<Option<Aabb>> =
        (0..101).map(|i| Some(sphere_box([500.0 - 5.0 * (i as f64), 0.0, 0.0], 1.0))).collect();
    let items: Vec<usize> = (0..101).collect();
    let sorted = sort_by_axis(&items, &boxes, 0);
    for i in 0..101 {
        let b = boxes[sorted[i]].unwrap();
        assert_eq!(val(b.min()[0]) + 1.0, 5.0 * (i as f64));
    }
}

#[test]
fn sort_keeps_the_order_of_equal_keys() {
    let b = Some(sphere_box([0.0, 0.0, 0.0], 1.0));
    let c = Some(sphere_box([-3.0, 0.0, 0.0], 1.0));
    let boxes = vec![b, c, b, c, b];
    assert_eq!(sort_by_axis(&vec![0, 1, 2, 3, 4], &boxes, 0), vec![1, 3, 0, 2, 4]);
    assert_eq!(sort_by_axis(&vec![4, 2, 0], &boxes, 1), vec![4, 2, 0]);
}

#[test]
fn test_largest_extent() {
    let mut boxes: Vec<Aabb> = Vec::new();
    let cents = |bs: &Vec<Aabb>| bs.iter().map(centroid).collect::<Vec<_>>();
    let items: Vec<usize> = Vec::new();
    assert!(get_largest_extent(&items, &cents(&boxes), &wider).is_none());

    boxes.push(sphere_box([0.0, 0.0, 0.0], 5.0));
    boxes.push(sphere_box([-2.0, -10.0, 3.0], 5.0));
    let items: Vec<usize> = vec![0, 1];
    assert_eq!(get_largest_extent(&items, &cents(&boxes), &wider).unwrap(), 1);
}

#[test]
fn largest_extent_keeps_the_earlier_axis_on_a_tie() {
    let boxes = vec![sphere_box([0.0, 0.0, 0.0], 1.0), sphere_box([4.0, 4.0, 1.0], 1.0)];
    let cents: Vec<[u64; 3]> = boxes.iter().map(centroid).collect();
    assert_eq!(get_largest_extent(&vec![0, 1], &cents, &wider), Some(0));
    assert_eq!(get_largest_extent(&vec![1], &cents, &wider), Some(0));
}

#[test]
fn union_of_a_collection() {
    let a = Some(sphere_box([0.0, 0.0, 0.0], 1.0));
    let b = Some(sphere_box([5.0, -3.0, 2.0], 2.0));
    let u = union_all(&vec![a, b]).unwrap();
    assert_eq!(u.min().map(val), [-1.0, -5.0, -1.0]);
    assert_eq!(u.max().map(val), [7.0, 1.0, 4.0]);
    assert!(union_all(&vec![]).is_none());
    assert!(union_all(&vec![a, None, b]).is_none());
    assert_eq!(union_all(&vec![b]).unwrap().min(), b.unwrap().min());
}

#[test]
fn measure_extent_spans_the_centroids() {
    let boxes = vec![sphere_box([0.0, 0.0, 0.0], 5.0), sphere_box([-2.0, -10.0, 3.0], 5.0)];
    let cents: Vec<[u64; 3]> = boxes.iter().map(centroid).collect();
    assert!(measure_extent(&vec![], &cents, 0).is_none());
    let (lo, hi) = measure_extent(&vec![0, 1], &cents, 1).unwrap();
    assert_eq!((val(lo), val(hi)), (-10.0, 0.0));
    let (lo, hi) = measure_extent(&vec![1], &cents, 2).unwrap();
    assert_eq!((val(lo), val(hi)), (3.0, 3.0));
}
