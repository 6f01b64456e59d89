use vstd::prelude::*;
use crate::aabb::{
    Aabb, is_union, lemma_contains_trans, lemma_union_holds, maxs_on, mins_on, seq_max, seq_min,
};

verus! {

/// An inner node: the arena indices of its two children and the box that
/// holds both of them.
#[derive(Clone, Copy, Debug)]
pub struct BvhBranch {
    pub left: usize,
    pub right: usize,
    pub bb: Aabb,
}

/// A leaf: the index of one primitive and that primitive's box.
#[derive(Clone, Copy, Debug)]
pub struct BvhRoot {
    pub prim: usize,
    pub bb: Aabb,
}

/// A node of the hierarchy.
#[derive(Clone, Copy, Debug)]
pub enum BvhNode {
    Branch(BvhBranch),
    Root(BvhRoot),
}

/// A bounding volume hierarchy kept in an arena: a parent stores the indices
/// of its children, and every child stands before its parent.
#[derive(Debug)]
pub struct BvhTree {
    nodes: Vec<BvhNode>,
}

impl View for BvhTree {
    type V = Seq<BvhNode>;

    closed spec fn view(&self) -> Seq<BvhNode> {
        self.nodes@
    }
}

pub open spec fn node_box(n: BvhNode) -> Aabb {
    match n {
        BvhNode::Branch(b) => b.bb,
        BvhNode::Root(r) => r.bb,
    }
}

/// Node `i` is sound: a leaf names a primitive and carries exactly its box; a
/// branch carries exactly the union of its children's boxes, its right child
/// stands just before it, and its left child's subtree ends just before the
/// right child's begins. So every subtree is a run of the arena, and no node
/// has two parents.
pub open spec fn node_wf(nodes: Seq<BvhNode>, i: int, boxes: Seq<Option<Aabb>>) -> bool {
    match nodes[i] {
        BvhNode::Root(r) => r.prim < boxes.len() && boxes[r.prim as int] == Some(r.bb),
        BvhNode::Branch(b) => b.left < b.right && b.right + 1 == i && b.left + 1 == first_of(
            nodes,
            b.right as int,
        ) && is_union(
            b.bb,
            node_box(nodes[b.left as int]),
            node_box(nodes[b.right as int]),
        ),
    }
}

pub open spec fn nodes_wf(nodes: Seq<BvhNode>, boxes: Seq<Option<Aabb>>) -> bool {
    forall|i: int| 0 <= i < nodes.len() ==> #[trigger] node_wf(nodes, i, boxes)
}

/// The first arena index of the subtree rooted at `i`: a subtree occupies the
/// indices from there up to `i`.
pub open spec fn first_of(nodes: Seq<BvhNode>, i: int) -> int
    decreases i,
{
    if 0 <= i < nodes.len() {
        match nodes[i] {
            BvhNode::Root(_) => i,
            BvhNode::Branch(b) => if 0 <= b.left < i {
                first_of(nodes, b.left as int)
            } else {
                i
            },
        }
    } else {
        i
    }
}

proof fn lemma_first_of_range(nodes: Seq<BvhNode>, i: int)
    requires
        0 <= i,
    ensures
        0 <= first_of(nodes, i) <= i,
    decreases i,
{
    if 0 <= i < nodes.len() {
        if let BvhNode::Branch(b) = nodes[i] {
            if 0 <= b.left < i {
                lemma_first_of_range(nodes, b.left as int);
            }
        }
    }
}

proof fn lemma_first_of_prefix(a: Seq<BvhNode>, b: Seq<BvhNode>, i: int)
    requires
        0 <= i < a.len() <= b.len(),
        forall|k: int| 0 <= k < a.len() ==> b[k] == a[k],
    ensures
        first_of(b, i) == first_of(a, i),
    decreases i,
{
    if let BvhNode::Branch(br) = a[i] {
        if 0 <= br.left < i {
            lemma_first_of_prefix(a, b, br.left as int);
        }
    }
}

/// The primitives held by the leaves below node `i`.
pub open spec fn prims_under(nodes: Seq<BvhNode>, i: int) -> Set<usize>
    decreases i,
{
    if 0 <= i < nodes.len() {
        match nodes[i] {
            BvhNode::Root(r) => set![r.prim],
            BvhNode::Branch(b) => if b.left < i && b.right < i {
                prims_under(nodes, b.left as int).union(prims_under(nodes, b.right as int))
            } else {
                Set::empty()
            },
        }
    } else {
        Set::empty()
    }
}

/// Appending nodes leaves what an earlier node holds unchanged.
proof fn lemma_prims_under_prefix(a: Seq<BvhNode>, b: Seq<BvhNode>, i: int)
    requires
        0 <= i < a.len() <= b.len(),
        forall|k: int| 0 <= k < a.len() ==> b[k] == a[k],
    ensures
        prims_under(b, i) == prims_under(a, i),
    decreases i,
{
    match a[i] {
        BvhNode::Root(_) => {},
        BvhNode::Branch(br) => {
            if br.left < i && br.right < i {
                lemma_prims_under_prefix(a, b, br.left as int);
                lemma_prims_under_prefix(a, b, br.right as int);
            }
        },
    }
}

/// The sort key of primitive `j`: its box's minimum along `axis`.
pub open spec fn sort_key(boxes: Seq<Option<Aabb>>, j: usize, axis: usize) -> u64 {
    boxes[j as int]->Some_0.min@[axis as int]
}

pub open spec fn all_bounded(items: Seq<usize>, boxes: Seq<Option<Aabb>>) -> bool {
    forall|k: int|
        0 <= k < items.len() ==> #[trigger] items[k] < boxes.len() && boxes[items[k] as int] is Some
}

pub open spec fn sorted_on(items: Seq<usize>, boxes: Seq<Option<Aabb>>, axis: usize) -> bool {
    forall|a: int, b: int|
        0 <= a < b < items.len() ==> sort_key(boxes, #[trigger] items[a], axis) <= sort_key(
            boxes,
            #[trigger] items[b],
            axis,
        )
}

fn key_of(boxes: &Vec<Option<Aabb>>, j: usize, axis: usize) -> (r: u64)
    requires
        j < boxes.len(),
        boxes@[j as int] is Some,
        axis < 3,
    ensures
        r == sort_key(boxes@, j, axis),
{
    match &boxes[j] {
        Some(b) => b.min[axis],
        None => 0,
    }
}

/// The primitives whose sort key along `axis` is `kk`.
pub open spec fn key_is(boxes: Seq<Option<Aabb>>, axis: usize, kk: u64) -> spec_fn(usize) -> bool {
    |j: usize| sort_key(boxes, j, axis) == kk
}

/// `s` is `items` stably sorted by box minimum along `axis`: it is sorted, it
/// holds the same items as often, and items with equal keys keep their order.
pub open spec fn stable_sort_of(
    s: Seq<usize>,
    items: Seq<usize>,
    boxes: Seq<Option<Aabb>>,
    axis: usize,
) -> bool {
    &&& s.len() == items.len()
    &&& sorted_on(s, boxes, axis)
    &&& s.to_multiset() == items.to_multiset()
    &&& forall|kk: u64| #[trigger]
        s.filter(key_is(boxes, axis, kk)) == items.filter(key_is(boxes, axis, kk))
}

/// Inserting `x` before every item of a larger key appends it to the items
/// of its own key and leaves the other keys' items as they were.
proof fn lemma_insert_keeps_key_order(
    before: Seq<usize>,
    pos: int,
    x: usize,
    boxes: Seq<Option<Aabb>>,
    axis: usize,
    kk: u64,
)
    requires
        0 <= pos <= before.len(),
        forall|a: int| pos <= a < before.len() ==> sort_key(boxes, #[trigger] before[a], axis) > sort_key(boxes, x, axis),
    ensures
        before.insert(pos, x).filter(key_is(boxes, axis, kk)) == if sort_key(boxes, x, axis) == kk {
            before.filter(key_is(boxes, axis, kk)).push(x)
        } else {
            before.filter(key_is(boxes, axis, kk))
        },
{
    let p = key_is(boxes, axis, kk);
    let head = before.subrange(0, pos);
    let tail = before.subrange(pos, before.len() as int);
    assert(before.insert(pos, x) =~= head.push(x) + tail);
    assert(before =~= head + tail);
    Seq::filter_distributes_over_add(head.push(x), tail, p);
    Seq::filter_distributes_over_add(head, tail, p);
    head.lemma_filter_push(x, p);
    if sort_key(boxes, x, axis) == kk {
        if tail.filter(p).len() > 0 {
            tail.lemma_filter_pred(p, 0);
            assert(tail.filter(p).contains(tail.filter(p)[0]));
            tail.lemma_filter_contains_rev(p, tail.filter(p)[0]);
            let a = choose|a: int| 0 <= a < tail.len() && tail[a] == tail.filter(p)[0];
            assert(before[pos + a] == tail[a]);
        }
        assert(tail.filter(p) =~= Seq::<usize>::empty());
        assert(head.filter(p).push(x) + tail.filter(p) =~= (head.filter(p) + tail.filter(p)).push(x));
    }
}

/// Orders primitive indices by the minimum of their boxes along `axis`,
/// keeping the given order among equal keys.
pub fn sort_by_axis(items: &Vec<usize>, boxes: &Vec<Option<Aabb>>, axis: usize) -> (r: Vec<usize>)
    requires
        axis < 3,
        all_bounded(items@, boxes@),
    ensures
        r.len() == items.len(),
        sorted_on(r@, boxes@, axis),
        all_bounded(r@, boxes@),
        forall|x: usize| r@.contains(x) <==> items@.contains(x),
        stable_sort_of(r@, items@, boxes@, axis),
{
    let mut out: Vec<usize> = Vec::new();
    let mut k: usize = 0;
    assert(out@ =~= items@.subrange(0, 0));
    while k < items.len()
        invariant
            axis < 3,
            all_bounded(items@, boxes@),
            k <= items.len(),
            out.len() == k,
            sorted_on(out@, boxes@, axis),
            all_bounded(out@, boxes@),
            forall|x: usize| out@.contains(x) <==> items@.subrange(0, k as int).contains(x),
            out@.to_multiset() == items@.subrange(0, k as int).to_multiset(),
            forall|kk: u64| #[trigger]
                out@.filter(key_is(boxes@, axis, kk)) == items@.subrange(0, k as int).filter(
                    key_is(boxes@, axis, kk),
                ),
        decreases items.len() - k,
    {
        let x = items[k];
        assert(x < boxes.len() && boxes@[x as int] is Some);
        let kx = key_of(boxes, x, axis);
        let mut pos: usize = 0;
        while pos < out.len() && key_of(boxes, out[pos], axis) <= kx
            invariant
                axis < 3,
                pos <= out.len(),
                all_bounded(out@, boxes@),
                x < boxes.len(),
                kx == sort_key(boxes@, x, axis),
                forall|a: int| 0 <= a < pos ==> sort_key(boxes@, #[trigger] out@[a], axis) <= kx,
            decreases out.len() - pos,
        {
            assert(out@[pos as int] < boxes.len());
            pos = pos + 1;
        }
        let ghost before = out@;
        out.insert(pos, x);
        assert(out@ == before.insert(pos as int, x));
        proof {
            let s0 = items@.subrange(0, k as int);
            let s1 = items@.subrange(0, k + 1);
            assert(s1 =~= s0.push(x));
            assert(forall|a: int| pos <= a < before.len() ==> sort_key(boxes@, #[trigger] before[a], axis) > kx) by {
                assert forall|a: int| pos <= a < before.len() implies sort_key(boxes@, #[trigger] before[a], axis) > kx by {
                    if a > pos {
                        assert(sorted_on(before, boxes@, axis));
                        assert(sort_key(boxes@, before[pos as int], axis) <= sort_key(boxes@, before[a], axis));
                    }
                }
            }
            vstd::seq_lib::to_multiset_insert(before, pos as int, x);
            vstd::seq_lib::to_multiset_build(s0, x);
            assert forall|kk: u64| #[trigger]
                out@.filter(key_is(boxes@, axis, kk)) == s1.filter(key_is(boxes@, axis, kk)) by {
                lemma_insert_keeps_key_order(before, pos as int, x, boxes@, axis, kk);
                s0.lemma_filter_push(x, key_is(boxes@, axis, kk));
            }
        }
        assert(forall|a: int| pos < a < out.len() ==> #[trigger] out@[a] == before[a - 1]);
        assert(forall|a: int| 0 <= a < pos ==> #[trigger] out@[a] == before[a]);
        assert(pos < before.len() ==> sort_key(boxes@, before[pos as int], axis) > kx);
        assert(sorted_on(out@, boxes@, axis)) by {
            assert forall|a: int, b: int| 0 <= a < b < out.len() implies sort_key(
                boxes@,
                #[trigger] out@[a],
                axis,
            ) <= sort_key(boxes@, #[trigger] out@[b], axis) by {
                if a < pos && b > pos {
                    assert(sort_key(boxes@, before[pos as int], axis) <= sort_key(
                        boxes@,
                        before[b - 1],
                        axis,
                    ) || b - 1 == pos);
                }
                if a == pos && b > pos {
                    if b - 1 > pos {
                        assert(sort_key(boxes@, before[pos as int], axis) <= sort_key(
                            boxes@,
                            before[b - 1],
                            axis,
                        ));
                    }
                }
                if a > pos {
                    assert(sort_key(boxes@, before[a - 1], axis) <= sort_key(
                        boxes@,
                        before[b - 1],
                        axis,
                    ));
                }
            }
        }
        assert forall|y: usize| out@.contains(y) <==> items@.subrange(0, k + 1).contains(y) by {
            let s0 = items@.subrange(0, k as int);
            let s1 = items@.subrange(0, k + 1);
            if out@.contains(y) {
                let a = choose|a: int| 0 <= a < out.len() && out@[a] == y;
                if a == pos {
                    assert(s1[k as int] == y);
                } else {
                    let a0 = if a < pos {
                        a
                    } else {
                        a - 1
                    };
                    assert(before[a0] == y);
                    assert(before.contains(y));
                    let c = choose|c: int| 0 <= c < s0.len() && s0[c] == y;
                    assert(s1[c] == y);
                }
            }
            if s1.contains(y) {
                let c = choose|c: int| 0 <= c < s1.len() && s1[c] == y;
                if c == k {
                    assert(out@[pos as int] == y);
                } else {
                    assert(s0[c] == y);
                    assert(before.contains(y));
                    let a0 = choose|a: int| 0 <= a < before.len() && before[a] == y;
                    if a0 < pos {
                        assert(out@[a0] == y);
                    } else {
                        assert(out@[a0 + 1] == y);
                    }
                }
            }
        }
        k = k + 1;
    }
    assert(items@.subrange(0, items.len() as int) == items@);
    out
}


/// The centroid keys of `items` along `axis`.
pub open spec fn centroid_keys(items: Seq<usize>, cents: Seq<[u64; 3]>, axis: usize) -> Seq<u64> {
    items.map_values(|j: usize| cents[j as int]@[axis as int])
}

pub open spec fn indices_below(items: Seq<usize>, n: int) -> bool {
    forall|k: int| 0 <= k < items.len() ==> #[trigger] items[k] < n
}

/// The smallest and largest centroid key of `items` along `axis`, or `None`
/// where there are no items.
pub fn measure_extent(items: &Vec<usize>, cents: &Vec<[u64; 3]>, axis: usize) -> (r: Option<(u64, u64)>)
    requires
        axis < 3,
        indices_below(items@, cents.len() as int),
    ensures
        r is None <==> items.len() == 0,
        r matches Some(span) ==> span.0 == seq_min(centroid_keys(items@, cents@, axis)) && span.1
            == seq_max(centroid_keys(items@, cents@, axis)),
{
    if items.len() == 0 {
        return None;
    }
    let ghost keys = centroid_keys(items@, cents@, axis);
    let mut lo = cents[items[0]][axis];
    let mut hi = lo;
    let mut k: usize = 1;
    assert(keys.subrange(0, 1).len() == 1);
    while k < items.len()
        invariant
            1 <= k <= items.len(),
            axis < 3,
            indices_below(items@, cents.len() as int),
            keys == centroid_keys(items@, cents@, axis),
            lo == seq_min(keys.subrange(0, k as int)),
            hi == seq_max(keys.subrange(0, k as int)),
        decreases items.len() - k,
    {
        let c = cents[items[k]][axis];
        assert(keys.subrange(0, k + 1).drop_last() == keys.subrange(0, k as int));
        if c < lo {
            lo = c;
        }
        if c > hi {
            hi = c;
        }
        k = k + 1;
    }
    assert(keys.subrange(0, items.len() as int) == keys);
    Some((lo, hi))
}

fn span_along(items: &Vec<usize>, cents: &Vec<[u64; 3]>, axis: usize) -> (r: (u64, u64))
    requires
        items.len() >= 1,
        axis < 3,
        indices_below(items@, cents.len() as int),
    ensures
        r.0 == seq_min(centroid_keys(items@, cents@, axis)),
        r.1 == seq_max(centroid_keys(items@, cents@, axis)),
{
    match measure_extent(items, cents, axis) {
        Some(span) => span,
        None => (0, 0),
    }
}

/// `m` gives every answer the comparison `w` can give: `w` is a function of
/// its arguments, and `m` is that function.
pub open spec fn wider_model<W: Fn(u64, u64, u64, u64) -> bool>(
    w: W,
    m: spec_fn(u64, u64, u64, u64) -> bool,
) -> bool {
    forall|a: u64, b: u64, c: u64, d: u64, r: bool|
        #[trigger] call_ensures(w, (a, b, c, d), r) ==> r == m(a, b, c, d)
}

/// The axis whose span is widest under `m`: the first one that no later one
/// exceeds.
pub open spec fn spec_pick_axis(
    spans: Seq<(u64, u64)>,
    m: spec_fn(u64, u64, u64, u64) -> bool,
) -> usize {
    let b1: usize = if m(spans[1].0, spans[1].1, spans[0].0, spans[0].1) {
        1
    } else {
        0
    };
    if m(spans[2].0, spans[2].1, spans[b1 as int].0, spans[b1 as int].1) {
        2
    } else {
        b1
    }
}

pub open spec fn spans_of(items: Seq<usize>, cents: Seq<[u64; 3]>) -> Seq<(u64, u64)> {
    Seq::new(
        3,
        |a: int|
            (
                seq_min(centroid_keys(items, cents, a as usize)),
                seq_max(centroid_keys(items, cents, a as usize)),
            ),
    )
}

/// The split axis of a set of primitives: the axis along which their centroids
/// spread widest, or `None` where there are no primitives.
/// `wider(lo_a, hi_a, lo_b, hi_b)` tells whether the span `lo_a..hi_a` is
/// wider than `lo_b..hi_b`; on a tie the earlier axis stays.
pub fn get_largest_extent<W: Fn(u64, u64, u64, u64) -> bool>(
    items: &Vec<usize>,
    cents: &Vec<[u64; 3]>,
    wider: &W,
) -> (r: Option<usize>)
    requires
        indices_below(items@, cents.len() as int),
        forall|a: u64, b: u64, c: u64, d: u64| call_requires(*wider, (a, b, c, d)),
    ensures
        r is None <==> items.len() == 0,
        r matches Some(axis) ==> axis < 3 && forall|m: spec_fn(u64, u64, u64, u64) -> bool|
            #[trigger] wider_model(*wider, m) ==> axis == spec_pick_axis(spans_of(items@, cents@), m),
{
    if items.len() == 0 {
        return None;
    }
    let s0 = span_along(items, cents, 0);
    let s1 = span_along(items, cents, 1);
    let s2 = span_along(items, cents, 2);
    let ghost spans = spans_of(items@, cents@);
    assert(spans[0] == s0 && spans[1] == s1 && spans[2] == s2);
    let w1 = wider(s1.0, s1.1, s0.0, s0.1);
    let b = if w1 {
        s1
    } else {
        s0
    };
    let b1: usize = if w1 {
        1
    } else {
        0
    };
    let w2 = wider(s2.0, s2.1, b.0, b.1);
    if w2 {
        Some(2)
    } else {
        Some(b1)
    }
}


fn box_of(boxes: &Vec<Option<Aabb>>, j: usize) -> (r: Aabb)
    requires
        j < boxes.len(),
        boxes@[j as int] is Some,
    ensures
        boxes@[j as int] == Some(r),
{
    match &boxes[j] {
        Some(b) => *b,
        None => Aabb { min: [0, 0, 0], max: [0, 0, 0] },
    }
}

fn box_of_node(n: &BvhNode) -> (r: Aabb)
    ensures
        r == node_box(*n),
{
    match n {
        BvhNode::Branch(b) => b.bb,
        BvhNode::Root(l) => l.bb,
    }
}

impl BvhRoot {
    pub fn new(prim: usize, bb: Aabb) -> (r: BvhNode)
        ensures
            r == BvhNode::Root(BvhRoot { prim, bb }),
    {
        BvhNode::Root(BvhRoot { prim, bb })
    }
}

impl BvhBranch {
    pub fn new(left: usize, right: usize, bb: Aabb) -> (r: BvhNode)
        ensures
            r == BvhNode::Branch(BvhBranch { left, right, bb }),
    {
        BvhNode::Branch(BvhBranch { left, right, bb })
    }
}

/// Node `i` is the subtree built over `items` (in their given order) when
/// `m` judges which of two spans is wider: a single item makes a leaf; more
/// make a branch whose left child is built over the first half, rounded
/// down, of the items stably sorted by box minimum along the axis that
/// `spec_pick_axis` chooses, and whose right child over the rest.
pub open spec fn built_from(
    nodes: Seq<BvhNode>,
    i: int,
    items: Seq<usize>,
    boxes: Seq<Option<Aabb>>,
    cents: Seq<[u64; 3]>,
    m: spec_fn(u64, u64, u64, u64) -> bool,
) -> bool
    decreases items.len(),
{
    if items.len() == 1 {
        nodes[i] matches BvhNode::Root(r) && r.prim == items[0]
    } else if items.len() >= 2 {
        match nodes[i] {
            BvhNode::Branch(b) => {
                let axis = spec_pick_axis(spans_of(items, cents), m);
                let mid = items.len() / 2;
                exists|s: Seq<usize>|
                    #[trigger] stable_sort_of(s, items, boxes, axis) && s.len() == items.len()
                        && built_from(nodes, b.left as int, s.subrange(0, mid as int), boxes, cents, m)
                        && built_from(
                        nodes,
                        b.right as int,
                        s.subrange(mid as int, items.len() as int),
                        boxes,
                        cents,
                        m,
                    )
            },
            BvhNode::Root(_) => false,
        }
    } else {
        false
    }
}

/// Appending nodes keeps what an earlier subtree was built from.
proof fn lemma_built_from_prefix(
    a: Seq<BvhNode>,
    b: Seq<BvhNode>,
    i: int,
    items: Seq<usize>,
    boxes: Seq<Option<Aabb>>,
    cents: Seq<[u64; 3]>,
    m: spec_fn(u64, u64, u64, u64) -> bool,
)
    requires
        0 <= i < a.len() <= b.len(),
        forall|k: int| 0 <= k < a.len() ==> b[k] == a[k],
        nodes_wf(a, boxes),
        built_from(a, i, items, boxes, cents, m),
    ensures
        built_from(b, i, items, boxes, cents, m),
    decreases items.len(),
{
    if items.len() >= 2 {
        assert(node_wf(a, i, boxes));
        if let BvhNode::Branch(br) = a[i] {
            let axis = spec_pick_axis(spans_of(items, cents), m);
            let mid = items.len() / 2;
            let s = choose|s: Seq<usize>|
                #[trigger] stable_sort_of(s, items, boxes, axis) && s.len() == items.len()
                    && built_from(a, br.left as int, s.subrange(0, mid as int), boxes, cents, m)
                    && built_from(a, br.right as int, s.subrange(mid as int, items.len() as int), boxes, cents, m);
            lemma_built_from_prefix(a, b, br.left as int, s.subrange(0, mid as int), boxes, cents, m);
            lemma_built_from_prefix(a, b, br.right as int, s.subrange(mid as int, items.len() as int), boxes, cents, m);
            assert(stable_sort_of(s, items, boxes, axis));
        }
    }
}

/// Builds the subtree over `items` on top of `nodes` and returns its root,
/// which is the last node pushed.
fn build_node<W: Fn(u64, u64, u64, u64) -> bool>(
    nodes: &mut Vec<BvhNode>,
    items: Vec<usize>,
    boxes: &Vec<Option<Aabb>>,
    cents: &Vec<[u64; 3]>,
    wider: &W,
) -> (idx: usize)
    requires
        items.len() >= 1,
        all_bounded(items@, boxes@),
        cents.len() == boxes.len(),
        nodes_wf(old(nodes)@, boxes@),
        old(nodes).len() + 2 * items.len() <= usize::MAX,
        forall|a: u64, b: u64, c: u64, d: u64| call_requires(*wider, (a, b, c, d)),
    ensures
        final(nodes).len() == old(nodes).len() + 2 * items.len() - 1,
        forall|k: int| 0 <= k < old(nodes).len() ==> final(nodes)@[k] == old(nodes)@[k],
        nodes_wf(final(nodes)@, boxes@),
        idx == final(nodes).len() - 1,
        first_of(final(nodes)@, idx as int) == old(nodes).len(),
        forall|p: usize| prims_under(final(nodes)@, idx as int).contains(p) <==> items@.contains(p),
        forall|m: spec_fn(u64, u64, u64, u64) -> bool| #[trigger]
            wider_model(*wider, m) ==> built_from(final(nodes)@, idx as int, items@, boxes@, cents@, m),
    decreases items.len(),
{
    let ghost n0 = nodes@;
    if items.len() == 1 {
        let p = items[0];
        let bb = box_of(boxes, p);
        nodes.push(BvhRoot::new(p, bb));
        let idx = nodes.len() - 1;
        assert(node_wf(nodes@, idx as int, boxes@));
        assert forall|i: int| 0 <= i < nodes@.len() implies #[trigger] node_wf(
            nodes@,
            i,
            boxes@,
        ) by {
            if i < idx {
                assert(node_wf(n0, i, boxes@));
                if let BvhNode::Branch(b) = n0[i] {
                    lemma_first_of_prefix(n0, nodes@, b.right as int);
                }
            }
        }
        assert forall|q: usize| prims_under(nodes@, idx as int).contains(q) <==> items@.contains(
            q,
        ) by {
            if q == p {
                assert(items@[0] == q);
            }
        }
        return idx;
    }
    proof {
        assert(indices_below(items@, cents.len() as int)) by {
            assert forall|k: int| 0 <= k < items.len() implies #[trigger] items@[k] < cents.len() by {
                assert(items@[k] < boxes.len());
            }
        }
    }
    let axis = match get_largest_extent(&items, cents, wider) {
        Some(a) => a,
        None => 0,
    };
    let mut sorted = sort_by_axis(&items, boxes, axis);
    let mid = sorted.len() / 2;
    let ghost whole = sorted@;
    let right = sorted.split_off(mid);
    let left = sorted;
    assert(all_bounded(left@, boxes@)) by {
        assert forall|k: int| 0 <= k < left.len() implies #[trigger] left@[k] < boxes.len()
            && boxes@[left@[k] as int] is Some by {
            assert(left@[k] == whole[k]);
        }
    }
    assert(all_bounded(right@, boxes@)) by {
        assert forall|k: int| 0 <= k < right.len() implies #[trigger] right@[k] < boxes.len()
            && boxes@[right@[k] as int] is Some by {
            assert(right@[k] == whole[k + mid]);
        }
    }
    let ghost lseq = left@;
    let ghost rseq = right@;
    let li = build_node(nodes, left, boxes, cents, wider);
    let ghost n1 = nodes@;
    let ri = build_node(nodes, right, boxes, cents, wider);
    let ghost n2 = nodes@;
    let lb = box_of_node(&nodes[li]);
    let rb = box_of_node(&nodes[ri]);
    let bb = Aabb::surrounding_box(lb, rb);
    nodes.push(BvhBranch::new(li, ri, bb));
    let idx = nodes.len() - 1;
    proof {
        assert(nodes@[li as int] == n1[li as int]);
        lemma_first_of_prefix(n1, n2, li as int);
        lemma_first_of_prefix(n1, nodes@, li as int);
        lemma_first_of_prefix(n2, nodes@, ri as int);
        assert(node_wf(nodes@, idx as int, boxes@));
        assert forall|i: int| 0 <= i < nodes@.len() implies #[trigger] node_wf(
            nodes@,
            i,
            boxes@,
        ) by {
            if i < idx {
                assert(node_wf(n2, i, boxes@));
                assert(nodes@[i] == n2[i]);
                match n2[i] {
                    BvhNode::Branch(b) => {
                        assert(nodes@[b.left as int] == n2[b.left as int]);
                        assert(nodes@[b.right as int] == n2[b.right as int]);
                        lemma_first_of_prefix(n2, nodes@, b.right as int);
                    },
                    BvhNode::Root(_) => {},
                }
            }
        }
        lemma_prims_under_prefix(n1, n2, li as int);
        lemma_prims_under_prefix(n1, nodes@, li as int);
        lemma_prims_under_prefix(n2, nodes@, ri as int);
        assert forall|q: usize| prims_under(nodes@, idx as int).contains(q) <==> items@.contains(
            q,
        ) by {
            assert(prims_under(nodes@, idx as int) == prims_under(nodes@, li as int).union(
                prims_under(nodes@, ri as int),
            ));
            if lseq.contains(q) {
                let k = choose|k: int| 0 <= k < lseq.len() && lseq[k] == q;
                assert(whole[k] == q);
                assert(whole.contains(q));
            }
            if rseq.contains(q) {
                let k = choose|k: int| 0 <= k < rseq.len() && rseq[k] == q;
                assert(whole[k + mid] == q);
                assert(whole.contains(q));
            }
            if whole.contains(q) {
                let k = choose|k: int| 0 <= k < whole.len() && whole[k] == q;
                if k < mid {
                    assert(lseq[k] == q);
                } else {
                    assert(rseq[k - mid] == q);
                }
            }
        }
        assert(lseq == whole.subrange(0, mid as int));
        assert(rseq == whole.subrange(mid as int, items.len() as int));
        assert forall|m: spec_fn(u64, u64, u64, u64) -> bool| #[trigger]
            wider_model(*wider, m) implies built_from(nodes@, idx as int, items@, boxes@, cents@, m) by {
            lemma_built_from_prefix(n1, nodes@, li as int, lseq, boxes@, cents@, m);
            lemma_built_from_prefix(n2, nodes@, ri as int, rseq, boxes@, cents@, m);
            assert(axis == spec_pick_axis(spans_of(items@, cents@), m));
            assert(stable_sort_of(whole, items@, boxes@, axis));
        }
    }
    idx
}

impl BvhTree {
    /// The tree is sound for these primitive boxes: every node is sound, and
    /// the last node is the root, whose leaves hold each primitive.
    pub open spec fn wf(&self, boxes: Seq<Option<Aabb>>) -> bool {
        &&& self@.len() >= 1
        &&& nodes_wf(self@, boxes)
        &&& forall|p: usize| #[trigger]
            prims_under(self@, self@.len() - 1).contains(p) <==> p < boxes.len()
    }

    /// Builds a hierarchy over primitives given by their boxes and the
    /// centroid keys of those boxes. Every primitive must be bounded, and
    /// there must be at least one: no hierarchy is built over empty or
    /// unbounded geometry. Each branch stably sorts its primitives by box
    /// minimum along the axis where their centroids spread widest (as
    /// `wider` judges spans) and splits them at the median. The root's box is
    /// the box of the whole collection, as `union_all` gives it.
    pub fn new<W: Fn(u64, u64, u64, u64) -> bool>(
        boxes: &Vec<Option<Aabb>>,
        cents: &Vec<[u64; 3]>,
        wider: &W,
    ) -> (t: BvhTree)
        requires
            boxes.len() > 0,
            forall|k: int| 0 <= k < boxes.len() ==> boxes@[k] is Some,
            cents.len() == boxes.len(),
            2 * boxes.len() <= usize::MAX,
            forall|a: u64, b: u64, c: u64, d: u64| call_requires(*wider, (a, b, c, d)),
        ensures
            t.wf(boxes@),
            t.shaped(),
            t@.len() == 2 * boxes.len() - 1,
            forall|k: int|
                0 <= k < 3 ==> #[trigger] node_box(t@[t.root()]).min@[k] == seq_min(mins_on(boxes@, k))
                    && node_box(t@[t.root()]).max@[k] == seq_max(maxs_on(boxes@, k)),
            forall|m: spec_fn(u64, u64, u64, u64) -> bool| #[trigger]
                wider_model(*wider, m) ==> built_from(
                    t@,
                    t.root(),
                    Seq::new(boxes.len() as nat, |k: int| k as usize),
                    boxes@,
                    cents@,
                    m,
                ),
    {
        let mut items: Vec<usize> = Vec::new();
        let mut j: usize = 0;
        while j < boxes.len()
            invariant
                j <= boxes.len(),
                items.len() == j,
                forall|k: int| 0 <= k < j ==> #[trigger] items@[k] == k,
            decreases boxes.len() - j,
        {
            items.push(j);
            j = j + 1;
        }
        let mut nodes: Vec<BvhNode> = Vec::new();
        assert(all_bounded(items@, boxes@));
        let ghost all = items@;
        assert(all =~= Seq::new(boxes.len() as nat, |k: int| k as usize));
        let root = build_node(&mut nodes, items, boxes, cents, wider);
        let t = BvhTree { nodes };
        assert(t@ == nodes@);
        assert forall|p: usize| #[trigger]
            prims_under(t@, t@.len() - 1).contains(p) <==> p < boxes.len() by {
            assert(root == t@.len() - 1);
            if p < boxes.len() {
                assert(all[p as int] == p);
            }
            if all.contains(p) {
                let k = choose|k: int| 0 <= k < all.len() && all[k] == p;
                assert(all[k] == k);
            }
        }
        assert(nodes_wf(t@, boxes@));
        proof {
            lemma_root_box(t, boxes@);
        }
        t
    }
}


/// The distance key of a primitive hit, forgetting the hit record.
pub open spec fn hit_key<R>(h: Option<(u64, R)>) -> Option<u64> {
    match h {
        Some(x) => Some(x.0),
        None => None,
    }
}

/// Which primitive was hit and at what distance key, forgetting the record.
pub open spec fn hit_proj<R>(h: Option<(usize, u64, R)>) -> Option<(usize, u64)> {
    match h {
        Some(x) => Some((x.0, x.1)),
        None => None,
    }
}

/// `m` tells, for each box, the one answer the box test `f` gives.
pub open spec fn box_model<FB: Fn(Aabb) -> bool>(f: FB, m: spec_fn(Aabb) -> bool) -> bool {
    forall|b: Aabb, r: bool| #[trigger] call_ensures(f, (b,), r) ==> r == m(b)
}

/// `m` tells, for each primitive, the one distance key that the primitive
/// test `f` reports, or `None` where it reports no hit.
pub open spec fn prim_model<R, FP: Fn(usize) -> Option<(u64, R)>>(
    f: FP,
    m: spec_fn(usize) -> Option<u64>,
) -> bool {
    forall|p: usize, r: Option<(u64, R)>| #[trigger] call_ensures(f, (p,), r) ==> hit_key(r) == m(p)
}

/// Of two hits the nearer; on equal distance the first.
pub open spec fn nearer(a: Option<(usize, u64)>, b: Option<(usize, u64)>) -> Option<(usize, u64)> {
    match (a, b) {
        (None, _) => b,
        (Some(_), None) => a,
        (Some(x), Some(y)) => if x.1 <= y.1 {
            a
        } else {
            b
        },
    }
}

/// What a traversal from node `i` reports: a leaf reports its primitive's hit;
/// a branch whose box the ray misses reports nothing, and otherwise the nearer
/// of its children's reports.
pub open spec fn model_hit(
    nodes: Seq<BvhNode>,
    i: int,
    bm: spec_fn(Aabb) -> bool,
    pm: spec_fn(usize) -> Option<u64>,
) -> Option<(usize, u64)>
    decreases i,
{
    if 0 <= i < nodes.len() {
        match nodes[i] {
            BvhNode::Root(r) => match pm(r.prim) {
                Some(t) => Some((r.prim, t)),
                None => None,
            },
            BvhNode::Branch(b) => if b.left < i && b.right < i && bm(b.bb) {
                nearer(model_hit(nodes, b.left as int, bm, pm), model_hit(nodes, b.right as int, bm, pm))
            } else {
                None
            },
        }
    } else {
        None
    }
}

/// How many leaves a traversal from node `i` tests.
pub open spec fn model_visits(nodes: Seq<BvhNode>, i: int, bm: spec_fn(Aabb) -> bool) -> nat
    decreases i,
{
    if 0 <= i < nodes.len() {
        match nodes[i] {
            BvhNode::Root(_) => 1,
            BvhNode::Branch(b) => if b.left < i && b.right < i && bm(b.bb) {
                model_visits(nodes, b.left as int, bm) + model_visits(nodes, b.right as int, bm)
            } else {
                0
            },
        }
    } else {
        0
    }
}

/// What a scan over primitives `0..n` in order reports: the nearest hit, and
/// on equal distance the later primitive.
pub open spec fn model_scan(pm: spec_fn(usize) -> Option<u64>, n: nat) -> Option<(usize, u64)>
    decreases n,
{
    if n == 0 {
        None
    } else {
        let prev = model_scan(pm, (n - 1) as nat);
        let p = (n - 1) as usize;
        match pm(p) {
            Some(t) => match prev {
                Some(q) => if t <= q.1 {
                    Some((p, t))
                } else {
                    prev
                },
                None => Some((p, t)),
            },
            None => prev,
        }
    }
}

/// The result's distance, if any.
pub open spec fn dist(h: Option<(usize, u64)>) -> Option<u64> {
    match h {
        Some(x) => Some(x.1),
        None => None,
    }
}

impl BvhTree {
    pub open spec fn root(&self) -> int {
        self@.len() - 1
    }

    /// Traverses the subtree at `i`, counting the leaves it tests.
    fn hit_node<R, FB: Fn(Aabb) -> bool, FP: Fn(usize) -> Option<(u64, R)>>(
        &self,
        i: usize,
        box_hit: &FB,
        prim_hit: &FP,
        boxes: Ghost<Seq<Option<Aabb>>>,
    ) -> (r: (usize, Option<(usize, u64, R)>))
        requires
            nodes_wf(self@, boxes@),
            i < self@.len(),
            forall|b: Aabb| call_requires(*box_hit, (b,)),
            forall|p: usize| call_requires(*prim_hit, (p,)),
        ensures
            r.0 <= i - first_of(self@, i as int) + 1,
            forall|bm: spec_fn(Aabb) -> bool|
                #[trigger] box_model(*box_hit, bm) ==> r.0 == model_visits(self@, i as int, bm),
            forall|bm: spec_fn(Aabb) -> bool, pm: spec_fn(usize) -> Option<u64>|
                #[trigger] box_model(*box_hit, bm) && #[trigger] prim_model(*prim_hit, pm)
                    ==> hit_proj(r.1) == model_hit(self@, i as int, bm, pm),
            r.1 matches Some(h) ==> prims_under(self@, i as int).contains(h.0) && call_ensures(
                *prim_hit,
                (h.0,),
                Some((h.1, h.2)),
            ),
        decreases i,
    {
        assert(node_wf(self@, i as int, boxes@));
        proof {
            lemma_first_of_range(self@, i as int);
        }
        match &self.nodes[i] {
            BvhNode::Root(leaf) => {
                let p = leaf.prim;
                let h = prim_hit(p);
                let out = match h {
                    Some(x) => Some((p, x.0, x.1)),
                    None => None,
                };
                (1, out)
            },
            BvhNode::Branch(br) => {
                let left = br.left;
                let right = br.right;
                let inside = box_hit(br.bb);
                if !inside {
                    return (0, None);
                }
                let (lc, lh) = self.hit_node(left, box_hit, prim_hit, boxes);
                let (rc, rh) = self.hit_node(right, box_hit, prim_hit, boxes);
                proof {
                    lemma_first_of_range(self@, left as int);
                }
                let count = lc + rc;
                let ghost lp = hit_proj(lh);
                let ghost rp = hit_proj(rh);
                let out = match (lh, rh) {
                    (None, None) => None,
                    (Some(a), None) => Some(a),
                    (None, Some(b)) => Some(b),
                    (Some(a), Some(b)) => if a.1 <= b.1 {
                        Some(a)
                    } else {
                        Some(b)
                    },
                };
                assert(hit_proj(out) == nearer(lp, rp));
                (count, out)
            },
        }
    }

    /// The nearest primitive hit along a ray, with how many leaves were
    /// tested. `box_hit` tells whether the ray meets a box within the query
    /// interval; `prim_hit` tests one primitive and reports the distance key
    /// of its hit with the hit's record.
    pub fn hit_debug<R, FB: Fn(Aabb) -> bool, FP: Fn(usize) -> Option<(u64, R)>>(
        &self,
        box_hit: &FB,
        prim_hit: &FP,
    ) -> (r: (usize, Option<(usize, u64, R)>))
        requires
            self.shaped(),
            forall|b: Aabb| call_requires(*box_hit, (b,)),
            forall|p: usize| call_requires(*prim_hit, (p,)),
        ensures
            forall|bm: spec_fn(Aabb) -> bool|
                #[trigger] box_model(*box_hit, bm) ==> r.0 == model_visits(self@, self.root(), bm),
            forall|bm: spec_fn(Aabb) -> bool, pm: spec_fn(usize) -> Option<u64>|
                #[trigger] box_model(*box_hit, bm) && #[trigger] prim_model(*prim_hit, pm)
                    ==> hit_proj(r.1) == model_hit(self@, self.root(), bm, pm),
            r.1 matches Some(h) ==> prims_under(self@, self.root()).contains(h.0) && call_ensures(
                *prim_hit,
                (h.0,),
                Some((h.1, h.2)),
            ),
    {
        let ghost boxes = choose|boxes: Seq<Option<Aabb>>| nodes_wf(self@, boxes);
        self.hit_node(self.nodes.len() - 1, box_hit, prim_hit, Ghost(boxes))
    }

    /// The nearest primitive hit along a ray; see `hit_debug`.
    pub fn hit<R, FB: Fn(Aabb) -> bool, FP: Fn(usize) -> Option<(u64, R)>>(
        &self,
        box_hit: &FB,
        prim_hit: &FP,
    ) -> (r: Option<(usize, u64, R)>)
        requires
            self.shaped(),
            forall|b: Aabb| call_requires(*box_hit, (b,)),
            forall|p: usize| call_requires(*prim_hit, (p,)),
        ensures
            forall|bm: spec_fn(Aabb) -> bool, pm: spec_fn(usize) -> Option<u64>|
                #[trigger] box_model(*box_hit, bm) && #[trigger] prim_model(*prim_hit, pm)
                    ==> hit_proj(r) == model_hit(self@, self.root(), bm, pm),
            r matches Some(h) ==> prims_under(self@, self.root()).contains(h.0) && call_ensures(
                *prim_hit,
                (h.0,),
                Some((h.1, h.2)),
            ),
    {
        self.hit_debug(box_hit, prim_hit).1
    }

    /// The tree is non-empty and its nodes are sound for some primitive boxes.
    pub open spec fn shaped(&self) -> bool {
        self@.len() >= 1 && exists|boxes: Seq<Option<Aabb>>| nodes_wf(self@, boxes)
    }

    pub fn len(&self) -> (r: usize)
        ensures
            r == self@.len(),
    {
        self.nodes.len()
    }

    pub fn node(&self, i: usize) -> (r: BvhNode)
        requires
            i < self@.len(),
        ensures
            r == self@[i as int],
    {
        self.nodes[i]
    }
}

/// Tests primitives `0..count` in order and keeps the nearest hit; of equally
/// near hits the later one.
pub fn linear_hit<R, FP: Fn(usize) -> Option<(u64, R)>>(count: usize, prim_hit: &FP) -> (r: Option<
    (usize, u64, R),
>)
    requires
        forall|p: usize| call_requires(*prim_hit, (p,)),
    ensures
        forall|pm: spec_fn(usize) -> Option<u64>|
            #[trigger] prim_model(*prim_hit, pm) ==> hit_proj(r) == model_scan(pm, count as nat),
        r matches Some(h) ==> h.0 < count && call_ensures(*prim_hit, (h.0,), Some((h.1, h.2))),
{
    let mut best: Option<(usize, u64, R)> = None;
    let mut j: usize = 0;
    while j < count
        invariant
            j <= count,
            forall|p: usize| call_requires(*prim_hit, (p,)),
            forall|pm: spec_fn(usize) -> Option<u64>|
                #[trigger] prim_model(*prim_hit, pm) ==> hit_proj(best) == model_scan(pm, j as nat),
            best matches Some(h) ==> h.0 < j && call_ensures(*prim_hit, (h.0,), Some((h.1, h.2))),
        decreases count - j,
    {
        let h = prim_hit(j);
        best = match h {
            Some(x) => match best {
                Some(b) => if x.0 <= b.1 {
                    Some((j, x.0, x.1))
                } else {
                    Some(b)
                },
                None => Some((j, x.0, x.1)),
            },
            None => best,
        };
        j = j + 1;
    }
    best
}


/// The box test never prunes a hit: every node whose subtree holds a primitive
/// that the ray hits has a box that the ray meets.
pub open spec fn conservative(
    nodes: Seq<BvhNode>,
    bm: spec_fn(Aabb) -> bool,
    pm: spec_fn(usize) -> Option<u64>,
) -> bool {
    forall|i: int, p: usize|
        0 <= i < nodes.len() && #[trigger] prims_under(nodes, i).contains(p) && pm(p) is Some
            ==> bm(node_box(nodes[i]))
}

proof fn lemma_model_hit_sound(
    nodes: Seq<BvhNode>,
    i: int,
    bm: spec_fn(Aabb) -> bool,
    pm: spec_fn(usize) -> Option<u64>,
)
    ensures
        model_hit(nodes, i, bm, pm) matches Some(h) ==> prims_under(nodes, i).contains(h.0) && pm(
            h.0,
        ) == Some(h.1),
    decreases i,
{
    if 0 <= i < nodes.len() {
        if let BvhNode::Branch(b) = nodes[i] {
            if b.left < i && b.right < i {
                lemma_model_hit_sound(nodes, b.left as int, bm, pm);
                lemma_model_hit_sound(nodes, b.right as int, bm, pm);
            }
        }
    }
}

proof fn lemma_model_hit_nearest(
    nodes: Seq<BvhNode>,
    i: int,
    bm: spec_fn(Aabb) -> bool,
    pm: spec_fn(usize) -> Option<u64>,
    q: usize,
)
    requires
        0 <= i < nodes.len(),
        conservative(nodes, bm, pm),
        prims_under(nodes, i).contains(q),
        pm(q) is Some,
    ensures
        model_hit(nodes, i, bm, pm) is Some,
        model_hit(nodes, i, bm, pm)->Some_0.1 <= pm(q)->Some_0,
    decreases i,
{
    if let BvhNode::Branch(b) = nodes[i] {
        assert(bm(b.bb));
        let l = b.left as int;
        let r = b.right as int;
        if prims_under(nodes, l).contains(q) {
            lemma_model_hit_nearest(nodes, l, bm, pm, q);
        } else {
            lemma_model_hit_nearest(nodes, r, bm, pm, q);
        }
    }
}

proof fn lemma_scan_sound(pm: spec_fn(usize) -> Option<u64>, n: nat)
    requires
        n <= usize::MAX + 1,
    ensures
        model_scan(pm, n) matches Some(h) ==> h.0 < n && pm(h.0) == Some(h.1),
    decreases n,
{
    if n > 0 {
        lemma_scan_sound(pm, (n - 1) as nat);
    }
}

proof fn lemma_scan_nearest(pm: spec_fn(usize) -> Option<u64>, n: nat, q: usize)
    requires
        q < n <= usize::MAX + 1,
        pm(q) is Some,
    ensures
        model_scan(pm, n) is Some,
        model_scan(pm, n)->Some_0.1 <= pm(q)->Some_0,
    decreases n,
{
    if q < n - 1 {
        lemma_scan_nearest(pm, (n - 1) as nat, q);
    }
}

/// A traversal of a sound hierarchy reports the same distance as a scan over
/// all of its primitives, whenever the box test never prunes a hit.
pub proof fn lemma_bvh_matches_scan(
    t: BvhTree,
    boxes: Seq<Option<Aabb>>,
    bm: spec_fn(Aabb) -> bool,
    pm: spec_fn(usize) -> Option<u64>,
)
    requires
        t.wf(boxes),
        boxes.len() <= usize::MAX,
        conservative(t@, bm, pm),
    ensures
        dist(model_hit(t@, t.root(), bm, pm)) == dist(model_scan(pm, boxes.len() as nat)),
{
    let nodes = t@;
    let root = t.root();
    let n = boxes.len() as nat;
    lemma_model_hit_sound(nodes, root, bm, pm);
    lemma_scan_sound(pm, n);
    if let Some(h) = model_hit(nodes, root, bm, pm) {
        assert(prims_under(nodes, root).contains(h.0));
        lemma_scan_nearest(pm, n, h.0);
        let s = model_scan(pm, n)->Some_0;
        assert(prims_under(nodes, root).contains(s.0));
        lemma_model_hit_nearest(nodes, root, bm, pm, s.0);
    } else {
        if let Some(s) = model_scan(pm, n) {
            assert(prims_under(nodes, root).contains(s.0));
            lemma_model_hit_nearest(nodes, root, bm, pm, s.0);
        }
    }
}

/// The nearest distance a scan reports does not depend on the order in which
/// the primitives are listed: scanning them as `perm` reorders them reports
/// the same distance.
pub proof fn lemma_scan_order_irrelevant(pm: spec_fn(usize) -> Option<u64>, perm: Seq<usize>, n: nat)
    requires
        n <= usize::MAX,
        perm.len() == n,
        forall|i: int| 0 <= i < n ==> #[trigger] perm[i] < n,
        forall|q: usize| q < n ==> #[trigger] perm.contains(q),
    ensures
        dist(model_scan(|i: usize| pm(perm[i as int]), n)) == dist(model_scan(pm, n)),
{
    let pm2 = |i: usize| pm(perm[i as int]);
    lemma_scan_sound(pm, n);
    lemma_scan_sound(pm2, n);
    if let Some(a) = model_scan(pm2, n) {
        lemma_scan_nearest(pm, n, perm[a.0 as int]);
    }
    if let Some(b) = model_scan(pm, n) {
        assert(perm.contains(b.0));
        let i = choose|i: int| 0 <= i < perm.len() && perm[i] == b.0;
        assert(pm2(i as usize) == pm(b.0));
        lemma_scan_nearest(pm2, n, i as usize);
    }
}

/// In a sound hierarchy every branch's box is exactly the union of its
/// children's boxes, and every leaf's box is its primitive's box.
pub proof fn lemma_node_boxes(t: BvhTree, boxes: Seq<Option<Aabb>>, i: int)
    requires
        t.wf(boxes),
        0 <= i < t@.len(),
    ensures
        t@[i] matches BvhNode::Branch(b) ==> is_union(
            b.bb,
            node_box(t@[b.left as int]),
            node_box(t@[b.right as int]),
        ),
        t@[i] matches BvhNode::Root(r) ==> boxes[r.prim as int] == Some(r.bb),
{
    assert(node_wf(t@, i, boxes));
}


/// In a sound hierarchy every node's box holds the box of each primitive
/// below it, and is well formed where the primitives' boxes are.
pub proof fn lemma_node_box_holds_prims(t: BvhTree, boxes: Seq<Option<Aabb>>, i: int)
    requires
        t.wf(boxes),
        0 <= i < t@.len(),
    ensures
        forall|p: usize| #[trigger]
            prims_under(t@, i).contains(p) ==> p < boxes.len() && boxes[p as int] is Some
                && node_box(t@[i]).contains(boxes[p as int]->Some_0),
        (forall|p: int| 0 <= p < boxes.len() && boxes[p] is Some ==> (#[trigger] boxes[p])->Some_0.wf())
            ==> node_box(t@[i]).wf(),
    decreases i,
{
    assert(node_wf(t@, i, boxes));
    match t@[i] {
        BvhNode::Root(r) => {
            let b = r.bb;
            assert(b.contains(b));
            assert(boxes[r.prim as int] == Some(b));
        },
        BvhNode::Branch(br) => {
            let l = br.left as int;
            let r = br.right as int;
            lemma_node_box_holds_prims(t, boxes, l);
            lemma_node_box_holds_prims(t, boxes, r);
            lemma_union_holds(br.bb, node_box(t@[l]), node_box(t@[r]));
            assert(prims_under(t@, i) == prims_under(t@, l).union(prims_under(t@, r)));
            assert forall|p: usize| #[trigger] prims_under(t@, i).contains(p) implies p < boxes.len()
                && boxes[p as int] is Some && br.bb.contains(boxes[p as int]->Some_0) by {
                if prims_under(t@, l).contains(p) {
                    lemma_contains_trans(br.bb, node_box(t@[l]), boxes[p as int]->Some_0);
                } else {
                    lemma_contains_trans(br.bb, node_box(t@[r]), boxes[p as int]->Some_0);
                }
            }
        },
    }
}


/// The least element of a sequence is at most each element and is one of them;
/// likewise the greatest.
proof fn lemma_seq_extremes(s: Seq<u64>)
    requires
        s.len() >= 1,
    ensures
        forall|j: int| 0 <= j < s.len() ==> seq_min(s) <= #[trigger] s[j] && s[j] <= seq_max(s),
        exists|j: int| 0 <= j < s.len() && #[trigger] s[j] == seq_min(s),
        exists|j: int| 0 <= j < s.len() && #[trigger] s[j] == seq_max(s),
    decreases s.len(),
{
    if s.len() > 1 {
        let d = s.drop_last();
        lemma_seq_extremes(d);
        assert forall|j: int| 0 <= j < s.len() implies seq_min(s) <= #[trigger] s[j] && s[j] <= seq_max(s) by {
            if j < s.len() - 1 {
                assert(d[j] == s[j]);
            }
        }
        let a = choose|j: int| 0 <= j < d.len() && #[trigger] d[j] == seq_min(d);
        let b = choose|j: int| 0 <= j < d.len() && #[trigger] d[j] == seq_max(d);
        assert(s[a] == d[a] && s[b] == d[b]);
        if seq_min(s) != seq_min(d) {
            assert(s[s.len() - 1] == seq_min(s));
        }
        if seq_max(s) != seq_max(d) {
            assert(s[s.len() - 1] == seq_max(s));
        }
    } else {
        assert(s[0] == seq_min(s) && s[0] == seq_max(s));
    }
}

/// Each bound of a node's box is the bound of some primitive below it.
proof fn lemma_node_box_attained(t: BvhTree, boxes: Seq<Option<Aabb>>, i: int, k: int)
    requires
        t.wf(boxes),
        0 <= i < t@.len(),
        0 <= k < 3,
    ensures
        exists|p: usize| #[trigger]
            prims_under(t@, i).contains(p) && boxes[p as int]->Some_0.min@[k] == node_box(t@[i]).min@[k],
        exists|p: usize| #[trigger]
            prims_under(t@, i).contains(p) && boxes[p as int]->Some_0.max@[k] == node_box(t@[i]).max@[k],
    decreases i,
{
    assert(node_wf(t@, i, boxes));
    match t@[i] {
        BvhNode::Root(r) => {
            assert(prims_under(t@, i).contains(r.prim));
        },
        BvhNode::Branch(br) => {
            let l = br.left as int;
            let r = br.right as int;
            lemma_node_box_attained(t, boxes, l, k);
            lemma_node_box_attained(t, boxes, r, k);
            assert(prims_under(t@, i) == prims_under(t@, l).union(prims_under(t@, r)));
            let pl = choose|p: usize| #[trigger]
                prims_under(t@, l).contains(p) && boxes[p as int]->Some_0.min@[k] == node_box(t@[l]).min@[k];
            let pr = choose|p: usize| #[trigger]
                prims_under(t@, r).contains(p) && boxes[p as int]->Some_0.min@[k] == node_box(t@[r]).min@[k];
            let ql = choose|p: usize| #[trigger]
                prims_under(t@, l).contains(p) && boxes[p as int]->Some_0.max@[k] == node_box(t@[l]).max@[k];
            let qr = choose|p: usize| #[trigger]
                prims_under(t@, r).contains(p) && boxes[p as int]->Some_0.max@[k] == node_box(t@[r]).max@[k];
            assert(br.bb.min@[k] == node_box(t@[l]).min@[k] || br.bb.min@[k] == node_box(t@[r]).min@[k]);
            assert(br.bb.max@[k] == node_box(t@[l]).max@[k] || br.bb.max@[k] == node_box(t@[r]).max@[k]);
            assert(prims_under(t@, i).contains(pl) && prims_under(t@, i).contains(pr));
            assert(prims_under(t@, i).contains(ql) && prims_under(t@, i).contains(qr));
        },
    }
}

/// The root's box is the box of the whole collection: on each axis, the least
/// minimum and the greatest maximum of the primitives' boxes.
pub proof fn lemma_root_box(t: BvhTree, boxes: Seq<Option<Aabb>>)
    requires
        t.wf(boxes),
        boxes.len() >= 1,
        boxes.len() <= usize::MAX,
    ensures
        forall|k: int|
            0 <= k < 3 ==> #[trigger] node_box(t@[t.root()]).min@[k] == seq_min(mins_on(boxes, k))
                && node_box(t@[t.root()]).max@[k] == seq_max(maxs_on(boxes, k)),
{
    let root = t.root();
    lemma_node_box_holds_prims(t, boxes, root);
    assert forall|k: int| 0 <= k < 3 implies #[trigger] node_box(t@[root]).min@[k] == seq_min(
        mins_on(boxes, k),
    ) && node_box(t@[root]).max@[k] == seq_max(maxs_on(boxes, k)) by {
        let b = node_box(t@[root]);
        let mins = mins_on(boxes, k);
        let maxs = maxs_on(boxes, k);
        lemma_seq_extremes(mins);
        lemma_seq_extremes(maxs);
        lemma_node_box_attained(t, boxes, root, k);
        let p = choose|p: usize| #[trigger]
            prims_under(t@, root).contains(p) && boxes[p as int]->Some_0.min@[k] == b.min@[k];
        let q = choose|p: usize| #[trigger]
            prims_under(t@, root).contains(p) && boxes[p as int]->Some_0.max@[k] == b.max@[k];
        assert(mins[p as int] == b.min@[k]);
        assert(maxs[q as int] == b.max@[k]);
        let j = choose|j: int| 0 <= j < mins.len() && #[trigger] mins[j] == seq_min(mins);
        let h = choose|j: int| 0 <= j < maxs.len() && #[trigger] maxs[j] == seq_max(maxs);
        assert(prims_under(t@, root).contains(j as usize));
        assert(prims_under(t@, root).contains(h as usize));
        assert(b.contains(boxes[j]->Some_0));
        assert(b.contains(boxes[h]->Some_0));
    }
}

} // verus!
