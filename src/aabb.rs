use vstd::prelude::*;

verus! {

/// An axis-aligned bounding box. Each coordinate is an order key: an `f64`
/// mapped to a `u64` so that comparing keys compares the coordinates in the
/// total order of `f64::total_cmp`. Every decision a box takes part in here
/// (union, sort, nearest) depends on that order alone.
#[derive(Clone, Copy, Debug)]
pub struct Aabb {
    pub min: [u64; 3],
    pub max: [u64; 3],
}

pub open spec fn min_u64(a: u64, b: u64) -> u64 {
    if a <= b {
        a
    } else {
        b
    }
}

pub open spec fn max_u64(a: u64, b: u64) -> u64 {
    if a >= b {
        a
    } else {
        b
    }
}

/// `r` is the smallest box that holds both `a` and `b`.
pub open spec fn is_union(r: Aabb, a: Aabb, b: Aabb) -> bool {
    forall|k: int|
        #![trigger r.min@[k]]
        #![trigger r.max@[k]]
        0 <= k < 3 ==> {
            &&& r.min@[k] == min_u64(a.min@[k], b.min@[k])
            &&& r.max@[k] == max_u64(a.max@[k], b.max@[k])
        }
}

impl Aabb {
    /// `self` holds `other`: on every axis its range covers the other's.
    pub open spec fn contains(self, other: Aabb) -> bool {
        forall|k: int|
            #![trigger self.min@[k]]
            #![trigger other.min@[k]]
            0 <= k < 3 ==> self.min@[k] <= other.min@[k] && other.max@[k] <= self.max@[k]
    }
}

/// A union holds both of its parts, and is well formed where they are.
pub proof fn lemma_union_holds(r: Aabb, a: Aabb, b: Aabb)
    requires
        is_union(r, a, b),
    ensures
        r.contains(a),
        r.contains(b),
        a.wf() && b.wf() ==> r.wf(),
{
}

/// Holding is transitive.
pub proof fn lemma_contains_trans(a: Aabb, b: Aabb, c: Aabb)
    requires
        a.contains(b),
        b.contains(c),
    ensures
        a.contains(c),
{
    assert forall|k: int| 0 <= k < 3 implies #[trigger] a.min@[k] <= c.min@[k] && c.max@[k]
        <= a.max@[k] by {
        assert(a.min@[k] <= b.min@[k] && b.max@[k] <= a.max@[k]);
        assert(b.min@[k] <= c.min@[k] && c.max@[k] <= b.max@[k]);
    }
}

fn min_key(a: u64, b: u64) -> (r: u64)
    ensures
        r == min_u64(a, b),
{
    if a <= b {
        a
    } else {
        b
    }
}

fn max_key(a: u64, b: u64) -> (r: u64)
    ensures
        r == max_u64(a, b),
{
    if a >= b {
        a
    } else {
        b
    }
}

impl Aabb {
    /// Every axis runs from its minimum up to its maximum.
    pub open spec fn wf(self) -> bool {
        forall|k: int| 0 <= k < 3 ==> #[trigger] self.min@[k] <= self.max@[k]
    }

    pub fn new(min: [u64; 3], max: [u64; 3]) -> (r: Aabb)
        ensures
            r.min@ == min@,
            r.max@ == max@,
    {
        Aabb { min, max }
    }

    pub fn min(&self) -> (r: [u64; 3])
        ensures
            r@ == self.min@,
    {
        self.min
    }

    pub fn max(&self) -> (r: [u64; 3])
        ensures
            r@ == self.max@,
    {
        self.max
    }

    /// The smallest box holding both boxes: the per-axis minimum of the
    /// minima and maximum of the maxima.
    pub fn surrounding_box(box_0: Aabb, box_1: Aabb) -> (r: Aabb)
        ensures
            is_union(r, box_0, box_1),
            box_0.wf() && box_1.wf() ==> r.wf(),
    {
        let small = [
            min_key(box_0.min[0], box_1.min[0]),
            min_key(box_0.min[1], box_1.min[1]),
            min_key(box_0.min[2], box_1.min[2]),
        ];
        let big = [
            max_key(box_0.max[0], box_1.max[0]),
            max_key(box_0.max[1], box_1.max[1]),
            max_key(box_0.max[2], box_1.max[2]),
        ];
        let r = Aabb { min: small, max: big };
        assert(r.min@[0] == min_u64(box_0.min@[0], box_1.min@[0]));
        assert(r.min@[1] == min_u64(box_0.min@[1], box_1.min@[1]));
        assert(r.min@[2] == min_u64(box_0.min@[2], box_1.min@[2]));
        assert(r.max@[0] == max_u64(box_0.max@[0], box_1.max@[0]));
        assert(r.max@[1] == max_u64(box_0.max@[1], box_1.max@[1]));
        assert(r.max@[2] == max_u64(box_0.max@[2], box_1.max@[2]));
        r
    }

    /// Orders two boxes by their minimum along `axis`.
    pub fn box_compare(a: &Aabb, b: &Aabb, axis: usize) -> (r: core::cmp::Ordering)
        requires
            axis < 3,
        ensures
            r == core::cmp::Ordering::Less <==> a.min@[axis as int] < b.min@[axis as int],
            r == core::cmp::Ordering::Equal <==> a.min@[axis as int] == b.min@[axis as int],
            r == core::cmp::Ordering::Greater <==> a.min@[axis as int] > b.min@[axis as int],
    {
        if a.min[axis] < b.min[axis] {
            core::cmp::Ordering::Less
        } else if a.min[axis] == b.min[axis] {
            core::cmp::Ordering::Equal
        } else {
            core::cmp::Ordering::Greater
        }
    }
}


/// The least element of a non-empty sequence.
pub open spec fn seq_min(s: Seq<u64>) -> u64
    decreases s.len(),
{
    if s.len() <= 1 {
        s[0]
    } else {
        min_u64(seq_min(s.drop_last()), s.last())
    }
}

/// The greatest element of a non-empty sequence.
pub open spec fn seq_max(s: Seq<u64>) -> u64
    decreases s.len(),
{
    if s.len() <= 1 {
        s[0]
    } else {
        max_u64(seq_max(s.drop_last()), s.last())
    }
}

/// The per-axis minima, or maxima, of some boxes.
pub open spec fn mins_on(boxes: Seq<Option<Aabb>>, k: int) -> Seq<u64> {
    boxes.map_values(|b: Option<Aabb>| b->Some_0.min@[k])
}

pub open spec fn maxs_on(boxes: Seq<Option<Aabb>>, k: int) -> Seq<u64> {
    boxes.map_values(|b: Option<Aabb>| b->Some_0.max@[k])
}

/// The smallest box holding every box of a collection; `None` where the
/// collection is empty or one of its members has no box.
pub fn union_all(boxes: &Vec<Option<Aabb>>) -> (r: Option<Aabb>)
    ensures
        r is Some <==> (boxes.len() > 0 && forall|i: int| 0 <= i < boxes.len() ==> boxes@[i] is Some),
        r matches Some(b) ==> forall|k: int|
            0 <= k < 3 ==> #[trigger] b.min@[k] == seq_min(mins_on(boxes@, k)) && b.max@[k]
                == seq_max(maxs_on(boxes@, k)),
{
    if boxes.len() == 0 {
        return None;
    }
    let mut out = match &boxes[0] {
        Some(b) => *b,
        None => {
            return None;
        },
    };
    let mut i: usize = 1;
    proof {
        assert forall|k: int| 0 <= k < 3 implies #[trigger] out.min@[k] == seq_min(
            mins_on(boxes@, k).subrange(0, 1),
        ) && out.max@[k] == seq_max(maxs_on(boxes@, k).subrange(0, 1)) by {
            assert(mins_on(boxes@, k).subrange(0, 1).len() == 1);
            assert(maxs_on(boxes@, k).subrange(0, 1).len() == 1);
        }
    }
    while i < boxes.len()
        invariant
            1 <= i <= boxes.len(),
            forall|j: int| 0 <= j < i ==> #[trigger] boxes@[j] is Some,
            forall|k: int|
                0 <= k < 3 ==> #[trigger] out.min@[k] == seq_min(mins_on(boxes@, k).subrange(0, i as int))
                    && out.max@[k] == seq_max(maxs_on(boxes@, k).subrange(0, i as int)),
        decreases boxes.len() - i,
    {
        let b = match &boxes[i] {
            Some(b) => *b,
            None => {
                return None;
            },
        };
        let ghost prev = out;
        out = Aabb::surrounding_box(out, b);
        proof {
            assert forall|k: int| 0 <= k < 3 implies #[trigger] out.min@[k] == seq_min(
                mins_on(boxes@, k).subrange(0, i + 1),
            ) && out.max@[k] == seq_max(maxs_on(boxes@, k).subrange(0, i + 1)) by {
                assert(mins_on(boxes@, k).subrange(0, i + 1).drop_last() == mins_on(boxes@, k).subrange(0, i as int));
                assert(maxs_on(boxes@, k).subrange(0, i + 1).drop_last() == maxs_on(boxes@, k).subrange(0, i as int));
                assert(out.min@[k] == min_u64(prev.min@[k], b.min@[k]));
                assert(out.max@[k] == max_u64(prev.max@[k], b.max@[k]));
            }
        }
        i = i + 1;
    }
    assert forall|k: int| 0 <= k < 3 implies mins_on(boxes@, k).subrange(0, boxes.len() as int) == mins_on(boxes@, k)
        && maxs_on(boxes@, k).subrange(0, boxes.len() as int) == maxs_on(boxes@, k) by {
        assert(mins_on(boxes@, k).subrange(0, boxes.len() as int) =~= mins_on(boxes@, k));
        assert(maxs_on(boxes@, k).subrange(0, boxes.len() as int) =~= maxs_on(boxes@, k));
    }
    Some(out)
}

} // verus!
