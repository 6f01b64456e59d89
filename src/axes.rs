use vstd::prelude::*;

verus! {

/// The plane in which an axis-aligned rectangle lies, named by its two spanning axes.
#[derive(Clone, Copy, Debug, PartialEq, Eq, Structural)]
pub enum RectAxes {
    XY,
    XZ,
    YZ,
}

impl RectAxes {
    /// The two axes that span the rectangle, in increasing order.
    pub open spec fn spec_axes_indices(self) -> (usize, usize) {
        match self {
            RectAxes::XY => (0, 1),
            RectAxes::XZ => (0, 2),
            RectAxes::YZ => (1, 2),
        }
    }

    /// The axis normal to the rectangle's plane: the one its spanning pair leaves out.
    pub open spec fn spec_unused_axis_index(self) -> usize {
        match self {
            RectAxes::XY => 2,
            RectAxes::XZ => 1,
            RectAxes::YZ => 0,
        }
    }

    pub fn axes_indices(&self) -> (r: (usize, usize))
        ensures
            r == self.spec_axes_indices(),
            r.0 < r.1 < 3,
    {
        match self {
            RectAxes::XY => (0, 1),
            RectAxes::XZ => (0, 2),
            RectAxes::YZ => (1, 2),
        }
    }

    pub fn unused_axis_index(&self) -> (r: usize)
        ensures
            r == self.spec_unused_axis_index(),
            r < 3,
            r != self.spec_axes_indices().0,
            r != self.spec_axes_indices().1,
    {
        match self {
            RectAxes::XY => 2,
            RectAxes::XZ => 1,
            RectAxes::YZ => 0,
        }
    }
}

/// Exchanges two components of a three-component value.
pub fn permute<T: Copy>(arr: &mut [T; 3], i: usize, j: usize)
    requires
        i < 3,
        j < 3,
    ensures
        final(arr)@ == old(arr)@.update(i as int, old(arr)@[j as int]).update(
            j as int,
            old(arr)@[i as int],
        ),
{
    let a = arr[i];
    let b = arr[j];
    arr[i] = b;
    arr[j] = a;
}

/// The index of the largest of three magnitudes; on a tie the later index wins.
pub open spec fn spec_max_dim(m: Seq<u64>) -> usize {
    if m[2] >= m[1] && m[2] >= m[0] {
        2
    } else if m[1] >= m[0] {
        1
    } else {
        0
    }
}

/// The axis along which a direction is largest, given the magnitudes of its
/// components as order keys (larger key, larger magnitude).
pub fn max_dim(mags: &[u64; 3]) -> (r: usize)
    ensures
        r == spec_max_dim(mags@),
        r < 3,
        forall|k: int| 0 <= k < 3 ==> mags@[k] <= mags@[r as int],
        forall|k: int| r < k < 3 ==> mags@[k] < mags@[r as int],
{
    let mut best: usize = 0;
    let mut i: usize = 1;
    while i < 3
        invariant
            1 <= i <= 3,
            best < i,
            forall|k: int| 0 <= k < i ==> mags@[k] <= mags@[best as int],
            forall|k: int| best < k < i ==> mags@[k] < mags@[best as int],
        decreases 3 - i,
    {
        if mags[i] >= mags[best] {
            best = i;
        }
        i = i + 1;
    }
    best
}

} // verus!
