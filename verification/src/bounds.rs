//! Axis bounds for the scatter plot: the least and greatest scale and the
//! least and greatest duration across a whole dataset, each computed
//! independently of the other. An empty dataset has no bounds; the caller
//! renders a degenerate empty plot instead of dividing by a zero-width
//! range.

use vstd::prelude::*;

use crate::sample::Sample;

verus! {

/// The bounding box of a dataset: the scale axis runs from `scale_min` to
/// `scale_max` and the duration axis from `duration_min` to `duration_max`
/// (nanoseconds), each inclusive.
#[derive(Clone, Copy, PartialEq, Eq, Structural, Debug)]
pub struct Bounds {
    pub scale_min: u32,
    pub scale_max: u32,
    pub duration_min: u64,
    pub duration_max: u64,
}

impl Bounds {
    /// The sample lies inside this bounding box.
    pub open spec fn contains(self, s: Sample) -> bool {
        &&& self.scale_min <= s.scale <= self.scale_max
        &&& self.duration_min <= s.duration_nanos <= self.duration_max
    }
}

/// The bounding box of a dataset: `Some` exactly for a non-empty dataset,
/// and then every sample lies inside the box while each of the four edges
/// is attained by some sample — the box is the dataset's true per-axis
/// minimum and maximum, not merely an enclosing range.
pub fn dataset_bounds(data: &Vec<Sample>) -> (r: Option<Bounds>)
    ensures
        r is Some <==> data@.len() > 0,
        r matches Some(b) ==> {
            &&& forall|i: int| 0 <= i < data@.len() ==> b.contains(#[trigger] data@[i])
            &&& exists|i: int| 0 <= i < data@.len() && (#[trigger] data@[i]).scale == b.scale_min
            &&& exists|i: int| 0 <= i < data@.len() && (#[trigger] data@[i]).scale == b.scale_max
            &&& exists|i: int|
                0 <= i < data@.len() && (#[trigger] data@[i]).duration_nanos == b.duration_min
            &&& exists|i: int|
                0 <= i < data@.len() && (#[trigger] data@[i]).duration_nanos == b.duration_max
        },
{
    if data.len() == 0 {
        return None;
    }
    let first = data[0];
    let mut b = Bounds {
        scale_min: first.scale,
        scale_max: first.scale,
        duration_min: first.duration_nanos,
        duration_max: first.duration_nanos,
    };
    let mut i: usize = 1;
    while i < data.len()
        invariant
            1 <= i <= data@.len(),
            forall|j: int| 0 <= j < i ==> b.contains(#[trigger] data@[j]),
            exists|j: int| 0 <= j < i && (#[trigger] data@[j]).scale == b.scale_min,
            exists|j: int| 0 <= j < i && (#[trigger] data@[j]).scale == b.scale_max,
            exists|j: int| 0 <= j < i && (#[trigger] data@[j]).duration_nanos == b.duration_min,
            exists|j: int| 0 <= j < i && (#[trigger] data@[j]).duration_nanos == b.duration_max,
        decreases data@.len() - i,
    {
        let s = data[i];
        if s.scale < b.scale_min {
            b.scale_min = s.scale;
        }
        if s.scale > b.scale_max {
            b.scale_max = s.scale;
        }
        if s.duration_nanos < b.duration_min {
            b.duration_min = s.duration_nanos;
        }
        if s.duration_nanos > b.duration_max {
            b.duration_max = s.duration_nanos;
        }
        i = i + 1;
    }
    Some(b)
}

} // verus!
