//! Run configuration: which intersection strategy runs, how the hierarchy
//! is built, and the validity rule on option combinations.

use vstd::prelude::*;
use vstd::string::StringExecFns;

verus! {

/// The ray-scene intersection strategy.
#[derive(Clone, Copy, PartialEq, Eq, Structural, Debug)]
pub enum IntersectionAlgorithm {
    Naive,
    BVH,
    Grid,
}

/// The scene input format the program accepts.
#[derive(Clone, Copy, PartialEq, Eq, Structural, Debug)]
pub enum FileFormat {
    Native,
    PLY,
}

/// Options steering a run.
#[derive(Clone, Copy, PartialEq, Eq, Structural, Debug)]
pub enum AlgorithmOptions {
    /// Split always on the x axis, at the middle position.
    BvhNaive,
    /// Surface-area heuristic for the axis only; split at the middle.
    BvhSahPlane,
    /// Surface-area heuristic for both the axis and the split position.
    BvhSahPosition,
    /// Flag hit points near box edges, to draw the boxes.
    DrawBoxes,
}

/// Whether an option selects a hierarchy build mode.
pub open spec fn is_bvh_option(o: AlgorithmOptions) -> bool {
    o == AlgorithmOptions::BvhNaive || o == AlgorithmOptions::BvhSahPlane
        || o == AlgorithmOptions::BvhSahPosition
}

/// How many hierarchy build modes a list of options names.
pub open spec fn count_bvh_options(s: Seq<AlgorithmOptions>) -> nat
    decreases s.len(),
{
    if s.len() == 0 {
        0
    } else {
        count_bvh_options(s.drop_last()) + if is_bvh_option(s.last()) {
            1nat
        } else {
            0nat
        }
    }
}

/// The settings a render runs under.  The grid voxel edge is a fixed-point
/// length in world units.
#[derive(Clone, Debug)]
pub struct Options {
    pub algorithm: IntersectionAlgorithm,
    pub options: Vec<AlgorithmOptions>,
    pub draw_boxes: bool,
    pub grid_size: i128,
    pub camera: Option<usize>,
}

impl Options {
    pub fn new(algorithm: IntersectionAlgorithm, options: Vec<AlgorithmOptions>,
        draw_boxes: bool, grid_size: i128, camera: Option<usize>) -> (o: Options)
        ensures
            o.algorithm == algorithm && o.options == options && o.draw_boxes == draw_boxes
                && o.grid_size == grid_size && o.camera == camera,
    {
        Options { algorithm, options, draw_boxes, grid_size, camera }
    }

    /// Whether an option was given.
    pub fn has_option(&self, o: AlgorithmOptions) -> (r: bool)
        ensures
            r == self.options@.contains(o),
    {
        let mut i: usize = 0;
        let n = self.options.len();
        while i < n
            invariant
                n == self.options@.len(),
                i <= n,
                forall|j: int| 0 <= j < i ==> self.options@[j] != o,
            decreases n - i,
        {
            if self.options[i] == o {
                return true;
            }
            i = i + 1;
        }
        false
    }
}

/// Reject a combination that names more than one hierarchy build mode;
/// everything else is valid.  The message names the modes that clash.
pub fn check_valid_options(options: &Vec<AlgorithmOptions>) -> (res: Option<String>)
    ensures
        res.is_some() == (count_bvh_options(options@) > 1),
{
    let n = options.len();
    let mut bvh_opts: usize = 0;
    let mut has_naive = false;
    let mut has_plane = false;
    let mut has_position = false;
    let mut i: usize = 0;
    while i < n
        invariant
            n == options@.len(),
            i <= n,
            bvh_opts == count_bvh_options(options@.subrange(0, i as int)),
            bvh_opts <= i,
        decreases n - i,
    {
        let o = options[i];
        proof {
            assert(options@.subrange(0, i + 1).drop_last() =~= options@.subrange(0, i as int));
            assert(options@.subrange(0, i + 1).last() == options@[i as int]);
        }
        match o {
            AlgorithmOptions::BvhNaive => {
                bvh_opts = bvh_opts + 1;
                has_naive = true;
            },
            AlgorithmOptions::BvhSahPlane => {
                bvh_opts = bvh_opts + 1;
                has_plane = true;
            },
            AlgorithmOptions::BvhSahPosition => {
                bvh_opts = bvh_opts + 1;
                has_position = true;
            },
            AlgorithmOptions::DrawBoxes => {},
        }
        i = i + 1;
    }
    proof {
        assert(options@.subrange(0, n as int) =~= options@);
    }
    if bvh_opts > 1 {
        let msg: &str = if has_naive && has_plane && has_position {
            "conflicting hierarchy build modes: naive, sah-plane and sah-full"
        } else if has_naive && has_plane {
            "conflicting hierarchy build modes: naive and sah-plane"
        } else if has_naive && has_position {
            "conflicting hierarchy build modes: naive and sah-full"
        } else if has_plane && has_position {
            "conflicting hierarchy build modes: sah-plane and sah-full"
        } else if has_naive {
            "hierarchy build mode named more than once: naive"
        } else if has_plane {
            "hierarchy build mode named more than once: sah-plane"
        } else {
            "hierarchy build mode named more than once: sah-full"
        };
        Some(String::from_str(msg))
    } else {
        None
    }
}

} // verus!
