//! Grid planning: partitioning an ordered frame sequence into bounded-size
//! atlases.
//!
//! Frames are grouped into consecutive chunks of up to 256, one atlas per
//! chunk, preserving decode order. A square atlas holds its chunk in a
//! 16 x 16 cell layout. At most 24 atlases may be produced; a longer input
//! is rejected outright. The final, possibly partial, chunk determines a
//! hold duration expressed at a fixed 10 frames-per-second baseline.

use vstd::prelude::*;

verus! {

/// Frames per atlas: a full 16 x 16 grid of cells.
pub const GRID_CAPACITY: usize = 256;

/// Cells per atlas row (and per column).
pub const CELLS_PER_ROW: usize = 16;

/// Hard ceiling on the number of atlases for one video.
pub const MAX_GRIDS: usize = 24;

/// Baseline frame rate in which hold durations are expressed: one frame
/// equals one tenth of a second.
pub const BASELINE_FPS: usize = 10;

/// Number of atlases needed for `frame_count` frames: the ceiling of
/// `frame_count / 256`.
pub open spec fn grid_count_spec(frame_count: nat) -> nat {
    ((frame_count + GRID_CAPACITY - 1) / (GRID_CAPACITY as int)) as nat
}

/// The computed layout for one video: how many atlases, and how many frames
/// the final (possibly partial) atlas holds.
pub struct GridPlan {
    /// Number of atlases, at least 1 and at most 24.
    pub grid_count: usize,
    /// Frames in the final atlas, at least 1 and at most 256. Because hold
    /// durations are expressed at the 10 fps baseline, this is also the
    /// hold duration of the final atlas in tenths of a second.
    pub last_grid_frames: usize,
}

/// Why a conversion cannot proceed.
#[derive(Debug)]
pub enum ConvertError {
    /// The video needs more than 24 atlases. `grid_count` is the number it
    /// would need; `max_duration_tenths` is the longest supported duration
    /// at the requested frame rate, in tenths of a second, for a
    /// human-readable hint.
    CapacityExceeded { grid_count: usize, max_duration_tenths: usize },
}

/// `grid_count_spec` is exactly the ceiling of `frame_count / 256`: it is
/// the least atlas count whose combined capacity covers every frame.
pub proof fn lemma_grid_count_is_ceiling(frame_count: nat)
    requires
        frame_count >= 1,
    ensures
        grid_count_spec(frame_count) * 256 >= frame_count,
        (grid_count_spec(frame_count) - 1) * 256 < frame_count,
        grid_count_spec(frame_count) >= 1,
{
    let c = grid_count_spec(frame_count) as int;
    assert(c == (frame_count + 255) / 256);
    assert(c * 256 >= frame_count && (c - 1) * 256 < frame_count) by (nonlinear_arith)
        requires
            c == (frame_count + 255) / 256,
            frame_count >= 1,
    ;
}

/// Whether a frame count fits under the atlas ceiling does not depend on
/// the frame rate: the threshold is frame-count based; only the duration
/// reported in the rejection hint scales with the frame rate.
pub proof fn lemma_capacity_threshold_is_framerate_independent(frame_count: nat)
    ensures
        (grid_count_spec(frame_count) <= MAX_GRIDS) == (frame_count <= 6144),
{
    if frame_count <= 6144 {
        assert((frame_count + 255) / 256 <= 24);
    } else {
        assert((frame_count + 255) / 256 >= 25);
    }
}

/// Splits `frame_count` frames (at the given `framerate`) into atlases.
/// Succeeds exactly when the ceiling of `frame_count / 256` is at most 24;
/// otherwise reports the capacity error with the longest supported duration
/// at `framerate`, in tenths of a second.
pub fn plan_grids(frame_count: usize, framerate: u32) -> (r: Result<GridPlan, ConvertError>)
    requires
        frame_count >= 1,
        framerate >= 1,
    ensures
        r is Ok <==> grid_count_spec(frame_count as nat) <= MAX_GRIDS,
        match r {
            Ok(plan) => {
                &&& plan.grid_count == grid_count_spec(frame_count as nat)
                &&& 1 <= plan.grid_count <= MAX_GRIDS
                &&& plan.last_grid_frames == frame_count - (plan.grid_count - 1) * 256
                &&& 1 <= plan.last_grid_frames <= GRID_CAPACITY
            },
            Err(e) => {
                &&& e matches ConvertError::CapacityExceeded { grid_count, max_duration_tenths }
                    && grid_count == grid_count_spec(frame_count as nat) && max_duration_tenths
                    == 61440int / (framerate as int)
            },
        },
{
    proof {
        lemma_grid_count_is_ceiling(frame_count as nat);
    }
    let grid_count = (frame_count - 1) / 256 + 1;
    proof {
        assert(grid_count == grid_count_spec(frame_count as nat)) by (nonlinear_arith)
            requires
                frame_count >= 1,
                grid_count == (frame_count - 1) / 256 + 1,
        ;
    }
    if grid_count > 24 {
        // 24 atlases of 256 frames give 6144 frames; at `framerate` frames
        // per second that is 61440 / framerate tenths of a second.
        let max_duration_tenths = 61440 / (framerate as usize);
        return Err(ConvertError::CapacityExceeded { grid_count, max_duration_tenths });
    }
    let last_grid_frames = frame_count - (grid_count - 1) * 256;
    proof {
        assert((grid_count - 1) * 256 < frame_count && frame_count - (grid_count - 1) * 256
            <= 256) by (nonlinear_arith)
            requires
                frame_count >= 1,
                grid_count == (frame_count - 1) / 256 + 1,
        ;
    }
    Ok(GridPlan { grid_count, last_grid_frames })
}

/// Which template variant a video needs: templates come in a small variant
/// covering up to 8 atlases and a large one covering up to 24, selected by
/// the atlas count alone.
pub fn uses_low_grid_template(grid_count: u8) -> (r: bool)
    ensures
        r <==> grid_count <= 8,
{
    grid_count <= 8
}

} // verus!
