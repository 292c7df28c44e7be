//! Packs decoded video frames into square texture atlases, encodes them as
//! block-compressed textures, and patches fixed-width identifier tokens and
//! 4-byte little-endian timing markers inside opaque binary template buffers
//! without ever changing a buffer's length.

use vstd::prelude::*;
use vstd::string::StringExecFns;

pub mod grid;
pub mod identifier;
pub mod marker;
pub mod patch;
pub mod raster;

verus! {

/// Progress report handed to a caller-supplied sink: `current` discrete steps
/// done out of `max`.
pub struct DownloadProgress {
    pub current: usize,
    pub max: usize,
}

/// Names of the plugin records that the generated editor script copies.
pub struct ScriptInfo {
    pub esp_name: String,
    pub tv_record: String,
    pub pr_record: String,
    pub di_esp_name: String,
}

/// What one video conversion produced: how many atlases, the hold duration
/// of the final atlas in tenths of a second (its frame count at the 10 fps
/// baseline), and which audio file accompanies the video.
pub struct ConversionResult {
    pub grid_count: u8,
    pub hold_tenths: usize,
    pub audio_name: String,
}

/// The audio file name recorded for a video: the compressed name when
/// re-encoding produced output, else the uncompressed original.
pub fn select_audio_name(video_identifier: &str, xwm_exists: bool) -> (r: String)
    ensures
        xwm_exists ==> r@ == video_identifier@ + ".xwm"@,
        !xwm_exists ==> r@ == video_identifier@ + ".wav"@,
{
    let base = String::from_str(video_identifier);
    if xwm_exists {
        base.concat(".xwm")
    } else {
        base.concat(".wav")
    }
}

/// Packs a grid plan and the audio outcome into the result of one video's
/// conversion.
pub fn make_conversion_result(
    plan: &grid::GridPlan,
    video_identifier: &str,
    xwm_exists: bool,
) -> (r: ConversionResult)
    requires
        plan.grid_count <= 255,
    ensures
        r.grid_count == plan.grid_count,
        r.hold_tenths == plan.last_grid_frames,
        xwm_exists ==> r.audio_name@ == video_identifier@ + ".xwm"@,
        !xwm_exists ==> r.audio_name@ == video_identifier@ + ".wav"@,
{
    ConversionResult {
        grid_count: plan.grid_count as u8,
        hold_tenths: plan.last_grid_frames,
        audio_name: select_audio_name(video_identifier, xwm_exists),
    }
}

/// Where a mod's audio files are persisted.
pub fn audio_dir_path(mod_identifier: &str) -> (r: String)
    ensures
        r@ == "output/Sound/Videos/"@ + mod_identifier@,
{
    String::from_str("output/Sound/Videos/").concat(mod_identifier)
}

/// Where one video's compressed textures are persisted.
pub fn grids_dir_path(mod_identifier: &str, video_identifier: &str) -> (r: String)
    ensures
        r@ == "output/textures/Videos/"@ + mod_identifier@ + "/"@ + video_identifier@,
{
    String::from_str("output/textures/Videos/").concat(mod_identifier).concat("/").concat(
        video_identifier,
    )
}

/// Total number of progress steps for a batch: three per video when aspect
/// ratio normalization is requested, two otherwise.
pub fn progress_total(video_count: usize, keep_aspect_ratio: bool) -> (r: usize)
    requires
        video_count <= usize::MAX / 3,
    ensures
        r == video_count * (if keep_aspect_ratio { 3int } else { 2int }),
{
    if keep_aspect_ratio {
        video_count * 3
    } else {
        video_count * 2
    }
}

} // verus!
