use autovideo::grid::plan_grids;
use autovideo::grid::uses_low_grid_template;
use autovideo::grid::ConvertError;
use autovideo::audio_dir_path;
use autovideo::grids_dir_path;
use autovideo::make_conversion_result;
use autovideo::progress_total;
use autovideo::select_audio_name;

#[test]
fn three_hundred_frames_fill_two_atlases() {
    let plan = plan_grids(300, 10).unwrap();
    assert_eq!(plan.grid_count, 2);
    assert_eq!(plan.last_grid_frames, 44);
}

#[test]
fn nine_frames_fill_one_atlas_with_hold_of_nine_tenths() {
    let plan = plan_grids(9, 10).unwrap();
    assert_eq!(plan.grid_count, 1);
    assert_eq!(plan.last_grid_frames, 9);
    assert!((plan.last_grid_frames as f32 / 10.0 - 0.9).abs() < 1e-6);
}

#[test]
fn exact_capacity_boundaries() {
    let plan = plan_grids(256, 10).unwrap();
    assert_eq!(plan.grid_count, 1);
    assert_eq!(plan.last_grid_frames, 256);
    let plan = plan_grids(257, 10).unwrap();
    assert_eq!(plan.grid_count, 2);
    assert_eq!(plan.last_grid_frames, 1);
    let plan = plan_grids(1, 10).unwrap();
    assert_eq!(plan.grid_count, 1);
    assert_eq!(plan.last_grid_frames, 1);
}

#[test]
fn full_twenty_four_atlases_are_accepted() {
    let plan = plan_grids(24 * 256, 10).unwrap();
    assert_eq!(plan.grid_count, 24);
    assert_eq!(plan.last_grid_frames, 256);
    assert!(plan_grids(24 * 256, 20).is_ok());
}

#[test]
fn one_frame_past_capacity_is_rejected() {
    match plan_grids(24 * 256 + 1, 10) {
        Err(ConvertError::CapacityExceeded { grid_count, max_duration_tenths }) => {
            assert_eq!(grid_count, 25);
            // 614.4 seconds at the 10 fps baseline.
            assert_eq!(max_duration_tenths, 6144);
        }
        Ok(_) => panic!("a video past capacity must be rejected"),
    }
}

#[test]
fn capacity_threshold_is_framerate_independent_but_hint_scales() {
    // The same frame count fails at every frame rate; only the duration
    // hint changes.
    match plan_grids(24 * 256 + 1, 20) {
        Err(ConvertError::CapacityExceeded { grid_count, max_duration_tenths }) => {
            assert_eq!(grid_count, 25);
            // Half the duration of the 10 fps hint: 307.2 seconds.
            assert_eq!(max_duration_tenths, 3072);
        }
        Ok(_) => panic!("the threshold must not depend on the frame rate"),
    }
}

#[test]
fn template_variant_follows_atlas_count() {
    assert!(uses_low_grid_template(1));
    assert!(uses_low_grid_template(8));
    assert!(!uses_low_grid_template(9));
    assert!(!uses_low_grid_template(24));
}

#[test]
fn progress_steps_per_batch() {
    assert_eq!(progress_total(3, true), 9);
    assert_eq!(progress_total(3, false), 6);
    assert_eq!(progress_total(0, true), 0);
}

#[test]
fn audio_name_follows_reencoding_outcome() {
    assert_eq!(select_audio_name("intro", true), "intro.xwm");
    assert_eq!(select_audio_name("intro", false), "intro.wav");
}

#[test]
fn conversion_result_collects_plan_and_audio() {
    let plan = plan_grids(300, 10).unwrap();
    let result = make_conversion_result(&plan, "intro", false);
    assert_eq!(result.grid_count, 2);
    assert_eq!(result.hold_tenths, 44);
    assert_eq!(result.audio_name, "intro.wav");
}

#[test]
fn output_paths_are_keyed_by_identifiers() {
    assert_eq!(audio_dir_path("MyMod"), "output/Sound/Videos/MyMod");
    assert_eq!(
        grids_dir_path("MyMod", "Vid01"),
        "output/textures/Videos/MyMod/Vid01"
    );
}
