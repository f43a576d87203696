use cam_granular::control::{sampling_step, stalled, variant_for, CameraWatchdog, Variant, CAM_RESTART_EVERY};

#[test]
fn fingers_pick_presets() {
    assert_eq!(variant_for(0), Variant::Bass);
    assert_eq!(variant_for(1), Variant::Lead);
    assert_eq!(variant_for(2), Variant::Pad);
    assert_eq!(variant_for(3), Variant::Keys);
    assert_eq!(variant_for(4), Variant::Haze);
    assert_eq!(variant_for(9), Variant::Haze);
}

#[test]
fn preset_labels_and_indices() {
    let all = [Variant::Bass, Variant::Lead, Variant::Pad, Variant::Keys, Variant::Haze];
    let labels: Vec<&str> = all.iter().map(|v| v.label()).collect();
    assert_eq!(labels, vec!["Bass", "Lead", "Pad", "Keys", "Haze"]);
    let osc: Vec<u8> = all.iter().map(|v| v.osc_type()).collect();
    assert_eq!(osc, vec![0, 1, 3, 2, 1]);
    let flt: Vec<u8> = all.iter().map(|v| v.filter_type()).collect();
    assert_eq!(flt, vec![0, 0, 1, 0, 2]);
}

#[test]
fn stride_follows_frame_width() {
    assert_eq!(sampling_step(0), 4);
    assert_eq!(sampling_step(320), 4);
    assert_eq!(sampling_step(640), 8);
    assert_eq!(sampling_step(1919), 23);
}

#[test]
fn watchdog_restarts_every_thirty_failures() {
    let mut w = CameraWatchdog::new();
    let mut restarts = vec![];
    for i in 1..=65u32 {
        if w.frame_error() {
            restarts.push(i);
        }
    }
    assert_eq!(restarts, vec![CAM_RESTART_EVERY, 2 * CAM_RESTART_EVERY]);
    w.frame_ok();
    assert_eq!(w.errors, 0);
    assert!(!w.frame_error());
}

#[test]
fn stall_after_ten_seconds() {
    assert!(!stalled(10_000_000_000));
    assert!(stalled(10_000_000_001));
    assert!(!stalled(0));
}

use cam_granular::frames::copy_to_output;

#[test]
fn stereo_output_is_interleaved() {
    let mut out = vec![0.0f32; 6];
    copy_to_output(&mut out, &[1.0, 2.0, 3.0], &[-1.0, -2.0, -3.0], 2);
    assert_eq!(out, vec![1.0, -1.0, 2.0, -2.0, 3.0, -3.0]);
}

#[test]
fn mono_output_takes_the_left_channel() {
    let mut out = vec![9.0f32; 3];
    copy_to_output(&mut out, &[1.0, 2.0, 3.0], &[], 1);
    assert_eq!(out, vec![1.0, 2.0, 3.0]);
}

#[test]
fn other_layouts_fill_only_the_first_frames() {
    let mut out = vec![9.0f32; 8];
    copy_to_output(&mut out, &[1.0, 2.0], &[5.0, 6.0], 4);
    assert_eq!(out, vec![1.0, 2.0, 9.0, 9.0, 9.0, 9.0, 9.0, 9.0]);
}
