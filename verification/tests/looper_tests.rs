use cam_granular::looper::{push_capped, SamplerState, SpaceAction, MAX_SAMPLE_LEN};
use std::collections::VecDeque;

#[test]
fn record_commit_and_restart() {
    let mut st: SamplerState<f32> = SamplerState::new();
    assert!(!st.recording);
    assert!(matches!(st.press_space(), SpaceAction::Started));
    assert!(st.recording);
    st.sample.extend_from_slice(&[0.1, 0.2, 0.3]);
    assert!(matches!(st.press_space(), SpaceAction::Stopped));
    assert!(!st.recording);
    assert!(st.sample.is_empty());
    assert_eq!(st.layers.len(), 1);
    assert_eq!(st.layers[0].buffer, vec![0.1, 0.2, 0.3]);
    st.remix_with(vec![0.5, 0.5, 0.5]);
    assert!(st.has_sample);
    assert_eq!(st.sample_version, 1);
    // starting again clears the previous layers
    assert!(matches!(st.press_space(), SpaceAction::Started));
    assert!(st.layers.is_empty());
    assert!(!st.has_sample);
    assert_eq!(st.sample_version, 1);
}

#[test]
fn empty_take_adds_no_layer() {
    let mut st: SamplerState<f32> = SamplerState::new();
    st.press_space();
    st.press_space();
    assert!(st.layers.is_empty());
    st.remix_with(vec![1.0]);
    assert!(!st.has_sample);
    assert!(st.mixed_buffer.is_empty());
    assert_eq!(st.sample_version, 0);
}

#[test]
fn longest_layer_is_the_mix_length() {
    let mut st: SamplerState<f32> = SamplerState::new();
    assert_eq!(st.longest_layer(), 0);
    st.press_space();
    st.sample.extend_from_slice(&[0.0; 5]);
    st.press_space();
    assert_eq!(st.longest_layer(), 5);
}

#[test]
fn record_room_respects_state_and_limit() {
    let mut st: SamplerState<f32> = SamplerState::new();
    assert_eq!(st.record_room(512), 0);
    st.press_space();
    assert_eq!(st.record_room(512), 512);
    st.sample.resize(MAX_SAMPLE_LEN - 100, 0.0);
    assert_eq!(st.record_room(512), 100);
    st.sample.resize(MAX_SAMPLE_LEN, 0.0);
    assert_eq!(st.record_room(512), 0);
}

#[test]
fn capture_queue_drops_oldest() {
    let mut q: VecDeque<f32> = VecDeque::new();
    for i in 0..5 {
        push_capped(&mut q, i as f32, 3);
    }
    assert_eq!(q.iter().copied().collect::<Vec<_>>(), vec![2.0, 3.0, 4.0]);
}

#[test]
fn empty_remix_at_last_version_is_allowed() {
    let mut st: SamplerState<f32> = SamplerState::new();
    st.sample_version = u64::MAX;
    st.remix_with(vec![1.0]);
    assert!(!st.has_sample);
    assert_eq!(st.sample_version, u64::MAX);
}
