use cadenza::player::extract_analysis_window;

#[test]
fn extracts_recent_window_ending_at_cursor() {
    let samples = vec![0.0, 1.0, 2.0, 3.0, 4.0];
    let window = extract_analysis_window(&samples, 4, 3);

    assert_eq!(window, vec![1.0, 2.0, 3.0]);
}

#[test]
fn clamps_window_at_start_of_track() {
    let samples = vec![0.0, 1.0, 2.0];
    let window = extract_analysis_window(&samples, 1, 4);

    assert_eq!(window, vec![0.0]);
}

#[test]
fn window_is_empty_at_cursor_zero_and_clamped_past_the_end() {
    let samples = vec![0.0_f32, 1.0, 2.0];
    assert!(extract_analysis_window(&samples, 0, 4).is_empty());
    assert_eq!(extract_analysis_window(&samples, 10, 2), vec![1.0, 2.0]);
    let empty: Vec<f32> = Vec::new();
    assert!(extract_analysis_window(&empty, 3, 2).is_empty());
}
