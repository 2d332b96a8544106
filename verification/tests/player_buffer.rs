use cadenza::app::PlaybackState;
use cadenza::player::{PlaybackShared, progress_from_shared, write_output_data};

fn playback_shared() -> PlaybackShared<f32> {
    PlaybackShared {
        playback_samples: vec![0.25, 0.5, 0.75, 1.0],
        analysis_samples: vec![0.1, 0.2],
        output_channels: 2,
        sample_rate: 48_000,
        playback_cursor: 0,
        analysis_cursor: 0,
        total_playback_frames: Some(2),
        decode_finished: true,
        playback_state: PlaybackState::Playing,
    }
}

#[test]
fn writes_samples_and_advances_cursors() {
    let mut shared = playback_shared();
    let mut output = vec![0.0_f32; 2];

    write_output_data(&mut output, &mut shared, 0.0);

    assert_eq!(output, vec![0.25, 0.5]);
    assert_eq!(shared.playback_cursor, 2);
    assert_eq!(shared.analysis_cursor, 1);
    assert_eq!(shared.playback_state, PlaybackState::Playing);
}

#[test]
fn stops_after_samples_are_exhausted() {
    let mut shared = PlaybackShared {
        playback_samples: vec![0.25, 0.5],
        analysis_samples: vec![0.1],
        output_channels: 2,
        sample_rate: 48_000,
        playback_cursor: 0,
        analysis_cursor: 0,
        total_playback_frames: Some(1),
        decode_finished: true,
        playback_state: PlaybackState::Playing,
    };
    let mut output = vec![0.0_f32; 4];

    write_output_data(&mut output, &mut shared, 0.0);

    assert_eq!(output, vec![0.25, 0.5, 0.0, 0.0]);
    assert_eq!(shared.playback_cursor, 2);
    assert_eq!(shared.analysis_cursor, 1);
    assert_eq!(shared.playback_state, PlaybackState::Stopped);
}

#[test]
fn reports_playback_progress_from_cursor_and_sample_rate() {
    let shared = PlaybackShared {
        playback_samples: vec![0.0_f32; 48_000 * 2 * 4],
        analysis_samples: vec![],
        output_channels: 2,
        sample_rate: 48_000,
        playback_cursor: 48_000 * 2,
        analysis_cursor: 0,
        total_playback_frames: Some(48_000 * 4),
        decode_finished: true,
        playback_state: PlaybackState::Playing,
    };

    let progress = progress_from_shared(&shared, 48_000);

    assert_eq!(progress.position_secs, 1);
    assert_eq!(progress.total_secs, 4);
    assert_eq!(progress.position_frames, 48_000);
    assert_eq!(progress.total_frames, 48_000 * 4);
}

#[test]
fn stays_playing_while_waiting_for_more_decoded_audio() {
    let mut shared = PlaybackShared {
        playback_samples: vec![0.25, 0.5],
        analysis_samples: vec![0.1],
        output_channels: 2,
        sample_rate: 48_000,
        playback_cursor: 0,
        analysis_cursor: 0,
        total_playback_frames: Some(1),
        decode_finished: false,
        playback_state: PlaybackState::Playing,
    };
    let mut output = vec![0.0_f32; 4];

    write_output_data(&mut output, &mut shared, 0.0);

    assert_eq!(output, vec![0.25, 0.5, 0.0, 0.0]);
    assert_eq!(shared.playback_cursor, 2);
    assert_eq!(shared.analysis_cursor, 1);
    assert_eq!(shared.playback_state, PlaybackState::Playing);
}

#[test]
fn resumes_writing_samples_after_more_audio_is_appended() {
    let mut shared = PlaybackShared {
        playback_samples: vec![0.25, 0.5],
        analysis_samples: vec![0.1],
        output_channels: 2,
        sample_rate: 48_000,
        playback_cursor: 0,
        analysis_cursor: 0,
        total_playback_frames: Some(2),
        decode_finished: false,
        playback_state: PlaybackState::Playing,
    };
    let mut first_output = vec![0.0_f32; 4];
    write_output_data(&mut first_output, &mut shared, 0.0);

    shared.playback_samples.extend([0.75, 1.0]);
    shared.analysis_samples.push(0.2);

    let mut second_output = vec![0.0_f32; 2];
    write_output_data(&mut second_output, &mut shared, 0.0);

    assert_eq!(first_output, vec![0.25, 0.5, 0.0, 0.0]);
    assert_eq!(second_output, vec![0.75, 1.0]);
    assert_eq!(shared.playback_cursor, 4);
    assert_eq!(shared.analysis_cursor, 2);
    assert_eq!(shared.playback_state, PlaybackState::Playing);
}

#[test]
fn reports_progress_against_known_track_length_while_buffer_grows() {
    let shared = PlaybackShared {
        playback_samples: vec![0.0_f32; 48_000 * 2 * 2],
        analysis_samples: vec![],
        output_channels: 2,
        sample_rate: 48_000,
        playback_cursor: 48_000 * 2,
        analysis_cursor: 0,
        total_playback_frames: Some(48_000 * 4),
        decode_finished: false,
        playback_state: PlaybackState::Playing,
    };

    let progress = progress_from_shared(&shared, 48_000);

    assert_eq!(progress.position_secs, 1);
    assert_eq!(progress.total_secs, 4);
}

#[test]
fn paused_output_is_silent_and_keeps_the_cursor() {
    let mut shared = playback_shared();
    shared.playback_state = PlaybackState::Paused;
    let mut output = vec![9.0_f32; 3];

    write_output_data(&mut output, &mut shared, 0.0);

    assert_eq!(output, vec![0.0, 0.0, 0.0]);
    assert_eq!(shared.playback_cursor, 0);
    assert_eq!(shared.analysis_cursor, 0);
    assert_eq!(shared.playback_state, PlaybackState::Paused);
}

#[test]
fn partial_last_frame_copies_what_fits() {
    let mut shared = playback_shared();
    let mut output = vec![0.0_f32; 3];

    write_output_data(&mut output, &mut shared, 0.0);

    assert_eq!(output, vec![0.25, 0.5, 0.75]);
    assert_eq!(shared.playback_cursor, 4);
    assert_eq!(shared.analysis_cursor, 2);
    assert_eq!(shared.playback_state, PlaybackState::Playing);
}

#[test]
fn progress_uses_buffered_frames_without_known_length_and_caps_position() {
    let shared = PlaybackShared {
        playback_samples: vec![0.0_f32; 10],
        analysis_samples: vec![],
        output_channels: 2,
        sample_rate: 0,
        playback_cursor: 20,
        analysis_cursor: 0,
        total_playback_frames: None,
        decode_finished: false,
        playback_state: PlaybackState::Playing,
    };

    let progress = progress_from_shared(&shared, 0);

    assert_eq!(progress.total_frames, 5);
    assert_eq!(progress.position_frames, 5);
    assert_eq!(progress.total_secs, 5);
    assert_eq!(progress.position_secs, 5);
}

#[test]
fn a_cursor_past_the_buffer_writes_silence_and_stops() {
    let mut shared = PlaybackShared { playback_cursor: 6, ..playback_shared() };
    let mut output = vec![0.5_f32; 4];

    write_output_data(&mut output, &mut shared, 0.0);

    assert_eq!(output, vec![0.0, 0.0, 0.0, 0.0]);
    assert_eq!(shared.playback_cursor, 6);
    assert_eq!(shared.analysis_cursor, 0);
    assert_eq!(shared.playback_state, PlaybackState::Stopped);
}
