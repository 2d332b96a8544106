use cadenza::app::{AppState, PlaybackState};
use cadenza::library::ListedEntry;
use cadenza::session::{
    KeyInput, UiCommand, UiSession, VisualizerStep, key_from_char, visualizer_step,
};

fn dir(parent: &str, name: &str, children: Vec<ListedEntry>) -> ListedEntry {
    ListedEntry {
        name: name.to_string(),
        path: format!("{parent}/{name}"),
        is_dir: true,
        children,
    }
}

fn file(parent: &str, name: &str) -> ListedEntry {
    ListedEntry {
        name: name.to_string(),
        path: format!("{parent}/{name}"),
        is_dir: false,
        children: Vec::new(),
    }
}

fn library() -> Vec<ListedEntry> {
    vec![
        dir(
            "music",
            "bach",
            vec![dir("music/bach", "organ", vec![file("music/bach/organ", "fugue.ogg")])],
        ),
        file("music", "nocturne.mp3"),
    ]
}

#[test]
fn characters_map_to_keys() {
    assert_eq!(key_from_char('q'), KeyInput::Quit);
    assert_eq!(key_from_char('j'), KeyInput::Down);
    assert_eq!(key_from_char('k'), KeyInput::Up);
    assert_eq!(key_from_char('h'), KeyInput::Left);
    assert_eq!(key_from_char('l'), KeyInput::Right);
    assert_eq!(key_from_char(' '), KeyInput::Space);
    assert_eq!(key_from_char('x'), KeyInput::Other);
}

#[test]
fn quit_and_other_keys_change_nothing() {
    let mut state = AppState::new("music".to_string(), &library());
    let mut session = UiSession::new();

    assert_eq!(session.handle_key(&mut state, KeyInput::Quit, false), UiCommand::Quit);
    assert_eq!(session.handle_key(&mut state, KeyInput::Other, false), UiCommand::Continue);
    assert_eq!(state.selected_index(), 0);
    assert_eq!(session.playback, PlaybackState::Stopped);
    assert_eq!(session.status_message, "");
}

#[test]
fn moving_right_unfolds_and_reports_the_line() {
    let mut state = AppState::new("music".to_string(), &library());
    let mut session = UiSession::new();

    assert_eq!(session.handle_key(&mut state, KeyInput::Down, false), UiCommand::Continue);
    assert_eq!(state.selected_index(), 1);
    assert_eq!(state.entries()[1].name, "organ");

    assert_eq!(session.handle_key(&mut state, KeyInput::Right, false), UiCommand::Continue);
    assert!(state.entries()[1].expanded);
    assert_eq!(session.status_message, "browse organ");
}

#[test]
fn moving_left_from_a_file_climbs_to_its_directory() {
    let mut state = AppState::new("music".to_string(), &library());
    let mut session = UiSession::new();

    session.handle_key(&mut state, KeyInput::Down, false);
    session.handle_key(&mut state, KeyInput::Right, false);
    session.handle_key(&mut state, KeyInput::Down, false);
    assert_eq!(state.entries()[2].name, "fugue.ogg");

    session.handle_key(&mut state, KeyInput::Left, false);
    assert_eq!(state.selected_index(), 1);
    assert_eq!(session.status_message, "browse organ");
}

#[test]
fn left_at_the_top_level_keeps_the_status() {
    let mut state = AppState::new("music".to_string(), &library());
    let mut session = UiSession::new();

    session.handle_key(&mut state, KeyInput::Up, false);
    session.handle_key(&mut state, KeyInput::Left, false);
    assert!(!state.entries()[0].expanded);
    assert_eq!(session.status_message, "browse bach");

    session.handle_key(&mut state, KeyInput::Down, false);
    session.handle_key(&mut state, KeyInput::Left, false);
    assert_eq!(state.selected_index(), 1);
    assert_eq!(session.status_message, "browse bach");
}

#[test]
fn enter_on_a_file_asks_to_play_it() {
    let mut state = AppState::new("music".to_string(), &library());
    let mut session = UiSession::new();

    session.handle_key(&mut state, KeyInput::Down, false);
    session.handle_key(&mut state, KeyInput::Down, false);
    assert_eq!(state.entries()[2].name, "nocturne.mp3");

    let command = session.handle_key(&mut state, KeyInput::Enter, false);
    assert_eq!(command, UiCommand::Play("music/nocturne.mp3".to_string()));
    assert_eq!(session.status_message, "");
}

#[test]
fn enter_on_a_directory_folds_it() {
    let mut state = AppState::new("music".to_string(), &library());
    let mut session = UiSession::new();

    let command = session.handle_key(&mut state, KeyInput::Enter, false);
    assert_eq!(command, UiCommand::Continue);
    assert_eq!(state.entries().len(), 2);
    assert_eq!(session.status_message, "browse bach");
}

#[test]
fn space_without_a_player_toggles_the_shown_state() {
    let mut state = AppState::new("music".to_string(), &library());
    let mut session = UiSession::new();

    session.playback = PlaybackState::Playing;
    assert_eq!(session.handle_key(&mut state, KeyInput::Space, false), UiCommand::Continue);
    assert_eq!(session.playback, PlaybackState::Paused);

    session.playback = PlaybackState::Stopped;
    session.handle_key(&mut state, KeyInput::Space, false);
    assert_eq!(session.playback, PlaybackState::Stopped);
}

#[test]
fn space_with_a_player_asks_the_player() {
    let mut state = AppState::new("music".to_string(), &library());
    let mut session = UiSession::new();

    assert_eq!(session.handle_key(&mut state, KeyInput::Space, true), UiCommand::TogglePlayer);
    assert_eq!(session.playback, PlaybackState::Stopped);
}

#[test]
fn starting_playback_records_the_file() {
    let mut state = AppState::new("music".to_string(), &library());
    let mut session = UiSession::new();

    session.playback_started(&mut state, "music/nocturne.mp3".to_string());
    assert_eq!(session.playback, PlaybackState::Playing);
    assert_eq!(session.status_message, "playing nocturne.mp3");
    assert_eq!(state.now_playing_path(), Some("music/nocturne.mp3"));
}

#[test]
fn failures_are_reported() {
    let mut session = UiSession::new();
    session.playback = PlaybackState::Playing;

    session.pause_failed("device lost");
    assert_eq!(session.playback, PlaybackState::Playing);
    assert_eq!(session.status_message, "pause failed: device lost");

    session.playback_failed("no device");
    assert_eq!(session.playback, PlaybackState::Stopped);
    assert_eq!(session.status_message, "playback failed: no device");
}

#[test]
fn the_animation_follows_playback() {
    assert_eq!(visualizer_step(PlaybackState::Playing), VisualizerStep::Advance);
    assert_eq!(visualizer_step(PlaybackState::Paused), VisualizerStep::Hold);
    assert_eq!(visualizer_step(PlaybackState::Stopped), VisualizerStep::Clear);
}
