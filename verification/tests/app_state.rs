use cadenza::app::AppState;
use cadenza::library::{BrowserEntryKind, TreeNode};

fn tree_node(name: &str, kind: BrowserEntryKind) -> TreeNode {
    TreeNode {
        name: name.into(),
        path: name.into(),
        kind,
        expanded: false,
        children: Vec::new(),
    }
}

fn four_entry_state() -> AppState {
    AppState::with_tree(
        "music".to_string(),
        vec![
            tree_node("巴赫", BrowserEntryKind::Directory),
            tree_node("勃兰登堡协奏曲.ogg", BrowserEntryKind::AudioFile),
            tree_node("莫扎特", BrowserEntryKind::Directory),
            tree_node("小夜曲.ogg", BrowserEntryKind::AudioFile),
        ],
    )
}

#[test]
fn counts_only_audio_files_for_footer_totals() {
    let mut state = four_entry_state();
    state.move_down();
    assert_eq!(state.selected_index(), 1);

    assert_eq!(state.audio_file_count(), 2);
}

#[test]
fn counts_selected_audio_position_without_including_directories() {
    let mut state = four_entry_state();
    state.move_down();
    state.move_down();
    state.move_down();
    assert_eq!(state.selected_index(), 3);

    assert_eq!(state.selected_audio_position(), Some(2));
}

#[test]
fn selected_directory_has_no_audio_position() {
    let state = four_entry_state();
    assert_eq!(state.selected_audio_position(), None);
}

#[test]
fn track_count_state_has_no_lines() {
    let mut state = AppState::with_track_count(3);
    assert!(state.entries().is_empty());
    assert!(state.selected_entry().is_none());
    state.move_down();
    state.move_down();
    state.move_down();
    assert_eq!(state.selected_index(), 2);
    state.move_up();
    assert_eq!(state.selected_index(), 1);
}

#[test]
fn now_playing_path_round_trips() {
    let mut state = four_entry_state();
    assert_eq!(state.now_playing_path(), None);
    state.set_now_playing(Some("music/小夜曲.ogg".to_string()));
    assert_eq!(state.now_playing_path(), Some("music/小夜曲.ogg"));
    state.set_now_playing(None);
    assert_eq!(state.now_playing_path(), None);
}
