use cadenza::app::AppState;
use cadenza::library::{BrowserEntry, ListedEntry};

fn dir(parent: &str, name: &str, children: Vec<ListedEntry>) -> ListedEntry {
    ListedEntry {
        name: name.to_string(),
        path: format!("{parent}/{name}"),
        is_dir: true,
        children,
    }
}

fn file(parent: &str, name: &str) -> ListedEntry {
    ListedEntry {
        name: name.to_string(),
        path: format!("{parent}/{name}"),
        is_dir: false,
        children: Vec::new(),
    }
}

fn library() -> Vec<ListedEntry> {
    vec![
        dir(
            "music",
            "bach",
            vec![
                dir("music/bach", "organ", vec![file("music/bach/organ", "fugue.ogg")]),
                file("music/bach", "toccata.flac"),
            ],
        ),
        file("music", "nocturne.mp3"),
    ]
}

fn shown(state: &AppState) -> (usize, Vec<BrowserEntry>, Option<String>) {
    (
        state.selected_index(),
        state.entries().to_vec(),
        state.now_playing_path().map(|p| p.to_string()),
    )
}

#[test]
fn move_up_undoes_move_down() {
    let mut state = AppState::new("music".to_string(), &library());
    state.move_down();
    let before = shown(&state);

    state.move_down();
    state.move_up();

    assert_eq!(shown(&state), before);
}

#[test]
fn enter_twice_on_a_directory_restores_the_browser() {
    let mut state = AppState::new("music".to_string(), &library());
    state.move_down();
    state.set_now_playing(Some("music/nocturne.mp3".to_string()));
    let before = shown(&state);

    state.activate_selected();
    assert_ne!(shown(&state), before);
    state.activate_selected();

    assert_eq!(shown(&state), before);
}

#[test]
fn left_after_right_restores_the_browser() {
    let mut state = AppState::new("music".to_string(), &library());
    state.move_down();
    let before = shown(&state);

    assert!(state.move_right());
    assert!(state.move_left());

    assert_eq!(shown(&state), before);
}

#[test]
fn setting_the_playing_file_keeps_selection_and_lines() {
    let mut state = AppState::new("music".to_string(), &library());
    state.move_down();
    let (index, entries, _) = shown(&state);

    state.set_now_playing(Some("music/nocturne.mp3".to_string()));

    assert_eq!(state.selected_index(), index);
    assert_eq!(state.entries(), entries.as_slice());
    assert_eq!(state.now_playing_path(), Some("music/nocturne.mp3"));
}
