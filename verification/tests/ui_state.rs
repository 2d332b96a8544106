use cadenza::app::{AppState, BrowserAction};
use cadenza::library::ListedEntry;

fn dir(parent: &str, name: &str, children: Vec<ListedEntry>) -> ListedEntry {
    ListedEntry {
        name: name.to_string(),
        path: format!("{parent}/{name}"),
        is_dir: true,
        children,
    }
}

fn file(parent: &str, name: &str) -> ListedEntry {
    ListedEntry {
        name: name.to_string(),
        path: format!("{parent}/{name}"),
        is_dir: false,
        children: Vec::new(),
    }
}

fn names(app: &AppState) -> Vec<&str> {
    app.entries().iter().map(|entry| entry.name.as_str()).collect()
}

#[test]
fn selection_moves_with_navigation_commands() {
    let listing = vec![file("music", "月光奏鸣曲.ogg"), dir("music", "巴赫", Vec::new())];

    let mut app = AppState::new("music".to_string(), &listing);

    app.move_down();
    assert_eq!(app.selected_index(), 1);

    app.move_up();
    assert_eq!(app.selected_index(), 0);
}

#[test]
fn selection_stays_bounded() {
    let listing = vec![file("music", "月光奏鸣曲.ogg")];
    let mut app = AppState::new("music".to_string(), &listing);

    app.move_up();
    assert_eq!(app.selected_index(), 0);

    app.move_down();
    assert_eq!(app.selected_index(), 0);
}

#[test]
fn startup_expands_the_first_level_only() {
    let listing = vec![dir(
        "music",
        "巴赫",
        vec![
            file("music/巴赫", "托卡塔.ogg"),
            dir("music/巴赫", "管风琴", vec![file("music/巴赫/管风琴", "赋格.ogg")]),
        ],
    )];

    let app = AppState::new("music".to_string(), &listing);

    assert_eq!(names(&app), vec!["巴赫", "管风琴", "托卡塔.ogg"]);
    assert!(app.entries()[0].expanded);
    assert!(!app.entries()[1].expanded);
    assert_eq!(app.entries()[1].depth, 1);
}

fn organ_listing() -> Vec<ListedEntry> {
    vec![dir(
        "music",
        "巴赫",
        vec![dir("music/巴赫", "管风琴", vec![file("music/巴赫/管风琴", "赋格.ogg")])],
    )]
}

#[test]
fn enter_toggles_directory_expansion() {
    let mut app = AppState::new("music".to_string(), &organ_listing());

    assert_eq!(app.activate_selected(), BrowserAction::ToggledDirectory);
    assert_eq!(names(&app), vec!["巴赫"]);

    assert_eq!(app.activate_selected(), BrowserAction::ToggledDirectory);
    assert_eq!(names(&app), vec!["巴赫", "管风琴"]);
}

#[test]
fn enter_plays_audio_files() {
    let listing = vec![dir("music", "巴赫", Vec::new()), file("music", "月光奏鸣曲.ogg")];

    let mut app = AppState::new("music".to_string(), &listing);
    app.move_down();
    assert_eq!(
        app.activate_selected(),
        BrowserAction::PlayFile("music/月光奏鸣曲.ogg".to_string())
    );
}

#[test]
fn left_on_child_moves_selection_to_parent() {
    let mut app = AppState::new("music".to_string(), &organ_listing());
    app.move_down();
    assert_eq!(app.activate_selected(), BrowserAction::ToggledDirectory);
    app.move_down();
    assert_eq!(app.selected_entry().unwrap().name, "赋格.ogg");

    assert!(app.move_left());
    assert_eq!(app.selected_entry().unwrap().name, "管风琴");

    assert!(app.move_left());
    assert_eq!(app.selected_entry().unwrap().name, "管风琴");

    assert!(app.move_left());
    assert_eq!(app.selected_entry().unwrap().name, "巴赫");
}

#[test]
fn right_unfolds_and_left_folds_keeping_the_selection() {
    let mut app = AppState::new("music".to_string(), &organ_listing());
    app.move_down();
    assert_eq!(app.selected_entry().unwrap().name, "管风琴");

    assert!(app.move_right());
    assert_eq!(names(&app), vec!["巴赫", "管风琴", "赋格.ogg"]);
    assert_eq!(app.selected_index(), 1);
    assert!(!app.move_right());

    assert!(app.move_left());
    assert_eq!(names(&app), vec!["巴赫", "管风琴"]);
    assert_eq!(app.selected_index(), 1);
}

#[test]
fn folding_an_ancestor_moves_the_selection_into_bounds() {
    let mut app = AppState::new("music".to_string(), &organ_listing());
    app.move_down();
    app.move_right();
    app.move_down();
    assert_eq!(app.selected_entry().unwrap().name, "赋格.ogg");
    app.move_up();
    app.move_up();
    assert_eq!(app.activate_selected(), BrowserAction::ToggledDirectory);
    assert_eq!(names(&app), vec!["巴赫"]);
    assert_eq!(app.selected_index(), 0);
}

#[test]
fn enter_on_empty_library_does_nothing() {
    let mut app = AppState::new("music".to_string(), &Vec::new());
    assert_eq!(app.activate_selected(), BrowserAction::NoAction);
    assert!(!app.move_left());
    assert!(!app.move_right());
}
