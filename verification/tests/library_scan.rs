use cadenza::library::{
    BrowserEntryKind, ListedEntry, build_tree, expand_first_level, flatten_tree, is_hidden_name,
    scan_entries, scan_library,
};

fn dir(parent: &str, name: &str, children: Vec<ListedEntry>) -> ListedEntry {
    ListedEntry {
        name: name.to_string(),
        path: format!("{parent}/{name}"),
        is_dir: true,
        children,
    }
}

fn file(parent: &str, name: &str) -> ListedEntry {
    ListedEntry {
        name: name.to_string(),
        path: format!("{parent}/{name}"),
        is_dir: false,
        children: Vec::new(),
    }
}

#[test]
fn filters_out_hidden_and_unsupported_files() {
    let root = "/tmp/library";
    let visible = format!("{root}/巴赫");
    let hidden = format!("{root}/.cache");
    let listing = vec![
        dir(
            root,
            "巴赫",
            vec![
                file(&visible, "托卡塔与赋格.ogg"),
                file(&visible, ".草稿.mp3"),
                file(&visible, "notes.txt"),
            ],
        ),
        dir(root, ".cache", vec![file(&hidden, "ghost.ogg")]),
    ];

    let entries = scan_entries(&listing);
    let names = entries.iter().map(|entry| entry.name.as_str()).collect::<Vec<_>>();

    assert!(!names.contains(&".cache"));
    assert!(!names.contains(&".草稿.mp3"));
    assert!(!names.contains(&"notes.txt"));
}

#[test]
fn keeps_directories_and_supported_audio_files() {
    let root = "/tmp/library";
    let listing = vec![file(root, "月光奏鸣曲.ogg"), dir(root, "巴赫", Vec::new())];

    let entries = scan_entries(&listing);

    assert_eq!(entries.len(), 2);
    assert_eq!(entries[0].name, "巴赫");
    assert_eq!(entries[0].kind, BrowserEntryKind::Directory);
    assert_eq!(entries[1].name, "月光奏鸣曲.ogg");
    assert_eq!(entries[1].kind, BrowserEntryKind::AudioFile);
}

#[test]
fn tree_puts_directories_first_then_names_in_order() {
    let root = "m";
    let listing = vec![
        file(root, "b.ogg"),
        dir(root, "z", Vec::new()),
        file(root, "a.flac"),
        dir(root, "c", vec![file("m/c", "y.wav"), file("m/c", "x.mp3")]),
    ];

    let mut tree = build_tree(&listing);
    let names = tree.iter().map(|node| node.name.as_str()).collect::<Vec<_>>();
    assert_eq!(names, vec!["c", "z", "a.flac", "b.ogg"]);
    assert!(tree.iter().all(|node| !node.expanded));

    expand_first_level(&mut tree);
    let entries = flatten_tree(&tree);
    let lines = entries
        .iter()
        .map(|entry| (entry.name.as_str(), entry.depth))
        .collect::<Vec<_>>();
    assert_eq!(
        lines,
        vec![("c", 0), ("x.mp3", 1), ("y.wav", 1), ("z", 0), ("a.flac", 0), ("b.ogg", 0)]
    );
}

#[test]
fn hidden_names_start_with_a_dot() {
    assert!(is_hidden_name(".cache"));
    assert!(!is_hidden_name("cache."));
    assert!(!is_hidden_name(""));
}

#[test]
fn library_tracks_are_sorted_by_path_with_composer_and_title() {
    let root = "/music";
    let listing = vec![
        dir(
            root,
            "Bach",
            vec![
                file("/music/Bach", "Toccata.flac"),
                dir("/music/Bach", "Organ", vec![file("/music/Bach/Organ", "Fugue.ogg")]),
                file("/music/Bach", ".draft.ogg"),
            ],
        ),
        file(root, "Intro.mp3"),
        file(root, "cover.jpg"),
    ];

    let tracks = scan_library(&listing);
    let summary = tracks
        .iter()
        .map(|t| (t.composer.as_str(), t.title.as_str(), t.path.as_str()))
        .collect::<Vec<_>>();

    assert_eq!(
        summary,
        vec![
            ("Bach", "Fugue", "/music/Bach/Organ/Fugue.ogg"),
            ("Bach", "Toccata", "/music/Bach/Toccata.flac"),
            ("Intro.mp3", "Intro", "/music/Intro.mp3"),
        ]
    );
}
