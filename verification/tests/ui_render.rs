use cadenza::app::{AppState, PlaybackState};
use cadenza::library::{BrowserEntry, BrowserEntryKind};
use cadenza::player::PlaybackProgress;
use cadenza::ui::{
    VisualizerCellRole, build_idle_visualizer_panel, catalog_panel_title, cell_role, column_cells,
    footer_text, format_clock, now_panel_title, now_playing_panel_text, now_progress_label,
    render_browser_labels, short_footer_text, spectrum_panel_title, status_line,
    visualizer_cell_roles, visualizer_header_text,
};

fn entry(name: &str, kind: BrowserEntryKind) -> BrowserEntry {
    BrowserEntry {
        name: name.into(),
        path: format!("music/{name}"),
        kind,
        depth: 0,
        expanded: false,
    }
}

#[test]
fn marks_the_selected_browser_entry() {
    let entries = vec![
        entry("巴赫", BrowserEntryKind::Directory),
        entry("月光奏鸣曲.ogg", BrowserEntryKind::AudioFile),
    ];
    let mut state = AppState::with_track_count(entries.len());
    state.move_down();

    let labels = render_browser_labels(&entries, &state, 4);

    assert_eq!(labels.len(), 2);
    assert!(labels[0].starts_with("  "));
    assert!(labels[1].starts_with("> "));
}

#[test]
fn browser_labels_include_entry_icons() {
    let entries = vec![
        BrowserEntry {
            expanded: true,
            ..entry("巴赫", BrowserEntryKind::Directory)
        },
        entry("月光奏鸣曲.ogg", BrowserEntryKind::AudioFile),
    ];
    let state = AppState::with_track_count(entries.len());

    let labels = render_browser_labels(&entries, &state, 4);

    assert!(labels[0].contains("▾"));
    assert!(labels[1].contains("♪"));
}

#[test]
fn browser_labels_render_tree_indentation() {
    let entries = vec![
        BrowserEntry {
            expanded: true,
            ..entry("巴赫", BrowserEntryKind::Directory)
        },
        BrowserEntry {
            depth: 1,
            ..entry("管风琴", BrowserEntryKind::Directory)
        },
        BrowserEntry {
            depth: 2,
            ..entry("赋格.ogg", BrowserEntryKind::AudioFile)
        },
    ];
    let state = AppState::with_track_count(entries.len());

    let labels = render_browser_labels(&entries, &state, 8);

    assert!(labels[0].contains("▾ 巴赫"));
    assert!(labels[1].contains("  ▸ 管风琴"));
    assert!(labels[2].contains("    ♪ 赋格.ogg"));
}

#[test]
fn browser_labels_scroll_to_keep_the_selection_visible() {
    let entries = vec![
        entry("a.ogg", BrowserEntryKind::AudioFile),
        entry("b.ogg", BrowserEntryKind::AudioFile),
        entry("c.ogg", BrowserEntryKind::AudioFile),
        entry("d.ogg", BrowserEntryKind::AudioFile),
    ];
    let mut state = AppState::with_track_count(entries.len());
    state.move_down();
    state.move_down();

    let labels = render_browser_labels(&entries, &state, 2);

    assert_eq!(labels, vec!["  ♪ b.ogg".to_string(), "> ♪ c.ogg".to_string()]);
    assert_eq!(render_browser_labels(&entries, &state, 0).len(), 4);
}

#[test]
fn shows_fetch_hint_when_library_is_empty() {
    let state = AppState::with_track_count(0);

    assert!(status_line(0, &state).contains("add files"));
}

#[test]
fn status_line_counts_entries() {
    let state = AppState::with_track_count(0);

    assert_eq!(status_line(12, &state), "12 entries loaded");
}

#[test]
fn visualizer_header_is_empty() {
    assert!(visualizer_header_text().is_empty());
}

#[test]
fn now_title_uses_state_icon() {
    assert_eq!(now_panel_title(&PlaybackState::Playing), "▶ Now");
    assert_eq!(now_panel_title(&PlaybackState::Paused), "⏸ Now");
    assert_eq!(now_panel_title(&PlaybackState::Stopped), "• Now");
}

#[test]
fn catalog_title_uses_music_icon() {
    assert_eq!(catalog_panel_title(), "♫ Catalog");
}

#[test]
fn spectrum_title_uses_visualizer_icon() {
    assert_eq!(spectrum_panel_title(), "▥ Spectrum");
}

#[test]
fn now_panel_body_only_shows_selected_text() {
    let panel = now_playing_panel_text(Some("巴赫 / 托卡塔与赋格 BWV 565"), 32, 4);

    assert!(panel.contains("巴赫"));
    assert!(!panel.contains("Stopped"));
    assert!(!panel.contains("Playing"));
    assert!(!panel.contains("Paused"));
}

#[test]
fn now_panel_body_centers_text() {
    let panel = now_playing_panel_text(Some("巴赫 / 托卡塔"), 28, 4);

    assert!(panel.starts_with('\n'));
    assert!(panel.contains("巴赫 / 托卡塔"));
}

#[test]
fn now_panel_body_centers_text_vertically() {
    let panel = now_playing_panel_text(Some("巴赫 / 托卡塔"), 28, 4);
    let lines = panel.lines().collect::<Vec<_>>();

    assert_eq!(lines.len(), 2);
    assert!(lines[0].trim().is_empty());
    assert!(lines[1].contains("巴赫 / 托卡塔"));
}

#[test]
fn now_panel_body_shortens_long_labels_and_names_an_empty_selection() {
    assert_eq!(now_playing_panel_text(Some("abcdef"), 4, 1), "abc…");
    assert_eq!(now_playing_panel_text(Some("abcdef"), 1, 1), "…");
    assert_eq!(now_playing_panel_text(None, 16, 1), "  No selection");
}

#[test]
fn formats_now_progress_time_label() {
    let label = now_progress_label(Some(&PlaybackProgress {
        position_secs: 42,
        total_secs: 271,
        position_frames: 42 * 48_000,
        total_frames: 271 * 48_000,
    }));

    assert_eq!(label, "00:42 / 04:31");
}

#[test]
fn uses_zero_progress_label_when_idle() {
    assert_eq!(now_progress_label(None), "00:00 / 00:00");
}

#[test]
fn clock_keeps_minutes_past_an_hour() {
    assert_eq!(format_clock(0), "00:00");
    assert_eq!(format_clock(59), "00:59");
    assert_eq!(format_clock(3725), "62:05");
}

#[test]
fn footer_text_uses_short_playback_actions() {
    let state = AppState::with_track_count(11);
    let footer = short_footer_text(11, &state, &PlaybackState::Stopped);

    assert!(footer.contains("♫ 11 files"));
    assert!(footer.contains("• 1/11"));
    assert!(footer.contains("Enter play"));
    assert!(footer.contains("q quit"));
    assert!(!footer.contains("selection"));
    assert!(!footer.contains("toggle/play"));
    assert!(!footer.contains("h/l fold"));
}

#[test]
fn footer_text_switches_pause_copy_by_state() {
    let state = AppState::with_track_count(11);

    assert!(short_footer_text(11, &state, &PlaybackState::Playing).contains("▶ 1/11"));
    assert!(short_footer_text(11, &state, &PlaybackState::Playing).contains("Space pause"));
    assert!(short_footer_text(11, &state, &PlaybackState::Paused).contains("⏸ 1/11"));
    assert!(short_footer_text(11, &state, &PlaybackState::Paused).contains("Space resume"));
}

#[test]
fn footer_appends_status_and_falls_back_to_hint() {
    let state = AppState::with_track_count(3);

    assert_eq!(
        footer_text(3, &state, &PlaybackState::Stopped, "browse 巴赫"),
        "♫ 3 files | • 1/3 | Enter play | q quit browse 巴赫"
    );
    assert_eq!(
        footer_text(3, &state, &PlaybackState::Stopped, ""),
        "♫ 3 files | • 1/3 | Enter play | q quit"
    );
    assert!(footer_text(0, &state, &PlaybackState::Stopped, "x").contains("add files"));
}

#[test]
fn shows_an_intentional_idle_visualizer_message() {
    let panel = build_idle_visualizer_panel(40, 10);

    assert!(panel.contains("Press Enter"));
    assert!(!panel.contains('█'));
    assert_eq!(panel.lines().count(), 9);
    assert_eq!(panel.split('\n').count(), 10);
}

#[test]
fn cell_glyphs_match_their_roles() {
    assert_eq!(VisualizerCellRole::Empty.glyph(), ' ');
    assert_eq!(VisualizerCellRole::Line.glyph(), '│');
    assert_eq!(VisualizerCellRole::Head.glyph(), '●');
    assert_eq!(VisualizerCellRole::Peak.glyph(), '•');
    assert_eq!(VisualizerCellRole::Glow.glyph(), '·');
}

#[test]
fn column_stacks_line_head_peak_and_glow() {
    assert_eq!(column_cells(3, 5, 4, 10), (3, 5, 4));
    assert_eq!(column_cells(1, 0, 0, 10), (2, 0, 2));
    assert_eq!(column_cells(20, 20, 20, 10), (10, 10, 10));
    let roles = (0..8).map(|distance| cell_role(3, 5, 4, distance)).collect::<Vec<_>>();
    assert_eq!(
        roles,
        vec![
            VisualizerCellRole::Line,
            VisualizerCellRole::Line,
            VisualizerCellRole::Line,
            VisualizerCellRole::Head,
            VisualizerCellRole::Peak,
            VisualizerCellRole::Glow,
            VisualizerCellRole::Empty,
            VisualizerCellRole::Empty,
        ]
    );
}

fn sample_levels() -> Vec<(usize, usize, usize)> {
    vec![(2, 3, 3), (0, 0, 0), (5, 7, 6), (1, 2, 2), (9, 10, 10), (0, 2, 0), (4, 4, 5), (10, 10, 10)]
}

/// The text of a panel drawn from its cell roles, row by row.
fn panel_text(width: usize, height: usize, levels: &Vec<(usize, usize, usize)>) -> String {
    visualizer_cell_roles(width, height, levels)
        .iter()
        .map(|row| row.iter().map(|role| role.glyph()).collect::<String>())
        .collect::<Vec<_>>()
        .join("\n")
}

/// Rows reached after one frame of the rising spectrum
/// 0.1, 0.2, 0.3, 0.45, 0.6, 0.75, 0.9, 1.0 in a panel of ten rows.
fn rising_levels() -> Vec<(usize, usize, usize)> {
    vec![(1, 2, 1), (1, 2, 2), (2, 3, 2), (2, 3, 3), (3, 4, 3), (3, 5, 4), (4, 5, 4), (4, 6, 5)]
}

#[test]
fn graph_body_uses_needle_lines() {
    let panel = panel_text(40, 10, &rising_levels());

    assert!(panel.contains('│'));
}

#[test]
fn graph_body_restores_head_peak_and_glow_markers() {
    let panel = panel_text(40, 10, &rising_levels());

    assert!(panel.contains('│'));
    assert!(panel.contains('●'));
    assert!(panel.contains('•'));
    assert!(panel.contains('·'));
}

#[test]
fn graph_body_uses_the_full_available_height() {
    // The same spectrum in a panel of eighteen rows.
    let levels =
        vec![(1, 3, 2), (2, 4, 3), (2, 5, 4), (3, 6, 4), (4, 7, 6), (5, 8, 7), (6, 9, 8), (6, 10, 8)];
    let panel = panel_text(40, 18, &levels);

    assert_eq!(panel.lines().count(), 18);
}

#[test]
fn graph_body_uses_the_full_available_width() {
    let panel = panel_text(40, 10, &rising_levels());

    assert!(panel.lines().all(|line| line.chars().count() == 40));
}

#[test]
fn graph_body_keeps_low_energy_columns_anchored_to_the_baseline() {
    // A quiet spectrum of 0.02 to 0.05 reaches one row in every bucket.
    let levels = vec![(1, 2, 1); 8];
    let panel = panel_text(40, 10, &levels);
    let rows = panel.lines().collect::<Vec<_>>();
    let bottom_row = rows[rows.len().saturating_sub(1)];

    assert!(bottom_row.contains('│'));
}

#[test]
fn graph_body_keeps_bottom_row_free_of_top_markers() {
    // The spectrum 0.12, 0.28, 0.44, 0.18, 0.62, 0.31, 0.8, 0.24 after one frame.
    let levels =
        vec![(1, 2, 2), (1, 3, 2), (2, 3, 2), (2, 3, 2), (2, 4, 3), (2, 4, 3), (3, 4, 3), (2, 3, 2)];
    let panel = panel_text(40, 10, &levels);
    let rows = panel.lines().collect::<Vec<_>>();
    let bottom_row = rows[rows.len().saturating_sub(1)];

    assert!(!bottom_row.contains('●'));
    assert!(!bottom_row.contains('•'));
    assert!(!bottom_row.contains('·'));
}

#[test]
fn graph_body_keeps_a_continuous_bottom_edge_while_active() {
    let rows = visualizer_cell_roles(40, 10, &sample_levels());
    let bottom_row = &rows[rows.len() - 1];

    assert!(bottom_row.iter().all(|role| *role == VisualizerCellRole::Line));
}

#[test]
fn graph_body_grows_contiguously_from_the_baseline() {
    let rows = visualizer_cell_roles(40, 10, &sample_levels());

    for column in 0..40 {
        let mut seen_gap = false;
        for row in (0..rows.len()).rev() {
            if rows[row][column] == VisualizerCellRole::Empty {
                seen_gap = true;
            } else {
                assert!(!seen_gap, "column {column} has a gap below a rendered signal glyph");
            }
        }
    }
}
