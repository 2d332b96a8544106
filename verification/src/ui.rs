//! The text that the terminal interface shows: browser lines, footer, panel
//! titles and bodies, and the layout of the spectrum columns.
use vstd::prelude::*;
use crate::app::{AppState, PlaybackState, audio_count, audio_position};
use crate::library::{BrowserEntry, BrowserEntryKind, EntryModel, entry_view};
use crate::paths::{file_name, path_file_name};
use crate::player::PlaybackProgress;
use crate::text::{
    center_line, centered, decimal, decimal2, fit_inline, fitted, join_lines, joined_lines,
    lemma_string_views_push, push_decimal, push_decimal2, push_repeated, repeated, split_lines,
    string_views, text_lines,
};

verus! {

/// The icon of a browser line.
pub open spec fn entry_icon(entry: EntryModel) -> Seq<char> {
    if entry.kind == BrowserEntryKind::Directory && entry.expanded {
        "\u{25be}"@
    } else if entry.kind == BrowserEntryKind::Directory {
        "\u{25b8}"@
    } else {
        "\u{266a}"@
    }
}

/// The text of a browser line: a selection marker, two spaces per level of
/// depth, the icon, and the name.
pub open spec fn label_text(entry: EntryModel, selected: bool) -> Seq<char> {
    (if selected {
        "> "@
    } else {
        "  "@
    }) + repeated("  "@, entry.depth as nat) + entry_icon(entry) + " "@ + entry.name
}

/// The first line shown when at most `visible` lines fit and line `selected`
/// must be among them.
pub open spec fn window_start(visible: int, selected: int) -> int {
    if visible == 0 || selected < visible {
        0
    } else {
        selected + 1 - visible
    }
}

/// How many lines fit: all of them for a zero limit.
pub open spec fn visible_count(len: int, limit: int) -> int {
    if limit == 0 || len <= limit {
        len
    } else {
        limit
    }
}

/// The labels of the browser lines that fit in `limit` rows (all for a zero
/// limit), scrolled so that the selected line is the last visible one when it
/// would not fit otherwise; the selected line is marked.
pub fn render_browser_labels(entries: &[BrowserEntry], state: &AppState, limit: usize) -> (labels:
    Vec<String>)
    ensures
        ({
            let visible = visible_count(entries@.len() as int, limit as int);
            let start = window_start(visible, state.selection());
            let stop = if start + visible < entries@.len() {
                start + visible
            } else {
                entries@.len() as int
            };
            &&& labels@.len() == (if stop > start {
                stop - start
            } else {
                0
            })
            &&& forall|k: int|
                0 <= k < labels@.len() ==> #[trigger] labels@[k]@ == label_text(
                    entry_view(entries@[start + k]),
                    start + k == state.selection(),
                )
        }),
{
    let selected = state.selected_index();
    let len = entries.len();
    let visible = if limit == 0 || len <= limit {
        len
    } else {
        limit
    };
    let start = if visible == 0 || selected < visible {
        0
    } else {
        selected - visible + 1
    };
    let stop = if start >= len {
        start
    } else if visible < len - start {
        start + visible
    } else {
        len
    };
    let mut labels: Vec<String> = Vec::new();
    let mut index = start;
    while index < stop
        invariant
            start <= index <= stop,
            stop <= len || stop == start,
            len == entries@.len(),
            labels@.len() == index - start,
            forall|k: int|
                0 <= k < labels@.len() ==> #[trigger] labels@[k]@ == label_text(
                    entry_view(entries@[start + k]),
                    start + k == selected,
                ),
        decreases stop - index,
    {
        let entry = &entries[index];
        let mut label = String::new();
        if index == selected {
            label.append("> ");
        } else {
            label.append("  ");
        }
        push_repeated(&mut label, "  ", entry.depth);
        if entry.kind == BrowserEntryKind::Directory && entry.expanded {
            label.append("\u{25be}");
        } else if entry.kind == BrowserEntryKind::Directory {
            label.append("\u{25b8}");
        } else {
            label.append("\u{266a}");
        }
        label.append(" ");
        label.append(entry.name.as_str());
        let ghost prev = labels@;
        labels.push(label);
        assert forall|k: int| 0 <= k < labels@.len() implies #[trigger] labels@[k]@ == label_text(
            entry_view(entries@[start + k]),
            start + k == selected,
        ) by {
            if k < prev.len() {
                assert(labels@[k] == prev[k]);
            } else {
                assert(labels@[k]@ =~= label_text(entry_view(entries@[start + k]), start + k == selected));
            }
        }
        index += 1;
    }
    assert(labels@.len() == (if stop > start { stop - start } else { 0 }));
    labels
}

/// The status text when the library is empty, else the number of lines loaded.
pub open spec fn status_text(entry_count: nat) -> Seq<char> {
    if entry_count == 0 {
        "No playable files found. add files under your library directory and restart cadenza."@
    } else {
        decimal(entry_count) + " entries loaded"@
    }
}

pub fn status_line(entry_count: usize, _state: &AppState) -> (r: String)
    ensures
        r@ == status_text(entry_count as nat),
{
    let mut out = String::new();
    if entry_count == 0 {
        out.append(
            "No playable files found. add files under your library directory and restart cadenza.",
        );
    } else {
        push_decimal(&mut out, entry_count as u64);
        out.append(" entries loaded");
    }
    assert(out@ =~= status_text(entry_count as nat));
    out
}

/// The playback icon of the footer.
pub open spec fn playback_icon(playback: PlaybackState) -> Seq<char> {
    match playback {
        PlaybackState::Stopped => "\u{2022}"@,
        PlaybackState::Playing => "\u{25b6}"@,
        PlaybackState::Paused => "\u{23f8}"@,
    }
}

/// The action that the footer offers.
pub open spec fn action_hint(playback: PlaybackState) -> Seq<char> {
    match playback {
        PlaybackState::Playing => "Space pause"@,
        PlaybackState::Paused => "Space resume"@,
        PlaybackState::Stopped => "Enter play"@,
    }
}

/// The short footer: number of files, playback icon with the position of the
/// selected file among them, the available action, and how to quit. Without
/// browser lines the given count and the selection index stand in.
pub open spec fn short_footer(
    entry_count: nat,
    entries: Seq<EntryModel>,
    selection: int,
    playback: PlaybackState,
) -> Seq<char> {
    let audio = if entries.len() == 0 {
        entry_count
    } else {
        audio_count(entries)
    };
    let position: nat = if entries.len() == 0 {
        (selection + 1) as nat
    } else {
        match audio_position(entries, selection) {
            Some(p) => p,
            None => 0,
        }
    };
    "\u{266b} "@ + decimal(audio) + " files | "@ + playback_icon(playback) + " "@ + decimal(position)
        + "/"@ + decimal(audio) + " | "@ + action_hint(playback) + " | q quit"@
}

fn append_playback_icon(out: &mut String, playback: &PlaybackState)
    ensures
        final(out)@ == old(out)@ + playback_icon(*playback),
{
    match playback {
        PlaybackState::Stopped => out.append("\u{2022}"),
        PlaybackState::Playing => out.append("\u{25b6}"),
        PlaybackState::Paused => out.append("\u{23f8}"),
    }
}

fn append_action_hint(out: &mut String, playback: &PlaybackState)
    ensures
        final(out)@ == old(out)@ + action_hint(*playback),
{
    match playback {
        PlaybackState::Playing => out.append("Space pause"),
        PlaybackState::Paused => out.append("Space resume"),
        PlaybackState::Stopped => out.append("Enter play"),
    }
}

pub fn short_footer_text(entry_count: usize, state: &AppState, playback: &PlaybackState) -> (r:
    String)
    requires
        state.wf(),
    ensures
        r@ == short_footer(entry_count as nat, state.entry_models(), state.selection(), *playback),
{
    let entries = state.entries();
    let audio: usize = if entries.len() == 0 {
        entry_count
    } else {
        state.audio_file_count()
    };
    proof {
        state.lemma_selection_bounded();
    }
    let position: u64 = if entries.len() == 0 {
        state.selected_index() as u64 + 1
    } else {
        match state.selected_audio_position() {
            Some(p) => p as u64,
            None => 0,
        }
    };
    let mut out = String::new();
    out.append("\u{266b} ");
    push_decimal(&mut out, audio as u64);
    out.append(" files | ");
    append_playback_icon(&mut out, playback);
    out.append(" ");
    push_decimal(&mut out, position);
    out.append("/");
    push_decimal(&mut out, audio as u64);
    out.append(" | ");
    append_action_hint(&mut out, playback);
    out.append(" | q quit");
    assert(out@ =~= short_footer(
        entry_count as nat,
        state.entry_models(),
        state.selection(),
        *playback,
    ));
    out
}

/// The footer line: the empty-library notice, or the short footer followed by
/// the latest status message.
pub open spec fn footer(
    entry_count: nat,
    entries: Seq<EntryModel>,
    selection: int,
    playback: PlaybackState,
    status: Seq<char>,
) -> Seq<char> {
    if entry_count == 0 {
        status_text(0)
    } else if status.len() == 0 {
        short_footer(entry_count, entries, selection, playback)
    } else {
        short_footer(entry_count, entries, selection, playback) + " "@ + status
    }
}

pub fn footer_text(
    entry_count: usize,
    state: &AppState,
    playback: &PlaybackState,
    status_message: &str,
) -> (r: String)
    requires
        state.wf(),
    ensures
        r@ == footer(
            entry_count as nat,
            state.entry_models(),
            state.selection(),
            *playback,
            status_message@,
        ),
{
    if entry_count == 0 {
        return status_line(entry_count, state);
    }
    let mut base = short_footer_text(entry_count, state, playback);
    if status_message.is_empty() {
        base
    } else {
        base.append(" ");
        base.append(status_message);
        base
    }
}

/// `count` empty lines.
pub open spec fn empty_lines(count: nat) -> Seq<Seq<char>> {
    Seq::new(count, |i: int| Seq::<char>::empty())
}

/// The body of the now-playing panel: the label (or "No selection") shortened to
/// the width, each of its lines centred, below enough empty lines to centre it
/// vertically in `height` rows.
pub open spec fn now_panel_body(label: Option<Seq<char>>, width: nat, height: nat) -> Seq<char> {
    let title = fitted(
        match label {
            Some(l) => l,
            None => "No selection"@,
        },
        width,
    );
    let lines = text_lines(title);
    let centered_lines = Seq::new(lines.len(), |i: int| centered(lines[i], width));
    let top = if height > lines.len() {
        ((height - lines.len()) / 2) as nat
    } else {
        0
    };
    joined_lines(empty_lines(top) + centered_lines)
}

pub fn now_playing_panel_text(label: Option<&str>, width: usize, height: usize) -> (r: String)
    ensures
        r@ == now_panel_body(
            match label {
                Some(l) => Some(l@),
                None => None,
            },
            width as nat,
            height as nat,
        ),
{
    let title = match label {
        Some(label) => fit_inline(label, width),
        None => fit_inline("No selection", width),
    };
    let lines = split_lines(title.as_str());
    let ghost line_views = text_lines(title@);
    let top_padding = if height > lines.len() {
        (height - lines.len()) / 2
    } else {
        0
    };
    let mut parts: Vec<String> = Vec::new();
    let mut i: usize = 0;
    while i < top_padding
        invariant
            i <= top_padding,
            string_views(parts@) == empty_lines(i as nat),
            parts@.len() == i,
        decreases top_padding - i,
    {
        let ghost before = parts@;
        parts.push(String::new());
        proof {
            lemma_string_views_push(before, parts@[i as int]);
        }
        assert(string_views(parts@) =~= empty_lines((i + 1) as nat));
        i += 1;
    }
    let ghost centered_lines = Seq::new(
        line_views.len(),
        |k: int| centered(line_views[k], width as nat),
    );
    let mut j: usize = 0;
    while j < lines.len()
        invariant
            j <= lines.len(),
            string_views(lines@) == line_views,
            centered_lines.len() == line_views.len(),
            forall|k: int|
                0 <= k < line_views.len() ==> #[trigger] centered_lines[k] == centered(
                    line_views[k],
                    width as nat,
                ),
            string_views(parts@) == empty_lines(top_padding as nat) + centered_lines.take(j as int),
        decreases lines.len() - j,
    {
        let line = center_line(lines[j].as_str(), width);
        assert(string_views(lines@)[j as int] == lines@[j as int]@);
        let ghost before = parts@;
        parts.push(line);
        proof {
            lemma_string_views_push(before, parts@[parts@.len() - 1]);
        }
        assert(string_views(parts@) =~= empty_lines(top_padding as nat) + centered_lines.take(
            j + 1,
        ));
        j += 1;
    }
    assert(centered_lines.take(lines.len() as int) =~= centered_lines);
    join_lines(&parts)
}

/// `secs` as minutes and seconds, each at least two digits, `MM:SS`.
pub open spec fn clock(secs: nat) -> Seq<char> {
    decimal2(secs / 60) + ":"@ + decimal2(secs % 60)
}

pub fn format_clock(total_secs: u64) -> (r: String)
    ensures
        r@ == clock(total_secs as nat),
{
    let mut out = String::new();
    push_decimal2(&mut out, total_secs / 60);
    out.append(":");
    push_decimal2(&mut out, total_secs % 60);
    out
}

/// Elapsed and total time as `MM:SS / MM:SS`; zero for both without a track.
pub fn now_progress_label(progress: Option<&PlaybackProgress>) -> (r: String)
    ensures
        r@ == match progress {
            Some(p) => clock(p.position_secs as nat) + " / "@ + clock(p.total_secs as nat),
            None => clock(0) + " / "@ + clock(0),
        },
{
    let (position_secs, total_secs) = match progress {
        Some(progress) => (progress.position_secs, progress.total_secs),
        None => (0, 0),
    };
    let mut out = format_clock(position_secs);
    out.append(" / ");
    let total = format_clock(total_secs);
    out.append(total.as_str());
    out
}

pub fn now_panel_title(playback: &PlaybackState) -> (r: &'static str)
    ensures
        r@ == match *playback {
            PlaybackState::Playing => "\u{25b6} Now"@,
            PlaybackState::Paused => "\u{23f8} Now"@,
            PlaybackState::Stopped => "\u{2022} Now"@,
        },
{
    match playback {
        PlaybackState::Playing => "\u{25b6} Now",
        PlaybackState::Paused => "\u{23f8} Now",
        PlaybackState::Stopped => "\u{2022} Now",
    }
}

pub fn catalog_panel_title() -> (r: &'static str)
    ensures
        r@ == "\u{266b} Catalog"@,
{
    "\u{266b} Catalog"
}

pub fn spectrum_panel_title() -> (r: &'static str)
    ensures
        r@ == "\u{25a5} Spectrum"@,
{
    "\u{25a5} Spectrum"
}

/// The header above the spectrum, which is empty.
pub fn visualizer_header_text() -> (r: String)
    ensures
        r@ == Seq::<char>::empty(),
{
    String::new()
}

/// The idle spectrum panel: "Press Enter" centred in the width, on the middle
/// row of `height` rows (at least one row and one column).
pub open spec fn idle_panel(width: nat, height: nat) -> Seq<char> {
    let w = if width > 0 {
        width
    } else {
        1
    };
    let h = if height > 0 {
        height
    } else {
        1
    };
    let top = ((h - 1) / 2) as nat;
    joined_lines(
        empty_lines(top) + seq![centered("Press Enter"@, w)] + empty_lines((h - top - 1) as nat),
    )
}

pub fn build_idle_visualizer_panel(width: usize, height: usize) -> (r: String)
    ensures
        r@ == idle_panel(width as nat, height as nat),
{
    let inner_width = if width > 0 {
        width
    } else {
        1
    };
    let inner_height = if height > 0 {
        height
    } else {
        1
    };
    let top_padding = (inner_height - 1) / 2;
    let mut lines: Vec<String> = Vec::new();
    let mut i: usize = 0;
    while i < top_padding
        invariant
            i <= top_padding,
            string_views(lines@) == empty_lines(i as nat),
            lines@.len() == i,
        decreases top_padding - i,
    {
        let ghost before = lines@;
        lines.push(String::new());
        proof {
            lemma_string_views_push(before, lines@[i as int]);
        }
        assert(string_views(lines@) =~= empty_lines((i + 1) as nat));
        i += 1;
    }
    let prompt = center_line("Press Enter", inner_width);
    let ghost before = lines@;
    lines.push(prompt);
    proof {
        lemma_string_views_push(before, prompt);
    }
    let ghost head = empty_lines(top_padding as nat) + seq![centered("Press Enter"@, inner_width as nat)];
    assert(string_views(lines@) =~= head);
    while lines.len() < inner_height
        invariant
            top_padding + 1 <= lines.len() <= inner_height,
            string_views(lines@) == head + empty_lines((lines.len() - top_padding - 1) as nat),
        decreases inner_height - lines.len(),
    {
        let ghost n = lines.len();
        let ghost before = lines@;
        lines.push(String::new());
        proof {
            lemma_string_views_push(before, lines@[n as int]);
        }
        assert(string_views(lines@) =~= head + empty_lines((n + 1 - top_padding - 1) as nat));
    }
    join_lines(&lines)
}

/// The display name of a path: its file name, or the whole path when it has none.
pub open spec fn display_name(path: Seq<char>) -> Seq<char> {
    match file_name(path) {
        Some(name) => name,
        None => path,
    }
}

pub fn display_name_from_path(path: &str) -> (r: String)
    ensures
        r@ == display_name(path@),
{
    match path_file_name(path) {
        Some(name) => name,
        None => {
            let mut out = String::new();
            out.append(path);
            out
        },
    }
}

/// The label of the now-playing panel: while a file plays or is paused, the name
/// of that file; otherwise the name of the selected line.
pub fn current_now_label(state: &AppState, playback: &PlaybackState) -> (r: Option<String>)
    ensures
        match *playback {
            PlaybackState::Playing | PlaybackState::Paused => match state.playing_path() {
                Some(p) => r matches Some(s) && s@ == display_name(p),
                None => r is None,
            },
            PlaybackState::Stopped => match state.selected_path() {
                Some(_) => r matches Some(s) && s@ == state.entry_models()[state.selection()].name,
                None => r is None,
            },
        },
{
    match playback {
        PlaybackState::Playing | PlaybackState::Paused => {
            return match state.now_playing_path() {
                Some(path) => Some(display_name_from_path(path)),
                None => None,
            };
        },
        PlaybackState::Stopped => {},
    }
    match state.selected_entry() {
        Some(entry) => Some(entry.name.clone()),
        None => None,
    }
}


/// What one cell of the spectrum panel draws.
#[derive(Debug, Clone, Copy, PartialEq, Eq, Structural)]
pub enum VisualizerCellRole {
    Empty,
    Line,
    Head,
    Peak,
    Glow,
}

/// The character drawn for each role.
pub open spec fn role_glyph(role: VisualizerCellRole) -> char {
    match role {
        VisualizerCellRole::Empty => ' ',
        VisualizerCellRole::Line => '\u{2502}',
        VisualizerCellRole::Head => '\u{25cf}',
        VisualizerCellRole::Peak => '\u{2022}',
        VisualizerCellRole::Glow => '\u{b7}',
    }
}

impl VisualizerCellRole {
    pub fn glyph(self) -> (c: char)
        ensures
            c == role_glyph(self),
    {
        match self {
            VisualizerCellRole::Empty => ' ',
            VisualizerCellRole::Line => '\u{2502}',
            VisualizerCellRole::Head => '\u{25cf}',
            VisualizerCellRole::Peak => '\u{2022}',
            VisualizerCellRole::Glow => '\u{b7}',
        }
    }
}

/// Rows taken by a level of `raw` rows: none for zero, else at least two and at
/// most the panel height.
pub open spec fn level_cells(raw: nat, signal: nat) -> nat {
    if raw == 0 {
        0
    } else if raw < 2 {
        if 2 < signal {
            2
        } else {
            signal
        }
    } else if raw < signal {
        raw
    } else {
        signal
    }
}

/// Rows up to the top highlight: none given means the body height; else at
/// least the body (and two rows), at most the panel height.
pub open spec fn orb_cells(raw_orb: nat, body: nat, signal: nat) -> nat {
    if raw_orb == 0 {
        body
    } else {
        let floor = if body > 2 {
            body
        } else {
            2
        };
        let lifted = if raw_orb > floor {
            raw_orb
        } else {
            floor
        };
        if lifted < signal {
            lifted
        } else {
            signal
        }
    }
}

/// The role of the cell `distance` rows above the baseline of a column whose
/// body, peak and top highlight reach `body`, `peak` and `orb` rows.
pub open spec fn role_at(body: nat, peak: nat, orb: nat, distance: nat) -> VisualizerCellRole {
    let accent = if peak > orb {
        peak
    } else {
        orb
    };
    let floor = if body > 0 {
        body
    } else {
        1
    };
    let top_extent = if accent > floor {
        accent
    } else {
        floor
    };
    if body == 0 && distance == 0 {
        VisualizerCellRole::Line
    } else if orb > 0 && distance + 1 == orb {
        VisualizerCellRole::Head
    } else if distance < body {
        VisualizerCellRole::Line
    } else if distance < accent {
        VisualizerCellRole::Peak
    } else if top_extent >= 2 && distance == top_extent {
        VisualizerCellRole::Glow
    } else {
        VisualizerCellRole::Empty
    }
}

/// The role of a cell, from the rows its column reaches (see `role_at`).
pub fn cell_role(body: usize, peak: usize, orb: usize, distance: usize) -> (r: VisualizerCellRole)
    ensures
        r == role_at(body as nat, peak as nat, orb as nat, distance as nat),
{
    let accent = if peak > orb {
        peak
    } else {
        orb
    };
    let floor = if body > 0 {
        body
    } else {
        1
    };
    let top_extent = if accent > floor {
        accent
    } else {
        floor
    };
    if body == 0 && distance == 0 {
        VisualizerCellRole::Line
    } else if orb > 0 && distance == orb - 1 {
        VisualizerCellRole::Head
    } else if distance < body {
        VisualizerCellRole::Line
    } else if distance < accent {
        VisualizerCellRole::Peak
    } else if top_extent >= 2 && distance == top_extent {
        VisualizerCellRole::Glow
    } else {
        VisualizerCellRole::Empty
    }
}

/// The rows that the body, peak and top highlight of a column take, from their
/// raw levels in rows (see `level_cells` and `orb_cells`).
pub fn column_cells(raw_height: usize, raw_peak: usize, raw_orb: usize, signal_height: usize) -> (r: (
    usize,
    usize,
    usize,
))
    ensures
        r.0 == level_cells(raw_height as nat, signal_height as nat),
        r.1 == level_cells(raw_peak as nat, signal_height as nat),
        r.2 == orb_cells(raw_orb as nat, r.0 as nat, signal_height as nat),
{
    let body = level(raw_height, signal_height);
    let peak = level(raw_peak, signal_height);
    let orb = if raw_orb == 0 {
        body
    } else {
        let floor = if body > 2 {
            body
        } else {
            2
        };
        let lifted = if raw_orb > floor {
            raw_orb
        } else {
            floor
        };
        if lifted < signal_height {
            lifted
        } else {
            signal_height
        }
    };
    (body, peak, orb)
}

fn level(raw: usize, signal: usize) -> (r: usize)
    ensures
        r == level_cells(raw as nat, signal as nat),
{
    if raw == 0 {
        0
    } else if raw < 2 {
        if 2 < signal {
            2
        } else {
            signal
        }
    } else if raw < signal {
        raw
    } else {
        signal
    }
}

/// The bucket that column `column` of `width` columns shows, of `count` buckets.
pub open spec fn column_bucket(column: int, width: int, count: int) -> int {
    column * count / width
}

/// The role of the cell in row `row` (counted from the top) and column `column`
/// of a `width` by `height` panel over the raw levels `levels`.
pub open spec fn panel_role(levels: Seq<(usize, usize, usize)>, width: int, height: int, row: int, column: int) -> VisualizerCellRole {
    let level = levels[column_bucket(column, width, levels.len() as int)];
    let body = level_cells(level.0 as nat, height as nat);
    let peak = level_cells(level.1 as nat, height as nat);
    let orb = orb_cells(level.2 as nat, body, height as nat);
    role_at(body, peak, orb, (height - 1 - row) as nat)
}

/// The top of a column: its highest accent, or its body, and at least one row.
pub open spec fn column_extent(body: nat, peak: nat, orb: nat) -> nat {
    let accent = if peak > orb {
        peak
    } else {
        orb
    };
    let floor = if body > 0 {
        body
    } else {
        1
    };
    if accent > floor {
        accent
    } else {
        floor
    }
}

/// A column is drawn without gaps: its body fills the rows from the baseline up,
/// every cell below the column's top belongs to the body or an accent, a glow
/// sits directly on a top of two rows or more, and nothing is drawn above that.
pub proof fn law_column_without_gaps(body: nat, peak: nat, orb: nat, distance: nat)
    ensures
        distance < body ==> (role_at(body, peak, orb, distance) == VisualizerCellRole::Line
            || role_at(body, peak, orb, distance) == VisualizerCellRole::Head),
        distance < column_extent(body, peak, orb) ==> (role_at(body, peak, orb, distance)
            != VisualizerCellRole::Empty && role_at(body, peak, orb, distance)
            != VisualizerCellRole::Glow),
        distance == column_extent(body, peak, orb) ==> role_at(body, peak, orb, distance) == (if column_extent(
            body,
            peak,
            orb,
        ) >= 2 {
            VisualizerCellRole::Glow
        } else {
            VisualizerCellRole::Empty
        }),
        distance > column_extent(body, peak, orb) ==> role_at(body, peak, orb, distance)
            == VisualizerCellRole::Empty,
{
}

/// The bottom row of the active spectrum panel is drawn in every column.
pub proof fn law_bottom_row_drawn(levels: Seq<(usize, usize, usize)>, width: int, height: int, column: int)
    requires
        height >= 1,
    ensures
        panel_role(levels, width, height, height - 1, column) != VisualizerCellRole::Empty,
{
}

/// Below any drawn cell of the active spectrum panel, every cell of its column
/// down to the bottom row is drawn too.
pub proof fn law_panel_columns_contiguous(
    levels: Seq<(usize, usize, usize)>,
    width: int,
    height: int,
    upper: int,
    lower: int,
    column: int,
)
    requires
        0 <= upper <= lower < height,
        panel_role(levels, width, height, upper, column) != VisualizerCellRole::Empty,
    ensures
        panel_role(levels, width, height, lower, column) != VisualizerCellRole::Empty,
{
    let level = levels[column_bucket(column, width, levels.len() as int)];
    let body = level_cells(level.0 as nat, height as nat);
    let peak = level_cells(level.1 as nat, height as nat);
    let orb = orb_cells(level.2 as nat, body, height as nat);
    law_column_without_gaps(body, peak, orb, (height - 1 - upper) as nat);
    law_column_without_gaps(body, peak, orb, (height - 1 - lower) as nat);
}

/// The roles of all cells of the active spectrum panel, row by row from the top:
/// `height` rows (at least one) of `width` cells (at least one), each column
/// showing the bucket under it, each level given in rows as
/// (body, peak, top highlight).
pub fn visualizer_cell_roles(width: usize, height: usize, levels: &Vec<(usize, usize, usize)>) -> (rows:
    Vec<Vec<VisualizerCellRole>>)
    requires
        levels.len() > 0,
        (if width > 0 {
            width
        } else {
            1
        }) * levels.len() <= usize::MAX,
    ensures
        ({
            let w = if width > 0 {
                width as int
            } else {
                1
            };
            let h = if height > 0 {
                height as int
            } else {
                1
            };
            &&& rows@.len() == h
            &&& forall|r: int| 0 <= r < h ==> #[trigger] rows@[r]@.len() == w
            &&& forall|r: int, c: int|
                0 <= r < h && 0 <= c < w ==> #[trigger] rows@[r]@[c] == panel_role(
                    levels@,
                    w,
                    h,
                    r,
                    c,
                )
        }),
{
    let inner_width = if width > 0 {
        width
    } else {
        1
    };
    let inner_height = if height > 0 {
        height
    } else {
        1
    };
    let count = levels.len();
    let mut rows: Vec<Vec<VisualizerCellRole>> = Vec::new();
    let mut row: usize = 0;
    while row < inner_height
        invariant
            row <= inner_height,
            inner_width >= 1,
            inner_height >= 1,
            count == levels.len() > 0,
            inner_width * count <= usize::MAX,
            rows@.len() == row,
            forall|r: int| 0 <= r < row ==> #[trigger] rows@[r]@.len() == inner_width,
            forall|r: int, c: int|
                0 <= r < row && 0 <= c < inner_width ==> #[trigger] rows@[r]@[c] == panel_role(
                    levels@,
                    inner_width as int,
                    inner_height as int,
                    r,
                    c,
                ),
        decreases inner_height - row,
    {
        let distance = inner_height - 1 - row;
        let mut cells: Vec<VisualizerCellRole> = Vec::new();
        let mut column: usize = 0;
        while column < inner_width
            invariant
                column <= inner_width,
                row < inner_height,
                distance == inner_height - 1 - row,
                count == levels.len() > 0,
                inner_width * count <= usize::MAX,
                cells@.len() == column,
                forall|c: int|
                    0 <= c < column ==> #[trigger] cells@[c] == panel_role(
                        levels@,
                        inner_width as int,
                        inner_height as int,
                        row as int,
                        c,
                    ),
            decreases inner_width - column,
        {
            assert(column * count <= inner_width * count) by (nonlinear_arith)
                requires
                    column <= inner_width,
            ;
            let product = column * count;
            let bucket = product / inner_width;
            assert(bucket < count) by (nonlinear_arith)
                requires
                    column < inner_width,
                    product == column * count,
                    bucket == product / inner_width,
                    count > 0,
            ;
            let level = levels[bucket];
            let (body, peak, orb) = column_cells(level.0, level.1, level.2, inner_height);
            cells.push(cell_role(body, peak, orb, distance));
            column += 1;
        }
        rows.push(cells);
        row += 1;
    }
    rows
}


/// `channel + amount`, stopping at 255.
pub open spec fn brightened(channel: u8, amount: u8) -> u8 {
    if channel + amount > 255 {
        255
    } else {
        (channel + amount) as u8
    }
}

/// A colour made lighter by adding `amount` to each channel, saturating at 255.
pub fn lighten_rgb(rgb: (u8, u8, u8), amount: u8) -> (r: (u8, u8, u8))
    ensures
        r == (brightened(rgb.0, amount), brightened(rgb.1, amount), brightened(rgb.2, amount)),
{
    (rgb.0.saturating_add(amount), rgb.1.saturating_add(amount), rgb.2.saturating_add(amount))
}

} // verus!
