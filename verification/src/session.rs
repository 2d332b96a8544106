//! What the terminal loop decides on each key press: how the browser moves, what
//! the status line says, and what the player is asked to do.
use vstd::prelude::*;
use crate::app::{AppModel, AppState, BrowserAction, PlaybackState, selection_after_down, selection_after_up, toggled};
use crate::library::BrowserEntryKind;
use crate::ui::{display_name, display_name_from_path};

verus! {

/// A key press, as the browser loop tells keys apart.
#[derive(Debug, Clone, Copy, PartialEq, Eq, Structural)]
pub enum KeyInput {
    Quit,
    Down,
    Up,
    Left,
    Right,
    Enter,
    Space,
    Other,
}

/// The key that a typed character stands for: `q` quits, `j`/`k` move down and
/// up, `h`/`l` move left and right, space pauses.
pub open spec fn key_of_char(c: char) -> KeyInput {
    if c == 'q' {
        KeyInput::Quit
    } else if c == 'j' {
        KeyInput::Down
    } else if c == 'k' {
        KeyInput::Up
    } else if c == 'h' {
        KeyInput::Left
    } else if c == 'l' {
        KeyInput::Right
    } else if c == ' ' {
        KeyInput::Space
    } else {
        KeyInput::Other
    }
}

pub fn key_from_char(c: char) -> (key: KeyInput)
    ensures
        key == key_of_char(c),
{
    if c == 'q' {
        KeyInput::Quit
    } else if c == 'j' {
        KeyInput::Down
    } else if c == 'k' {
        KeyInput::Up
    } else if c == 'h' {
        KeyInput::Left
    } else if c == 'l' {
        KeyInput::Right
    } else if c == ' ' {
        KeyInput::Space
    } else {
        KeyInput::Other
    }
}

/// What the loop is to do after a key press.
#[derive(Debug, Clone, PartialEq, Eq)]
pub enum UiCommand {
    /// Leave the interface.
    Quit,
    /// Redraw and wait for the next key.
    Continue,
    /// Start playing the file at this path.
    Play(String),
    /// Pause or resume the running player.
    TogglePlayer,
}

/// What the spectrum animation does on a tick.
#[derive(Debug, Clone, Copy, PartialEq, Eq, Structural)]
pub enum VisualizerStep {
    Advance,
    Hold,
    Clear,
}

/// The playback state the interface shows and the last status message.
pub struct UiSession {
    pub playback: PlaybackState,
    pub status_message: String,
}

/// The status after moving through the browser: "browse" and the name of the
/// selected line, or the previous status when no line is selected.
pub open spec fn browse_status(state: AppState, previous: Seq<char>) -> Seq<char> {
    match state.selected_path() {
        Some(_) => "browse "@ + state.entry_models()[state.selection()].name,
        None => previous,
    }
}

/// The animation follows playback: it moves while playing, holds while paused
/// and empties when stopped.
pub open spec fn visualizer_step_for(playback: PlaybackState) -> VisualizerStep {
    match playback {
        PlaybackState::Playing => VisualizerStep::Advance,
        PlaybackState::Paused => VisualizerStep::Hold,
        PlaybackState::Stopped => VisualizerStep::Clear,
    }
}

pub fn visualizer_step(playback: PlaybackState) -> (step: VisualizerStep)
    ensures
        step == visualizer_step_for(playback),
{
    match playback {
        PlaybackState::Playing => VisualizerStep::Advance,
        PlaybackState::Paused => VisualizerStep::Hold,
        PlaybackState::Stopped => VisualizerStep::Clear,
    }
}

/// "browse" and the name of the selected line, if one is selected.
fn browse_message(state: &AppState) -> (r: Option<String>)
    ensures
        match state.selected_path() {
            Some(_) => r matches Some(s) && s@ == "browse "@ + state.entry_models()[state.selection()].name,
            None => r is None,
        },
{
    match state.selected_entry() {
        Some(entry) => {
            let mut message = String::from_str("browse ");
            message.append(entry.name.as_str());
            Some(message)
        },
        None => None,
    }
}

impl UiSession {
    /// Nothing playing and no message.
    pub fn new() -> (session: Self)
        ensures
            session.playback == PlaybackState::Stopped,
            session.status_message@ == Seq::<char>::empty(),
    {
        UiSession { playback: PlaybackState::Stopped, status_message: String::new() }
    }

    /// Shows the selected line after the browser moved.
    fn note_browse(&mut self, state: &AppState)
        ensures
            final(self).playback == old(self).playback,
            final(self).status_message@ == browse_status(*state, old(self).status_message@),
    {
        match browse_message(state) {
            Some(message) => self.status_message = message,
            None => {},
        }
    }

    /// Acts on one key press. `has_player` says whether a player is running.
    /// Moving keys move the browser; Left, Right and a folded or unfolded
    /// directory report the newly selected line; Enter on an audio file asks for
    /// it to be played; space pauses the running player, or without one switches
    /// the shown state between playing and paused; `q` quits; other keys do
    /// nothing.
    pub fn handle_key(&mut self, state: &mut AppState, key: KeyInput, has_player: bool) -> (command:
        UiCommand)
        requires
            old(state).wf(),
        ensures
            final(state).wf(),
            match key {
                KeyInput::Quit => {
                    &&& command == UiCommand::Quit
                    &&& *final(state) == *old(state)
                    &&& *final(self) == *old(self)
                },
                KeyInput::Down => {
                    &&& command == UiCommand::Continue
                    &&& *final(state) == old(state).with_selection(
                        selection_after_down(old(state).selection(), old(state).item_total()),
                    )
                    &&& final(state)@ == (AppModel {
                        selection: selection_after_down(old(state)@.selection, old(state)@.item_total),
                        ..old(state)@
                    })
                    &&& final(state).entry_seq() == old(state).entry_seq()
                    &&& *final(self) == *old(self)
                },
                KeyInput::Up => {
                    &&& command == UiCommand::Continue
                    &&& *final(state) == old(state).with_selection(
                        selection_after_up(old(state).selection()),
                    )
                    &&& final(state)@ == (AppModel {
                        selection: selection_after_up(old(state)@.selection),
                        ..old(state)@
                    })
                    &&& final(state).entry_seq() == old(state).entry_seq()
                    &&& *final(self) == *old(self)
                },
                KeyInput::Left => {
                    &&& command == UiCommand::Continue
                    &&& AppState::left_step(*old(state), *final(state))
                    &&& final(self).playback == old(self).playback
                    &&& final(self).status_message@ == (if old(state).left_moves() {
                        browse_status(*final(state), old(self).status_message@)
                    } else {
                        old(self).status_message@
                    })
                },
                KeyInput::Right => {
                    &&& command == UiCommand::Continue
                    &&& AppState::right_step(*old(state), *final(state))
                    &&& final(self).playback == old(self).playback
                    &&& final(self).status_message@ == (if old(state).right_moves() {
                        browse_status(*final(state), old(self).status_message@)
                    } else {
                        old(self).status_message@
                    })
                },
                KeyInput::Enter => match old(state).selected_path() {
                    None => {
                        &&& command == UiCommand::Continue
                        &&& *final(state) == *old(state)
                        &&& *final(self) == *old(self)
                    },
                    Some(p) => {
                        let entry = old(state).entry_models()[old(state).selection()];
                        if entry.kind == BrowserEntryKind::Directory {
                            &&& command == UiCommand::Continue
                            &&& AppState::expansion_step(*old(state), *final(state), p, !entry.expanded)
                            &&& final(self).playback == old(self).playback
                            &&& final(self).status_message@ == browse_status(
                                *final(state),
                                old(self).status_message@,
                            )
                        } else {
                            &&& command matches UiCommand::Play(file) && file@ == p
                            &&& *final(state) == *old(state)
                            &&& *final(self) == *old(self)
                        }
                    },
                },
                KeyInput::Space => {
                    &&& *final(state) == *old(state)
                    &&& if has_player {
                        &&& command == UiCommand::TogglePlayer
                        &&& *final(self) == *old(self)
                    } else {
                        &&& command == UiCommand::Continue
                        &&& final(self).playback == toggled(old(self).playback)
                        &&& final(self).status_message == old(self).status_message
                    }
                },
                KeyInput::Other => {
                    &&& command == UiCommand::Continue
                    &&& *final(state) == *old(state)
                    &&& *final(self) == *old(self)
                },
            },
    {
        match key {
            KeyInput::Quit => UiCommand::Quit,
            KeyInput::Down => {
                state.move_down();
                UiCommand::Continue
            },
            KeyInput::Up => {
                state.move_up();
                UiCommand::Continue
            },
            KeyInput::Left => {
                if state.move_left() {
                    self.note_browse(state);
                }
                UiCommand::Continue
            },
            KeyInput::Right => {
                if state.move_right() {
                    self.note_browse(state);
                }
                UiCommand::Continue
            },
            KeyInput::Enter => match state.activate_selected() {
                BrowserAction::NoAction => UiCommand::Continue,
                BrowserAction::ToggledDirectory => {
                    self.note_browse(state);
                    UiCommand::Continue
                },
                BrowserAction::PlayFile(path) => UiCommand::Play(path),
            },
            KeyInput::Space => {
                if has_player {
                    UiCommand::TogglePlayer
                } else {
                    self.playback.toggle_pause();
                    UiCommand::Continue
                }
            },
            KeyInput::Other => UiCommand::Continue,
        }
    }

    /// The player for `path` started: it is now playing and shown as such.
    pub fn playback_started(&mut self, state: &mut AppState, path: String)
        requires
            old(state).wf(),
        ensures
            final(state).wf(),
            *final(state) == old(state).with_playing(Some(path)),
            final(state)@ == (AppModel { playing: Some(path@), ..old(state)@ }),
            final(state).entry_seq() == old(state).entry_seq(),
            final(self).playback == PlaybackState::Playing,
            final(self).status_message@ == "playing "@ + display_name(path@),
    {
        let mut message = String::from_str("playing ");
        let name = display_name_from_path(path.as_str());
        message.append(name.as_str());
        self.playback = PlaybackState::Playing;
        self.status_message = message;
        state.set_now_playing(Some(path));
    }

    /// The player could not start: playback is stopped and the error shown.
    pub fn playback_failed(&mut self, error: &str)
        ensures
            final(self).playback == PlaybackState::Stopped,
            final(self).status_message@ == "playback failed: "@ + error@,
    {
        let mut message = String::from_str("playback failed: ");
        message.append(error);
        self.playback = PlaybackState::Stopped;
        self.status_message = message;
    }

    /// The running player could not be paused or resumed: the error is shown.
    pub fn pause_failed(&mut self, error: &str)
        ensures
            final(self).playback == old(self).playback,
            final(self).status_message@ == "pause failed: "@ + error@,
    {
        let mut message = String::from_str("pause failed: ");
        message.append(error);
        self.status_message = message;
    }
}

} // verus!
