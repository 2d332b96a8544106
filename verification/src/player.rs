//! The playback buffer shared between the decoder and the audio device: its
//! cursors, when it runs dry, and the position it reports.
use vstd::prelude::*;
use crate::app::PlaybackState;

verus! {

/// How far playback has come, in whole seconds and in frames.
#[derive(Debug, Clone, Copy, PartialEq, Eq)]
pub struct PlaybackProgress {
    pub position_secs: u64,
    pub total_secs: u64,
    pub position_frames: usize,
    pub total_frames: usize,
}

/// The decoded audio waiting to be played, and how far the device has read it.
/// `S` is the sample type.
pub struct PlaybackShared<S> {
    pub playback_samples: Vec<S>,
    pub analysis_samples: Vec<S>,
    pub output_channels: usize,
    pub sample_rate: u32,
    pub playback_cursor: usize,
    pub analysis_cursor: usize,
    pub total_playback_frames: Option<usize>,
    pub decode_finished: bool,
    pub playback_state: PlaybackState,
}

/// The samples of the window of at most `window_size` samples that ends at the
/// cursor (or at the end of the samples); empty at the start of the track.
pub open spec fn analysis_window<S>(samples: Seq<S>, cursor: int, window_size: int) -> Seq<S> {
    if samples.len() == 0 || cursor == 0 {
        seq![]
    } else {
        let end = if cursor < samples.len() {
            cursor
        } else {
            samples.len() as int
        };
        let start = if end > window_size {
            end - window_size
        } else {
            0
        };
        samples.subrange(start, end)
    }
}

pub fn extract_analysis_window<S: Copy>(samples: &[S], cursor: usize, window_size: usize) -> (window: Vec<S>)
    ensures
        window@ == analysis_window(samples@, cursor as int, window_size as int),
{
    let mut window: Vec<S> = Vec::new();
    if samples.len() == 0 || cursor == 0 {
        return window;
    }
    let end = if cursor < samples.len() {
        cursor
    } else {
        samples.len()
    };
    let start = if end > window_size {
        end - window_size
    } else {
        0
    };
    let mut i = start;
    while i < end
        invariant
            start <= i <= end <= samples@.len(),
            window@ == samples@.subrange(start as int, i as int),
        decreases end - i,
    {
        window.push(samples[i]);
        assert(window@ =~= samples@.subrange(start as int, i + 1));
        i += 1;
    }
    window
}

/// Frames of `channels` samples needed to hold `len` samples (the last one may be partial).
pub open spec fn frame_count(len: int, channels: int) -> int {
    len / channels + if len % channels == 0 {
        0int
    } else {
        1int
    }
}

/// Frames that one call of `write_output_data` copies: as many as the output has
/// room for and the buffer still holds in full after the cursor (none when the
/// cursor is past the end of the buffer).
pub open spec fn frames_copied<S>(shared: PlaybackShared<S>, output_len: int) -> int {
    let ch = shared.output_channels as int;
    let remaining = if shared.playback_cursor <= shared.playback_samples@.len() {
        shared.playback_samples@.len() - shared.playback_cursor
    } else {
        0
    };
    let available = remaining / ch;
    let wanted = frame_count(output_len, ch);
    if available < wanted {
        available
    } else {
        wanted
    }
}

/// The buffer after the device took `frames` frames out of `old` for an output of
/// `wanted` frames: the cursors advance, and playback stops when the decoder has
/// finished and the buffer could not fill the output.
pub open spec fn after_output<S>(old: PlaybackShared<S>, new: PlaybackShared<S>, frames: int, wanted: int) -> bool {
    &&& new.playback_samples@ == old.playback_samples@
    &&& new.analysis_samples@ == old.analysis_samples@
    &&& new.output_channels == old.output_channels
    &&& new.sample_rate == old.sample_rate
    &&& new.total_playback_frames == old.total_playback_frames
    &&& new.decode_finished == old.decode_finished
    &&& new.playback_cursor == old.playback_cursor + frames * old.output_channels
    &&& new.analysis_cursor == (if frames == 0 {
        old.analysis_cursor as int
    } else if old.analysis_cursor + frames < old.analysis_samples@.len() {
        old.analysis_cursor + frames
    } else {
        old.analysis_samples@.len() as int
    })
    &&& new.playback_state == (if frames < wanted && old.decode_finished {
        PlaybackState::Stopped
    } else {
        old.playback_state
    })
}

/// Fills the device buffer `output`. While playing, whole frames are copied from
/// the cursor on as far as the buffer holds them and the rest is `silence` (all
/// of it when the cursor is past the end of the buffer); when the buffer runs
/// dry after the decoder finished, playback stops. When not playing, the output
/// is all `silence` and nothing moves.
pub fn write_output_data<S: Copy>(output: &mut Vec<S>, shared: &mut PlaybackShared<S>, silence: S)
    requires
        old(shared).playback_state == PlaybackState::Playing ==> old(shared).output_channels > 0,
    ensures
        final(output)@.len() == old(output)@.len(),
        old(shared).playback_state != PlaybackState::Playing ==> {
            &&& *final(shared) == *old(shared)
            &&& forall|i: int| 0 <= i < final(output)@.len() ==> #[trigger] final(output)@[i] == silence
        },
        old(shared).playback_state == PlaybackState::Playing ==> {
            let frames = frames_copied(*old(shared), old(output)@.len() as int);
            let copied = frames * old(shared).output_channels;
            &&& after_output(
                *old(shared),
                *final(shared),
                frames,
                frame_count(old(output)@.len() as int, old(shared).output_channels as int),
            )
            &&& old(shared).playback_cursor <= old(shared).playback_samples@.len()
                ==> final(shared).playback_cursor <= final(shared).playback_samples@.len()
            &&& forall|i: int|
                0 <= i < final(output)@.len() ==> #[trigger] final(output)@[i] == (if i < copied {
                    old(shared).playback_samples@[old(shared).playback_cursor + i]
                } else {
                    silence
                })
        },
{
    if shared.playback_state != PlaybackState::Playing {
        let mut i: usize = 0;
        while i < output.len()
            invariant
                i <= output@.len(),
                output@.len() == old(output)@.len(),
                forall|k: int| 0 <= k < i ==> #[trigger] output@[k] == silence,
            decreases output@.len() - i,
        {
            output.set(i, silence);
            i += 1;
        }
        return;
    }
    let channels = shared.output_channels;
    let len = output.len();
    let base = shared.playback_cursor;
    let buffered = shared.playback_samples.len();
    let remaining = if base <= buffered {
        buffered - base
    } else {
        0
    };
    let available = remaining / channels;
    assert(len % channels != 0 ==> len / channels < len) by (nonlinear_arith)
        requires
            channels > 0,
    ;
    let wanted = len / channels + if len % channels == 0 {
        0
    } else {
        1
    };
    let frames = if available < wanted {
        available
    } else {
        wanted
    };
    assert(0 <= frames * channels <= remaining) by (nonlinear_arith)
        requires
            frames <= available,
            available == remaining / channels,
            channels > 0,
    ;
    let copied = frames * channels;
    assert(copied > 0 ==> base + copied <= buffered);
    let copy_len = if copied < len {
        copied
    } else {
        len
    };
    let mut i: usize = 0;
    while i < len
        invariant
            i <= len,
            len == output@.len(),
            copy_len <= len,
            copy_len <= copied,
            copy_len == len || copy_len == copied,
            copied > 0 ==> base + copied <= shared.playback_samples@.len(),
            base + copied <= usize::MAX,
            shared.playback_samples@ == old(shared).playback_samples@,
            base == old(shared).playback_cursor,
            forall|k: int|
                0 <= k < i ==> #[trigger] output@[k] == (if k < copied {
                    old(shared).playback_samples@[base + k]
                } else {
                    silence
                }),
        decreases len - i,
    {
        if i < copy_len {
            output.set(i, shared.playback_samples[base + i]);
        } else {
            output.set(i, silence);
        }
        i += 1;
    }
    shared.playback_cursor = base + copied;
    if frames > 0 {
        let analysis_len = shared.analysis_samples.len();
        let current = shared.analysis_cursor;
        shared.analysis_cursor = if current >= analysis_len {
            analysis_len
        } else if frames < analysis_len - current {
            current + frames
        } else {
            analysis_len
        };
    }
    if frames < wanted && shared.decode_finished {
        shared.playback_state = PlaybackState::Stopped;
    }
}

/// Position and length of the track: frames are counted in whole output frames,
/// the length is the known track length or else what has been decoded, and the
/// position never passes the length; seconds are whole frames divided by the
/// sample rate (taken as at least 1).
pub open spec fn progress_of<S>(shared: PlaybackShared<S>, sample_rate: u32) -> PlaybackProgress {
    let ch = shared.output_channels as int;
    let buffered: int = if ch == 0 {
        0
    } else {
        (shared.playback_samples@.len() as int) / ch
    };
    let total = match shared.total_playback_frames {
        Some(t) => t as int,
        None => buffered,
    };
    let played: int = if ch == 0 {
        0
    } else {
        (shared.playback_cursor as int) / ch
    };
    let position = if played < total {
        played
    } else {
        total
    };
    let rate = if sample_rate > 0 {
        sample_rate as int
    } else {
        1
    };
    PlaybackProgress {
        position_secs: (position / rate) as u64,
        total_secs: (total / rate) as u64,
        position_frames: position as usize,
        total_frames: total as usize,
    }
}

/// The reported position never passes the reported length, in frames or in
/// seconds.
pub proof fn law_progress_within_track<S>(shared: PlaybackShared<S>, sample_rate: u32)
    requires
        shared.playback_samples@.len() <= usize::MAX,
    ensures
        progress_of(shared, sample_rate).position_frames <= progress_of(shared, sample_rate).total_frames,
        progress_of(shared, sample_rate).position_secs <= progress_of(shared, sample_rate).total_secs,
{
    let p = progress_of(shared, sample_rate);
    let ch = shared.output_channels as int;
    let rate: int = if sample_rate > 0 {
        sample_rate as int
    } else {
        1
    };
    let buffered: int = if ch == 0 {
        0
    } else {
        (shared.playback_samples@.len() as int) / ch
    };
    let total: int = match shared.total_playback_frames {
        Some(t) => t as int,
        None => buffered,
    };
    let played: int = if ch == 0 {
        0
    } else {
        (shared.playback_cursor as int) / ch
    };
    let position: int = if played < total {
        played
    } else {
        total
    };
    if ch > 0 {
        assert(0 <= (shared.playback_samples@.len() as int) / ch <= shared.playback_samples@.len()) by (nonlinear_arith)
            requires ch > 0;
        assert(0 <= (shared.playback_cursor as int) / ch) by (nonlinear_arith)
            requires ch > 0;
    }
    assert(0 <= position <= total);
    assert(position / rate <= total / rate) by (nonlinear_arith)
        requires 0 <= position <= total, rate > 0;
    assert(0 <= position / rate) by (nonlinear_arith)
        requires 0 <= position, rate > 0;
    assert(total / rate <= total) by (nonlinear_arith)
        requires 0 <= total, rate > 0;
}

pub fn progress_from_shared<S>(shared: &PlaybackShared<S>, sample_rate: u32) -> (progress: PlaybackProgress)
    ensures
        progress == progress_of(*shared, sample_rate),
{
    let channels = shared.output_channels;
    let buffered_frames = if channels == 0 {
        0
    } else {
        shared.playback_samples.len() / channels
    };
    let total_frames = match shared.total_playback_frames {
        Some(total) => total,
        None => buffered_frames,
    };
    let played = if channels == 0 {
        0
    } else {
        shared.playback_cursor / channels
    };
    let position_frames = if played < total_frames {
        played
    } else {
        total_frames
    };
    let rate: u64 = if sample_rate > 0 {
        sample_rate as u64
    } else {
        1
    };
    PlaybackProgress {
        position_secs: position_frames as u64 / rate,
        total_secs: total_frames as u64 / rate,
        position_frames,
        total_frames,
    }
}

} // verus!
