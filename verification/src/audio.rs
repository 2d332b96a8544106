use vstd::prelude::*;
use crate::paths::{extension, path_extension};
use crate::text::{chars_of, push_char, str_eq};

verus! {

/// The file extensions that the player decodes.
pub open spec fn is_supported_ext(ext: Seq<char>) -> bool {
    ||| ext == "mp3"@
    ||| ext == "flac"@
    ||| ext == "wav"@
    ||| ext == "ogg"@
}

/// `c` with ASCII upper-case letters mapped to lower case.
pub open spec fn ascii_lower(c: char) -> char {
    if 'A' <= c && c <= 'Z' {
        ((c as u32) + 32) as char
    } else {
        c
    }
}

/// `s` with every ASCII upper-case letter mapped to lower case.
pub open spec fn ascii_lowercase(s: Seq<char>) -> Seq<char> {
    Seq::new(s.len(), |i: int| ascii_lower(s[i]))
}

/// Whether `ext` is one of `mp3`, `flac`, `wav`, `ogg` (exactly, case included).
pub fn supported_extension(ext: &str) -> (r: bool)
    ensures
        r == is_supported_ext(ext@),
{
    str_eq(ext, "mp3") || str_eq(ext, "flac") || str_eq(ext, "wav") || str_eq(ext, "ogg")
}

fn to_ascii_lowercase(s: &str) -> (r: String)
    ensures
        r@ == ascii_lowercase(s@),
{
    let cs = chars_of(s);
    let mut out = String::new();
    let mut i: usize = 0;
    while i < cs.len()
        invariant
            i <= cs.len(),
            cs@ == s@,
            out@ =~= ascii_lowercase(s@).take(i as int),
        decreases cs.len() - i,
    {
        let c = cs[i];
        if 'A' <= c && c <= 'Z' {
            let code = c as u32;
            assert(65 <= code <= 90);
            let small = code as u8;
            assert(small as u32 == code);
            let lower = (small + 32) as char;
            assert(lower == ascii_lower(c));
            push_char(&mut out, lower);
        } else {
            push_char(&mut out, c);
        }
        assert(ascii_lowercase(s@).take(i + 1) =~= ascii_lowercase(s@).take(i as int).push(
            ascii_lower(c),
        ));
        i += 1;
    }
    out
}

/// Whether `path` names a file of a supported format, its extension compared
/// without regard to ASCII case.
pub fn supported_path(path: &str) -> (r: bool)
    ensures
        r == match extension(path@) {
            Some(ext) => is_supported_ext(ascii_lowercase(ext)),
            None => false,
        },
{
    match path_extension(path) {
        Some(ext) => {
            let lower = to_ascii_lowercase(ext.as_str());
            supported_extension(lower.as_str())
        },
        None => false,
    }
}


/// Output frames of resampling `frames` input frames from `input_rate` to
/// `output_rate` (at least one).
pub open spec fn resampled_frame_count(frames: int, input_rate: int, output_rate: int) -> int {
    let n = frames * output_rate / input_rate;
    if n > 1 {
        n
    } else {
        1
    }
}

/// The input frame that output frame `frame` repeats: the one at the same time
/// point, rounded down, and never past the last input frame.
pub open spec fn source_frame(frame: int, input_rate: int, output_rate: int, frames: int) -> int {
    let at = frame * input_rate / output_rate;
    if at < frames - 1 {
        at
    } else {
        frames - 1
    }
}

/// Nearest-frame resampling of interleaved audio: unchanged for equal rates or
/// no channels; otherwise each output frame copies its source frame.
pub open spec fn resampled<S>(samples: Seq<S>, channels: int, input_rate: int, output_rate: int) -> Seq<S> {
    if input_rate == output_rate || channels == 0 {
        samples
    } else {
        let frames = (samples.len() as int) / channels;
        let out_frames = resampled_frame_count(frames, input_rate, output_rate);
        Seq::new(
            (out_frames * channels) as nat,
            |i: int|
                samples[source_frame(i / channels, input_rate, output_rate, frames) * channels + i
                    % channels],
        )
    }
}

/// Whether resampling can run: positive rates and at least one full frame when
/// the rates differ, and counts that fit the integer types used.
pub open spec fn resample_fits(len: int, channels: int, input_rate: int, output_rate: int) -> bool {
    input_rate != output_rate && channels != 0 ==> {
        let frames = len / channels;
        let out_frames = resampled_frame_count(frames, input_rate, output_rate);
        &&& input_rate > 0
        &&& output_rate > 0
        &&& frames >= 1
        &&& frames * output_rate <= u64::MAX
        &&& out_frames * input_rate <= u64::MAX
        &&& out_frames * channels <= usize::MAX
    }
}

/// Resamples interleaved audio by repeating or dropping whole frames (see `resampled`).
pub fn resample_interleaved<S: Copy>(
    samples: &[S],
    channels: u16,
    input_sample_rate: u32,
    output_sample_rate: u32,
) -> (out: Vec<S>)
    requires
        resample_fits(
            samples@.len() as int,
            channels as int,
            input_sample_rate as int,
            output_sample_rate as int,
        ),
    ensures
        out@ == resampled(
            samples@,
            channels as int,
            input_sample_rate as int,
            output_sample_rate as int,
        ),
{
    let mut out: Vec<S> = Vec::new();
    if input_sample_rate == output_sample_rate || channels == 0 {
        let mut i: usize = 0;
        while i < samples.len()
            invariant
                i <= samples@.len(),
                out@ == samples@.take(i as int),
            decreases samples@.len() - i,
        {
            out.push(samples[i]);
            assert(out@ =~= samples@.take(i + 1));
            i += 1;
        }
        assert(samples@.take(samples@.len() as int) =~= samples@);
        return out;
    }
    let ch = channels as usize;
    let sample_count = samples.len();
    assert(sample_count == samples@.len());
    let frames = samples.len() / ch;
    let ghost spec_out = resampled(
        samples@,
        channels as int,
        input_sample_rate as int,
        output_sample_rate as int,
    );
    let scaled = (frames as u64) * (output_sample_rate as u64) / (input_sample_rate as u64);
    let out_frames_u64: u64 = if scaled > 1 {
        scaled
    } else {
        1
    };
    assert(out_frames_u64 == resampled_frame_count(
        frames as int,
        input_sample_rate as int,
        output_sample_rate as int,
    ));
    assert(out_frames_u64 <= usize::MAX) by (nonlinear_arith)
        requires
            out_frames_u64 * ch <= usize::MAX,
            ch >= 1,
    ;
    let out_frames = out_frames_u64 as usize;
    assert(out_frames == resampled_frame_count(
        frames as int,
        input_sample_rate as int,
        output_sample_rate as int,
    ));
    assert(frames * ch <= samples@.len()) by (nonlinear_arith)
        requires
            frames == (samples@.len() as int) / (ch as int),
            ch > 0,
    ;
    let mut frame: usize = 0;
    while frame < out_frames
        invariant
            frame <= out_frames,
            ch == channels as usize,
            ch > 0,
            frames == (samples@.len() as int) / (ch as int),
            frames >= 1,
            frames * ch <= samples@.len(),
            samples@.len() <= usize::MAX,
            input_sample_rate > 0,
            output_sample_rate > 0,
            out_frames == resampled_frame_count(
                frames as int,
                input_sample_rate as int,
                output_sample_rate as int,
            ),
            out_frames * input_sample_rate <= u64::MAX,
            out_frames * ch <= usize::MAX,
            spec_out.len() == out_frames * ch,
            forall|i: int|
                0 <= i < spec_out.len() ==> #[trigger] spec_out[i] == samples@[source_frame(
                    i / (ch as int),
                    input_sample_rate as int,
                    output_sample_rate as int,
                    frames as int,
                ) * ch + i % (ch as int)],
            out@.len() == frame * ch,
            forall|i: int| 0 <= i < out@.len() ==> #[trigger] out@[i] == spec_out[i],
        decreases out_frames - frame,
    {
        assert(frame * input_sample_rate <= out_frames * input_sample_rate) by (nonlinear_arith)
            requires
                frame <= out_frames,
        ;
        let at = (frame as u64) * (input_sample_rate as u64) / (output_sample_rate as u64);
        let last = (frames - 1) as u64;
        let source = if at < last {
            at
        } else {
            last
        } as usize;
        assert(source == source_frame(
            frame as int,
            input_sample_rate as int,
            output_sample_rate as int,
            frames as int,
        ));
        assert(source * ch + ch <= frames * ch) by (nonlinear_arith)
            requires
                source < frames,
        ;
        let base = source * ch;
        let mut c: usize = 0;
        while c < ch
            invariant
                c <= ch,
                ch > 0,
                base + ch <= samples@.len(),
                samples@.len() <= usize::MAX,
                base == source * ch,
                frame < out_frames,
                out_frames * ch <= usize::MAX,
                source == source_frame(
                    frame as int,
                    input_sample_rate as int,
                    output_sample_rate as int,
                    frames as int,
                ),
                spec_out.len() == out_frames * ch,
                forall|i: int|
                    0 <= i < spec_out.len() ==> #[trigger] spec_out[i] == samples@[source_frame(
                        i / (ch as int),
                        input_sample_rate as int,
                        output_sample_rate as int,
                        frames as int,
                    ) * ch + i % (ch as int)],
                out@.len() == frame * ch + c,
                forall|i: int| 0 <= i < out@.len() ==> #[trigger] out@[i] == spec_out[i],
            decreases ch - c,
        {
            let ghost idx = frame * ch + c;
            assert(idx < out_frames * ch) by (nonlinear_arith)
                requires
                    frame < out_frames,
                    c < ch,
                    idx == frame * ch + c,
            ;
            proof {
                vstd::arithmetic::div_mod::lemma_fundamental_div_mod_converse(
                    idx,
                    ch as int,
                    frame as int,
                    c as int,
                );
                assert(spec_out[idx] == samples@[base + c]);
            }
            out.push(samples[base + c]);
            c += 1;
        }
        assert(out@.len() == (frame + 1) * ch) by (nonlinear_arith)
            requires
                out@.len() == frame * ch + ch,
        ;
        frame += 1;
    }
    assert(out@ =~= spec_out);
    out
}

} // verus!
