//! Output formats and the copy-first decision table.
//!
//! ffmpeg reads raw MPEG-TS on stdin (fed by the shared engine puller) rather
//! than opening the engine URL itself, so there is exactly one engine pull per
//! content id no matter how many formats are being served from it.

use vstd::prelude::*;

use crate::text::{decimal, numeral, same_text, texts};

verus! {

/// What happens to a track on its way out.
#[derive(Debug, Clone, Copy, PartialEq, Eq, Structural)]
pub enum TrackMode {
    /// Stream-copied untouched: no re-encode, no quality loss, near-zero CPU.
    Copy,
    Transcode,
    /// Track is dropped entirely (video on the audio-only endpoints).
    Dropped,
}

impl TrackMode {
    /// The mode as /status and the log write it.
    pub open spec fn name(self) -> Seq<char> {
        match self {
            TrackMode::Copy => "copy"@,
            TrackMode::Transcode => "transcode"@,
            TrackMode::Dropped => "drop"@,
        }
    }

    /// The mode as /status and the log write it.
    pub fn as_str(self) -> (r: &'static str)
        ensures
            r@ == self.name(),
    {
        match self {
            TrackMode::Copy => "copy",
            TrackMode::Transcode => "transcode",
            TrackMode::Dropped => "drop",
        }
    }
}

#[derive(Debug, Clone, Copy, PartialEq, Eq, Hash, PartialOrd, Ord, Structural)]
pub enum OutputFormat {
    Adts,
    Mp3,
    Fmp4,
}

impl OutputFormat {
    /// The name of the format.
    pub open spec fn name(self) -> Seq<char> {
        match self {
            OutputFormat::Adts => "adts"@,
            OutputFormat::Mp3 => "mp3"@,
            OutputFormat::Fmp4 => "fmp4"@,
        }
    }

    /// The media type that the format is served as.
    pub open spec fn media_type(self) -> Seq<char> {
        match self {
            OutputFormat::Adts => "audio/aac"@,
            OutputFormat::Mp3 => "audio/mpeg"@,
            OutputFormat::Fmp4 => "video/mp4"@,
        }
    }

    /// The audio format of that name.
    pub open spec fn audio_named(s: Seq<char>) -> Option<OutputFormat> {
        if s == "adts"@ {
            Some(OutputFormat::Adts)
        } else if s == "mp3"@ {
            Some(OutputFormat::Mp3)
        } else {
            None
        }
    }

    pub fn as_str(self) -> (r: &'static str)
        ensures
            r@ == self.name(),
    {
        match self {
            OutputFormat::Adts => "adts",
            OutputFormat::Mp3 => "mp3",
            OutputFormat::Fmp4 => "fmp4",
        }
    }

    pub fn content_type(self) -> (r: &'static str)
        ensures
            r@ == self.media_type(),
    {
        match self {
            OutputFormat::Adts => "audio/aac",
            OutputFormat::Mp3 => "audio/mpeg",
            OutputFormat::Fmp4 => "video/mp4",
        }
    }

    /// Only fMP4 has an init segment that late joiners need replayed; ADTS and
    /// MP3 are self-synchronising, so any byte offset is a valid join point.
    pub fn needs_init_segment(self) -> (r: bool)
        ensures
            r == (self is Fmp4),
    {
        match self {
            OutputFormat::Fmp4 => true,
            _ => false,
        }
    }

    /// The `fmt=` values accepted on /audio.
    pub fn parse_audio(s: &str) -> (r: Option<Self>)
        ensures
            r == OutputFormat::audio_named(s@),
    {
        if same_text(s, "adts") {
            Some(OutputFormat::Adts)
        } else if same_text(s, "mp3") {
            Some(OutputFormat::Mp3)
        } else {
            None
        }
    }
}

/// The chosen encoding for one (format, source codec) pair.
#[derive(Debug, Clone, PartialEq, Eq)]
pub struct Plan {
    pub args: Vec<String>,
    pub video: TrackMode,
    pub audio: TrackMode,
}

/// Fragment duration override for fMP4, in milliseconds.
///
/// Unset means keyframe-only fragmentation: a `moof` cannot be written until
/// its fragment is complete, so fragment duration is a hard latency floor equal
/// to the source GOP. Setting this cuts fragments mid-GOP, which lowers latency
/// but lands late joiners on a non-keyframe boundary (artifacts until the next
/// IDR).
pub type FragDurationMs = Option<u32>;

// ---------------------------------------------------------------------------
// The command line, in the abstract
// ---------------------------------------------------------------------------

/// What is done to the video track.
pub open spec fn video_mode(fmt: OutputFormat) -> TrackMode {
    match fmt {
        OutputFormat::Fmp4 => TrackMode::Copy,
        _ => TrackMode::Dropped,
    }
}

/// The source codec that a format takes over without re-encoding.
pub open spec fn native_codec(fmt: OutputFormat) -> Seq<char> {
    match fmt {
        OutputFormat::Mp3 => "mp3"@,
        _ => "aac"@,
    }
}

/// What is done to the audio track of a source whose first audio stream has
/// this codec, if it has any: copied where the format takes it as it is. The
/// audio-only formats ask for a transcode even of a source without audio.
pub open spec fn audio_mode(fmt: OutputFormat, codec: Option<Seq<char>>) -> TrackMode {
    if codec == Some(native_codec(fmt)) {
        TrackMode::Copy
    } else if codec is None && fmt is Fmp4 {
        TrackMode::Dropped
    } else {
        TrackMode::Transcode
    }
}

/// How much input ffmpeg may examine before it must have identified the
/// streams: microseconds, then bytes.
pub open spec fn window(fmt: OutputFormat) -> (Seq<char>, Seq<char>) {
    match fmt {
        OutputFormat::Fmp4 => ("3000000"@, "10000000"@),
        _ => ("1000000"@, "500000"@),
    }
}

/// The options for the input, and the input.
pub open spec fn input_options(fmt: OutputFormat) -> Seq<Seq<char>> {
    seq![
        "-hide_banner"@,
        "-loglevel"@,
        "error"@,
        "-avioflags"@,
        "direct"@,
        "-fflags"@,
        "discardcorrupt"@,
        "-flags"@,
        "low_delay"@,
        "-analyzeduration"@,
        window(fmt).0,
        "-probesize"@,
        window(fmt).1,
        "-max_delay"@,
        "0"@,
        "-f"@,
        "mpegts"@,
        "-i"@,
        "pipe:0"@,
    ]
}

/// The options that keep the output from being buffered.
pub open spec fn flush_options() -> Seq<Seq<char>> {
    seq!["-avioflags"@, "direct"@, "-flush_packets"@, "1"@]
}

/// The options for the video track, and for the tracks that no output carries.
pub open spec fn video_options(fmt: OutputFormat) -> Seq<Seq<char>> {
    match fmt {
        OutputFormat::Fmp4 => seq!["-c:v"@, "copy"@],
        _ => seq!["-vn"@, "-sn"@, "-dn"@],
    }
}

/// The options for the audio track.
pub open spec fn audio_options(fmt: OutputFormat, mode: TrackMode) -> Seq<Seq<char>> {
    match (mode, fmt) {
        (TrackMode::Dropped, _) => seq!["-an"@],
        (TrackMode::Copy, OutputFormat::Fmp4) => seq![
            "-c:a"@,
            "copy"@,
            "-bsf:a"@,
            "aac_adtstoasc"@,
        ],
        (TrackMode::Copy, _) => seq!["-c:a"@, "copy"@],
        (TrackMode::Transcode, OutputFormat::Mp3) => seq![
            "-c:a"@,
            "libmp3lame"@,
            "-b:a"@,
            "128k"@,
            "-ac"@,
            "2"@,
        ],
        (TrackMode::Transcode, _) => seq!["-c:a"@, "aac"@, "-b:a"@, "128k"@, "-ac"@, "2"@],
    }
}

/// How the MP4 is cut into fragments: at keyframes, or at a duration that is
/// given to ffmpeg in microseconds.
pub open spec fn fragment_options(frag_ms: FragDurationMs) -> Seq<Seq<char>> {
    match frag_ms {
        Some(ms) => seq![
            "-frag_duration"@,
            numeral((ms * 1000) as nat, 10),
            "-movflags"@,
            "+empty_moov+default_base_moof+omit_tfhd_offset"@,
        ],
        None => seq![
            "-movflags"@,
            "+frag_keyframe+empty_moov+default_base_moof+omit_tfhd_offset"@,
        ],
    }
}

/// The output's container, with what it needs.
pub open spec fn output_options(fmt: OutputFormat, frag_ms: FragDurationMs) -> Seq<Seq<char>> {
    match fmt {
        OutputFormat::Fmp4 => seq!["-avoid_negative_ts"@, "make_zero"@] + flush_options()
            + fragment_options(frag_ms) + seq!["-f"@, "mp4"@, "pipe:1"@],
        _ => flush_options() + seq!["-f"@, fmt.name(), "pipe:1"@],
    }
}

/// The whole command line.
pub open spec fn command_line(
    fmt: OutputFormat,
    codec: Option<Seq<char>>,
    frag_ms: FragDurationMs,
) -> Seq<Seq<char>> {
    input_options(fmt) + video_options(fmt) + audio_options(fmt, audio_mode(fmt, codec))
        + output_options(fmt, frag_ms)
}

// ---------------------------------------------------------------------------
// Building it
// ---------------------------------------------------------------------------

/// Appends one argument.
fn arg(args: &mut Vec<String>, v: &str)
    ensures
        texts(final(args)@) == texts(old(args)@).push(v@),
{
    args.push(v.to_owned());
    proof {
        assert(texts(args@) == texts(old(args)@).push(v@));
    }
}

/// How much input ffmpeg may examine before it must have identified the
/// streams, as `(analyzeduration_us, probesize_bytes)`.
///
/// These are *not* free caps that `find_stream_info` exits early from: startup
/// tracks them almost one-for-one, so the value is a direct latency cost.
///
/// Video needs more than audio. Copying H.264 into MP4 requires SPS/PPS
/// extradata to build the `avcC` box; too small a window and the muxer refuses
/// to write a header at all. Audio parameters come from any frame header.
///
/// The floor for video is about 2s of content wherever the encoder attaches; 3s
/// is that floor plus margin, not a GOP multiple. The replay window hands
/// ffmpeg a keyframe in its opening bytes, so it never has to wait one out.
fn probe_window(fmt: OutputFormat) -> (r: (&'static str, &'static str))
    ensures
        (r.0@, r.1@) == window(fmt),
{
    match fmt {
        OutputFormat::Fmp4 => ("3000000", "10000000"),
        _ => ("1000000", "500000"),
    }
}

/// Input-side options. These must precede `-i`: `-fflags` and `-flags` are
/// demuxer/decoder options and are silently inert if placed after it.
fn input_args(fmt: OutputFormat) -> (args: Vec<String>)
    ensures
        texts(args@) == input_options(fmt),
{
    let (analyzeduration, probesize) = probe_window(fmt);
    let mut args: Vec<String> = Vec::new();
    assert(texts(args@) == Seq::<Seq<char>>::empty());
    arg(&mut args, "-hide_banner");
    arg(&mut args, "-loglevel");
    arg(&mut args, "error");
    // Position-sensitive: also set on the output side below.
    arg(&mut args, "-avioflags");
    arg(&mut args, "direct");
    // discardcorrupt matters for a P2P source, where corrupt and partial frames
    // are routine rather than exceptional.
    //
    // Deliberately *without* `nobuffer`, despite its billing as a low-latency
    // flag: it slows stream analysis and so delays first output. Output-side
    // latency is handled by -flush_packets and -avioflags direct, which cost
    // nothing.
    arg(&mut args, "-fflags");
    arg(&mut args, "discardcorrupt");
    arg(&mut args, "-flags");
    arg(&mut args, "low_delay");
    arg(&mut args, "-analyzeduration");
    arg(&mut args, analyzeduration);
    arg(&mut args, "-probesize");
    arg(&mut args, probesize);
    arg(&mut args, "-max_delay");
    arg(&mut args, "0");
    // The input is always raw TS from the engine puller; naming the demuxer
    // skips format detection entirely.
    arg(&mut args, "-f");
    arg(&mut args, "mpegts");
    arg(&mut args, "-i");
    arg(&mut args, "pipe:0");
    args
}

/// Output-side options common to every format. `-flush_packets 1` is the single
/// biggest steady-state latency win: without it ffmpeg's output AVIO buffers
/// ~32KB before writing to the pipe, which at 128 kbps is ~2 seconds.
fn flush_args(args: &mut Vec<String>)
    ensures
        texts(final(args)@) == texts(old(args)@) + flush_options(),
{
    arg(args, "-avioflags");
    arg(args, "direct");
    arg(args, "-flush_packets");
    arg(args, "1");
    assert(texts(args@) == texts(old(args)@) + flush_options());
}

/// A re-encode to 128k stereo.
fn encode_args(args: &mut Vec<String>, fmt: OutputFormat)
    ensures
        texts(final(args)@) == texts(old(args)@) + audio_options(fmt, TrackMode::Transcode),
{
    arg(args, "-c:a");
    match fmt {
        OutputFormat::Mp3 => arg(args, "libmp3lame"),
        _ => arg(args, "aac"),
    }
    arg(args, "-b:a");
    arg(args, "128k");
    arg(args, "-ac");
    arg(args, "2");
    assert(texts(args@) == texts(old(args)@) + audio_options(fmt, TrackMode::Transcode));
}

/// The text of an optional codec name.
pub open spec fn codec_text(codec: Option<&str>) -> Option<Seq<char>> {
    match codec {
        Some(c) => Some(c@),
        None => None,
    }
}

/// What to do with the audio track.
fn choose_audio(fmt: OutputFormat, audio_codec: Option<&str>) -> (mode: TrackMode)
    ensures
        mode == audio_mode(fmt, codec_text(audio_codec)),
{
    let want: &str = match fmt {
        OutputFormat::Mp3 => "mp3",
        _ => "aac",
    };
    match audio_codec {
        Some(c) => if same_text(c, want) {
            TrackMode::Copy
        } else {
            TrackMode::Transcode
        },
        None => match fmt {
            OutputFormat::Fmp4 => TrackMode::Dropped,
            _ => TrackMode::Transcode,
        },
    }
}

/// Appends the options for the audio track.
fn audio_args(args: &mut Vec<String>, fmt: OutputFormat, mode: TrackMode)
    ensures
        texts(final(args)@) == texts(old(args)@) + audio_options(fmt, mode),
{
    match mode {
        TrackMode::Copy => {
            arg(args, "-c:a");
            arg(args, "copy");
            match fmt {
                OutputFormat::Fmp4 => {
                    // MPEG-TS carries AAC in ADTS framing; MP4 wants raw AAC
                    // with an AudioSpecificConfig in the sample entry. The muxer
                    // does not convert on copy: without this it aborts the
                    // stream with "Malformed AAC bitstream detected". Not needed
                    // on the /audio routes, where ADTS is the native output
                    // framing, nor when transcoding, since the encoder emits raw
                    // AAC.
                    arg(args, "-bsf:a");
                    arg(args, "aac_adtstoasc");
                },
                _ => {},
            }
        },
        TrackMode::Transcode => encode_args(args, fmt),
        TrackMode::Dropped => arg(args, "-an"),
    }
    assert(texts(args@) == texts(old(args)@) + audio_options(fmt, mode));
}

/// Build the full ffmpeg argv for one stream.
///
/// `audio_codec` is the source's first audio stream codec name as reported by
/// ffprobe (e.g. "aac", "ac3"); `None` means no audio stream was found.
pub fn plan(fmt: OutputFormat, audio_codec: Option<&str>, frag_ms: FragDurationMs) -> (p: Plan)
    ensures
        texts(p.args@) == command_line(fmt, codec_text(audio_codec), frag_ms),
        p.video == video_mode(fmt),
        p.audio == audio_mode(fmt, codec_text(audio_codec)),
{
    let mut args = input_args(fmt);
    let audio = choose_audio(fmt, audio_codec);
    match fmt {
        OutputFormat::Fmp4 => {
            // Video is always copied: that is where the CPU win is, and it is
            // what "zero copy" means here (no re-encode, not untouched bytes).
            arg(&mut args, "-c:v");
            arg(&mut args, "copy");
            assert(texts(args@) == input_options(fmt) + video_options(fmt));
            // AC-3, E-AC-3 and MP2 are legal in MP4 but browsers will not decode
            // them, so a blanket `-c copy` yields video with silence. Only AAC
            // survives the copy path.
            audio_args(&mut args, fmt, audio);
            let ghost so_far = texts(args@);
            // Broadcast TS carries timestamp discontinuities that MP4 rejects.
            arg(&mut args, "-avoid_negative_ts");
            arg(&mut args, "make_zero");
            flush_args(&mut args);
            match frag_ms {
                Some(ms) => {
                    // frag_duration is in microseconds.
                    let us = decimal(ms as u64 * 1000);
                    arg(&mut args, "-frag_duration");
                    arg(&mut args, us.as_str());
                    arg(&mut args, "-movflags");
                    arg(&mut args, "+empty_moov+default_base_moof+omit_tfhd_offset");
                },
                None => {
                    arg(&mut args, "-movflags");
                    arg(
                        &mut args,
                        "+frag_keyframe+empty_moov+default_base_moof+omit_tfhd_offset",
                    );
                },
            }
            arg(&mut args, "-f");
            arg(&mut args, "mp4");
            arg(&mut args, "pipe:1");
            assert(texts(args@) == so_far + output_options(fmt, frag_ms));
            Plan { args, video: TrackMode::Copy, audio }
        },
        _ => {
            arg(&mut args, "-vn");
            arg(&mut args, "-sn");
            arg(&mut args, "-dn");
            assert(texts(args@) == input_options(fmt) + video_options(fmt));
            audio_args(&mut args, fmt, audio);
            let ghost so_far = texts(args@);
            flush_args(&mut args);
            arg(&mut args, "-f");
            arg(&mut args, fmt.as_str());
            arg(&mut args, "pipe:1");
            assert(texts(args@) == so_far + output_options(fmt, frag_ms));
            Plan { args, video: TrackMode::Dropped, audio }
        },
    }
}

} // verus!
