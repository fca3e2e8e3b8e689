//! What every command line has in common.

use vstd::prelude::*;

use crate::format::{
    audio_mode, audio_options, command_line, flush_options, input_options, native_codec,
    output_options, video_mode, video_options, FragDurationMs, OutputFormat, TrackMode,
};
use crate::text::{law_numerals_read_back, number, numeral};

verus! {

/// Where the input stands in a command line: behind `-i`, which stands here.
pub open spec fn input_at() -> int {
    17
}

/// The length and the first two characters of a text, by which the options are
/// told apart.
spec fn mark(s: Seq<char>) -> (nat, char, char) {
    (s.len(), s[0], s[1])
}

proof fn lemma_options()
    ensures
        mark("-fflags"@) == (7nat, '-', 'f'),
        mark("-flags"@) == (6nat, '-', 'f'),
        mark("-i"@) == (2nat, '-', 'i'),
        mark("-c:v"@) == (4nat, '-', 'c'),
        mark("copy"@) == (4nat, 'c', 'o'),
        mark("-vn"@) == (3nat, '-', 'v'),
        mark("-sn"@) == (3nat, '-', 's'),
        mark("-dn"@) == (3nat, '-', 'd'),
        mark("-an"@) == (3nat, '-', 'a'),
        mark("-c:a"@) == (4nat, '-', 'c'),
        mark("-bsf:a"@) == (6nat, '-', 'b'),
        mark("aac_adtstoasc"@) == (13nat, 'a', 'a'),
        mark("libmp3lame"@) == (10nat, 'l', 'i'),
        mark("aac"@) == (3nat, 'a', 'a'),
        mark("-b:a"@) == (4nat, '-', 'b'),
        mark("128k"@) == (4nat, '1', '2'),
        mark("-ac"@) == (3nat, '-', 'a'),
        "2"@.len() == 1,
        mark("-avoid_negative_ts"@) == (18nat, '-', 'a'),
        mark("make_zero"@) == (9nat, 'm', 'a'),
        mark("-avioflags"@) == (10nat, '-', 'a'),
        mark("direct"@) == (6nat, 'd', 'i'),
        mark("-flush_packets"@) == (14nat, '-', 'f'),
        "1"@.len() == 1,
        mark("-frag_duration"@) == (14nat, '-', 'f'),
        mark("-movflags"@) == (9nat, '-', 'm'),
        mark("+empty_moov+default_base_moof+omit_tfhd_offset"@) == (46nat, '+', 'e'),
        mark("+frag_keyframe+empty_moov+default_base_moof+omit_tfhd_offset"@) == (60nat, '+', 'f'),
        mark("-f"@) == (2nat, '-', 'f'),
        mark("mp4"@) == (3nat, 'm', 'p'),
        mark("adts"@) == (4nat, 'a', 'd'),
        mark("mp3"@) == (3nat, 'm', 'p'),
        mark("pipe:1"@) == (6nat, 'p', 'i'),
        mark("-hide_banner"@) == (12nat, '-', 'h'),
        mark("-loglevel"@) == (9nat, '-', 'l'),
        mark("error"@) == (5nat, 'e', 'r'),
        mark("discardcorrupt"@) == (14nat, 'd', 'i'),
        mark("low_delay"@) == (9nat, 'l', 'o'),
        mark("-analyzeduration"@) == (16nat, '-', 'a'),
        mark("3000000"@) == (7nat, '3', '0'),
        mark("1000000"@) == (7nat, '1', '0'),
        mark("-probesize"@) == (10nat, '-', 'p'),
        mark("10000000"@) == (8nat, '1', '0'),
        mark("500000"@) == (6nat, '5', '0'),
        mark("-max_delay"@) == (10nat, '-', 'm'),
        "0"@.len() == 1,
        mark("mpegts"@) == (6nat, 'm', 'p'),
        mark("pipe:0"@) == (6nat, 'p', 'i'),
{
    reveal_strlit("-fflags");
    reveal_strlit("-flags");
    reveal_strlit("-i");
    reveal_strlit("-c:v");
    reveal_strlit("copy");
    reveal_strlit("-vn");
    reveal_strlit("-sn");
    reveal_strlit("-dn");
    reveal_strlit("-an");
    reveal_strlit("-c:a");
    reveal_strlit("-bsf:a");
    reveal_strlit("aac_adtstoasc");
    reveal_strlit("libmp3lame");
    reveal_strlit("aac");
    reveal_strlit("-b:a");
    reveal_strlit("128k");
    reveal_strlit("-ac");
    reveal_strlit("2");
    reveal_strlit("-avoid_negative_ts");
    reveal_strlit("make_zero");
    reveal_strlit("-avioflags");
    reveal_strlit("direct");
    reveal_strlit("-flush_packets");
    reveal_strlit("1");
    reveal_strlit("-frag_duration");
    reveal_strlit("-movflags");
    reveal_strlit("+empty_moov+default_base_moof+omit_tfhd_offset");
    reveal_strlit("+frag_keyframe+empty_moov+default_base_moof+omit_tfhd_offset");
    reveal_strlit("-f");
    reveal_strlit("mp4");
    reveal_strlit("adts");
    reveal_strlit("mp3");
    reveal_strlit("pipe:1");
    reveal_strlit("-hide_banner");
    reveal_strlit("-loglevel");
    reveal_strlit("error");
    reveal_strlit("discardcorrupt");
    reveal_strlit("low_delay");
    reveal_strlit("-analyzeduration");
    reveal_strlit("3000000");
    reveal_strlit("1000000");
    reveal_strlit("-probesize");
    reveal_strlit("10000000");
    reveal_strlit("500000");
    reveal_strlit("-max_delay");
    reveal_strlit("0");
    reveal_strlit("mpegts");
    reveal_strlit("pipe:0");
}

/// A decimal numeral begins with a digit.
proof fn lemma_numeral_first(n: nat)
    ensures
        numeral(n, 10).len() > 0,
        '0' <= numeral(n, 10)[0] <= '9',
    decreases n,
{
    if n >= 10 {
        lemma_numeral_first(n / 10);
    }
}

/// The four parts of a command line, one behind the other.
proof fn lemma_parts(fmt: OutputFormat, codec: Option<Seq<char>>, frag_ms: FragDurationMs, k: int)
    requires
        0 <= k < command_line(fmt, codec, frag_ms).len(),
    ensures
        ({
            let line = command_line(fmt, codec, frag_ms);
            let a = input_options(fmt);
            let b = video_options(fmt);
            let c = audio_options(fmt, audio_mode(fmt, codec));
            let d = output_options(fmt, frag_ms);
            line[k] == if k < a.len() {
                a[k]
            } else if k < a.len() + b.len() {
                b[k - a.len()]
            } else if k < a.len() + b.len() + c.len() {
                c[k - a.len() - b.len()]
            } else {
                d[k - a.len() - b.len() - c.len()]
            }
        }),
{
}

/// The arguments behind the input are none of those that only an input has.
proof fn lemma_behind_input(
    fmt: OutputFormat,
    codec: Option<Seq<char>>,
    frag_ms: FragDurationMs,
    k: int,
)
    requires
        19 <= k < command_line(fmt, codec, frag_ms).len(),
    ensures
        command_line(fmt, codec, frag_ms)[k] != "-fflags"@,
        command_line(fmt, codec, frag_ms)[k] != "-flags"@,
        command_line(fmt, codec, frag_ms)[k] != "-i"@,
{
    lemma_parts(fmt, codec, frag_ms, k);
    lemma_options();
    if frag_ms is Some {
        lemma_numeral_first((frag_ms->0 * 1000) as nat);
    }
}

/// The input is always the shared TS pipe, named once, and the demuxer and
/// decoder options all stand before it: behind it they would be inert.
pub proof fn law_input_options_come_first(
    fmt: OutputFormat,
    codec: Option<Seq<char>>,
    frag_ms: FragDurationMs,
)
    ensures
        ({
            let line = command_line(fmt, codec, frag_ms);
            &&& line.subrange(15, 19) == seq!["-f"@, "mpegts"@, "-i"@, "pipe:0"@]
            &&& line.contains("-fflags"@)
            &&& line.contains("-flags"@)
            &&& forall|k: int|
                0 <= k < line.len() && (#[trigger] line[k] == "-fflags"@ || line[k] == "-flags"@)
                    ==> k < input_at()
            &&& forall|k: int|
                0 <= k < line.len() && #[trigger] line[k] == "-i"@ ==> k == input_at()
        }),
{
    let line = command_line(fmt, codec, frag_ms);
    assert(line.subrange(15, 19) == seq!["-f"@, "mpegts"@, "-i"@, "pipe:0"@]);
    assert(line[5] == "-fflags"@);
    assert(line[7] == "-flags"@);
    assert forall|k: int| 0 <= k < line.len() && k != input_at() implies #[trigger] line[k] != "-i"@
        && (k < input_at() || (line[k] != "-fflags"@ && line[k] != "-flags"@)) by {
        if k >= 19 {
            lemma_behind_input(fmt, codec, frag_ms, k);
        } else {
            lemma_parts(fmt, codec, frag_ms, k);
            lemma_options();
        }
    }
    assert(line[input_at()] == "-i"@);
    lemma_options();
}

/// Output is flushed packet by packet in every format, and buffering is switched
/// off on both sides of the input.
pub proof fn law_output_is_flushed(
    fmt: OutputFormat,
    codec: Option<Seq<char>>,
    frag_ms: FragDurationMs,
)
    ensures
        ({
            let line = command_line(fmt, codec, frag_ms);
            &&& line[3] == "-avioflags"@ && line[4] == "direct"@
            &&& exists|k: int|
                input_at() < k <= line.len() - 4 && #[trigger] line.subrange(k, k + 4)
                    == flush_options()
        }),
{
    let line = command_line(fmt, codec, frag_ms);
    let c = audio_options(fmt, audio_mode(fmt, codec));
    let base: int = 19 + video_options(fmt).len() as int + c.len() as int;
    let k: int = if fmt is Fmp4 {
        base + 2
    } else {
        base
    };
    assert(line.subrange(k, k + 4) == flush_options());
}

/// No video is ever re-encoded: fMP4 copies it and the audio formats drop every
/// other track. Audio is copied exactly where the format takes the source codec
/// as it is.
pub proof fn law_copy_first(fmt: OutputFormat, codec: Option<Seq<char>>, frag_ms: FragDurationMs)
    ensures
        video_mode(fmt) != TrackMode::Transcode,
        audio_mode(fmt, codec) == TrackMode::Copy <==> codec == Some(native_codec(fmt)),
        fmt is Fmp4 ==> command_line(fmt, codec, frag_ms).subrange(19, 21) == seq![
            "-c:v"@,
            "copy"@,
        ],
        !(fmt is Fmp4) ==> command_line(fmt, codec, frag_ms).subrange(19, 22) == seq![
            "-vn"@,
            "-sn"@,
            "-dn"@,
        ],
{
    let line = command_line(fmt, codec, frag_ms);
    if fmt is Fmp4 {
        assert(line.subrange(19, 21) == seq!["-c:v"@, "copy"@]);
    } else {
        assert(line.subrange(19, 22) == seq!["-vn"@, "-sn"@, "-dn"@]);
    }
}

/// AAC is taken out of its ADTS framing exactly where it is copied into MP4.
pub proof fn law_adts_framing(
    fmt: OutputFormat,
    codec: Option<Seq<char>>,
    frag_ms: FragDurationMs,
)
    ensures
        command_line(fmt, codec, frag_ms).contains("-bsf:a"@) <==> fmt is Fmp4 && codec == Some(
            "aac"@,
        ),
{
    let line = command_line(fmt, codec, frag_ms);
    if fmt is Fmp4 && codec == Some("aac"@) {
        assert(line[23] == "-bsf:a"@);
    } else {
        assert forall|k: int| 0 <= k < line.len() implies #[trigger] line[k] != "-bsf:a"@ by {
            lemma_no_filter(fmt, codec, frag_ms, k);
        }
    }
}

proof fn lemma_no_filter(
    fmt: OutputFormat,
    codec: Option<Seq<char>>,
    frag_ms: FragDurationMs,
    k: int,
)
    requires
        0 <= k < command_line(fmt, codec, frag_ms).len(),
        !(fmt is Fmp4 && codec == Some("aac"@)),
    ensures
        command_line(fmt, codec, frag_ms)[k] != "-bsf:a"@,
{
    lemma_parts(fmt, codec, frag_ms, k);
    lemma_options();
    if frag_ms is Some {
        lemma_numeral_first((frag_ms->0 * 1000) as nat);
    }
}

/// What ffmpeg writes is in the container of its format, on its standard output:
/// that is how every command line ends.
pub proof fn law_output_is_in_the_container_of_the_format(
    fmt: OutputFormat,
    codec: Option<Seq<char>>,
    frag_ms: FragDurationMs,
)
    ensures
        ({
            let line = command_line(fmt, codec, frag_ms);
            let container = match fmt {
                OutputFormat::Adts => "adts"@,
                OutputFormat::Mp3 => "mp3"@,
                OutputFormat::Fmp4 => "mp4"@,
            };
            &&& line.len() > 19
            &&& line[line.len() - 3] == "-f"@
            &&& line[line.len() - 2] == container
            &&& line[line.len() - 1] == "pipe:1"@
            &&& forall|k: int|
                19 <= k < line.len() && #[trigger] line[k] == "-f"@ ==> k == line.len() - 3
            &&& forall|k: int|
                0 <= k < line.len() && #[trigger] line[k] == "pipe:1"@ ==> k == line.len() - 1
        }),
{
    let line = command_line(fmt, codec, frag_ms);
    let n = line.len() as int;
    lemma_parts(fmt, codec, frag_ms, n - 3);
    lemma_parts(fmt, codec, frag_ms, n - 2);
    lemma_parts(fmt, codec, frag_ms, n - 1);
    assert forall|k: int| 0 <= k < n && k != n - 1 implies #[trigger] line[k] != "pipe:1"@ by {
        lemma_parts(fmt, codec, frag_ms, k);
        lemma_options();
        lemma_pipes();
        lemma_fragment_numeral(frag_ms);
    }
    assert forall|k: int| 19 <= k < n && k != n - 3 implies #[trigger] line[k] != "-f"@ by {
        lemma_parts(fmt, codec, frag_ms, k);
        lemma_options();
        lemma_fragment_numeral(frag_ms);
    }
}

/// The two pipes are not the same.
proof fn lemma_pipes()
    ensures
        "pipe:0"@ != "pipe:1"@,
        "mpegts"@ != "pipe:1"@,
{
    reveal_strlit("pipe:0");
    reveal_strlit("pipe:1");
    reveal_strlit("mpegts");
    assert("pipe:0"@[5] != "pipe:1"@[5]);
    assert("mpegts"@[0] != "pipe:1"@[0]);
}

proof fn lemma_fragment_numeral(frag_ms: FragDurationMs)
    ensures
        frag_ms matches Some(ms) ==> numeral((ms * 1000) as nat, 10).len() > 0 && '0' <= numeral(
            (ms * 1000) as nat,
            10,
        )[0] <= '9',
{
    if frag_ms is Some {
        lemma_numeral_first((frag_ms->0 * 1000) as nat);
    }
}

/// Whether an option stands behind the input, and every time with this value.
pub open spec fn option_is(line: Seq<Seq<char>>, option: Seq<char>, value: Seq<char>) -> bool {
    &&& exists|k: int| 19 <= k < line.len() - 1 && #[trigger] line[k] == option
    &&& forall|k: int|
        19 <= k < line.len() && #[trigger] line[k] == option ==> k < line.len() - 1 && line[k + 1]
            == value
}

/// Whether an argument stands nowhere behind the input.
pub open spec fn lacks(line: Seq<Seq<char>>, option: Seq<char>) -> bool {
    forall|k: int| 19 <= k < line.len() ==> #[trigger] line[k] != option
}

/// The audio that comes out: as it came in where the source has what the format
/// takes, AAC for `/audio` and `/video` and MP3 for `fmt=mp3`; otherwise encoded
/// to that, as 128k stereo. Only `/video` does without audio, and only where the
/// source has none.
pub proof fn law_audio_of_the_output(
    fmt: OutputFormat,
    codec: Option<Seq<char>>,
    frag_ms: FragDurationMs,
)
    ensures
        ({
            let line = command_line(fmt, codec, frag_ms);
            let copied = match fmt {
                OutputFormat::Mp3 => codec == Some("mp3"@),
                _ => codec == Some("aac"@),
            };
            let silent = fmt == OutputFormat::Fmp4 && codec is None;
            &&& copied ==> option_is(line, "-c:a"@, "copy"@) && lacks(line, "-b:a"@)
                && audio_mode(fmt, codec) == TrackMode::Copy
            &&& silent ==> lacks(line, "-c:a"@) && line.contains("-an"@) && audio_mode(fmt, codec)
                == TrackMode::Dropped
            &&& !copied && !silent ==> {
                &&& option_is(
                    line,
                    "-c:a"@,
                    if fmt == OutputFormat::Mp3 {
                        "libmp3lame"@
                    } else {
                        "aac"@
                    },
                )
                &&& option_is(line, "-b:a"@, "128k"@)
                &&& option_is(line, "-ac"@, "2"@)
                &&& audio_mode(fmt, codec) == TrackMode::Transcode
            }
            &&& !silent ==> lacks(line, "-an"@)
            &&& option_is(line, "-bsf:a"@, "aac_adtstoasc"@) <==> fmt == OutputFormat::Fmp4
                && copied
        }),
{
    let line = command_line(fmt, codec, frag_ms);
    lemma_codecs();
    lemma_colons();
    let b = video_options(fmt);
    let c = audio_options(fmt, audio_mode(fmt, codec));
    let at: int = 19 + b.len() as int;
    assert forall|k: int| 19 <= k < line.len() && !(at <= k < at + c.len()) implies #[trigger] line[k]
        != "-c:a"@ && line[k] != "-b:a"@ && line[k] != "-ac"@ && line[k] != "-an"@ && line[k]
        != "-bsf:a"@ by {
        lemma_parts(fmt, codec, frag_ms, k);
        lemma_options();
        lemma_fragment_numeral(frag_ms);
    }
    assert forall|k: int| at <= k < at + c.len() implies #[trigger] line[k] == c[k - at] by {
        lemma_parts(fmt, codec, frag_ms, k);
    }
    assert(output_options(fmt, frag_ms).len() >= 3);
    assert(line.len() > at + c.len());
    lemma_options();
    assert(line[at] == c[0]);
    if c.len() > 2 {
        assert(line[at + 2] == c[2]);
    }
    if c.len() > 4 {
        assert(line[at + 4] == c[4]);
    }
}

/// The codecs are told apart.
proof fn lemma_codecs()
    ensures
        "aac"@ != "mp3"@,
{
    reveal_strlit("aac");
    reveal_strlit("mp3");
    assert("aac"@[0] != "mp3"@[0]);
}

/// The options that differ only in their last character are told apart.
proof fn lemma_colons()
    ensures
        "-c:a"@ != "-c:v"@,
        "-c:a"@ != "-b:a"@,
        "-an"@ != "-ac"@,
        "-ac"@.len() == 3,
{
    reveal_strlit("-c:a");
    reveal_strlit("-c:v");
    reveal_strlit("-b:a");
    reveal_strlit("-an");
    reveal_strlit("-ac");
    assert("-c:a"@[3] != "-c:v"@[3]);
    assert("-c:a"@[1] != "-b:a"@[1]);
    assert("-an"@[2] != "-ac"@[2]);
}

/// The video that comes out: untouched in `/video`, and none in the audio
/// formats, which drop subtitles and data too.
pub proof fn law_video_of_the_output(
    fmt: OutputFormat,
    codec: Option<Seq<char>>,
    frag_ms: FragDurationMs,
)
    ensures
        ({
            let line = command_line(fmt, codec, frag_ms);
            &&& fmt == OutputFormat::Fmp4 ==> {
                &&& option_is(line, "-c:v"@, "copy"@)
                &&& lacks(line, "-vn"@)
                &&& video_mode(fmt) == TrackMode::Copy
            }
            &&& fmt != OutputFormat::Fmp4 ==> {
                &&& lacks(line, "-c:v"@)
                &&& line.contains("-vn"@) && line.contains("-sn"@) && line.contains("-dn"@)
                &&& video_mode(fmt) == TrackMode::Dropped
            }
        }),
{
    let line = command_line(fmt, codec, frag_ms);
    lemma_colons();
    lemma_options();
    let b = video_options(fmt);
    assert forall|k: int| 19 <= k < line.len() && !(k < 19 + b.len()) implies #[trigger] line[k]
        != "-c:v"@ && line[k] != "-vn"@ by {
        lemma_parts(fmt, codec, frag_ms, k);
        lemma_fragment_numeral(frag_ms);
    }
    assert forall|k: int| 19 <= k < 19 + b.len() implies #[trigger] line[k] == b[k - 19] by {
        lemma_parts(fmt, codec, frag_ms, k);
    }
    assert(output_options(fmt, frag_ms).len() >= 3);
    assert(line[19] == b[0]);
    assert(line[20] == b[1]);
    if fmt != OutputFormat::Fmp4 {
        assert(line[21] == b[2]);
    }
}

/// The MP4 is fragmented, with its `moov` in front and empty: at the keyframes of
/// the source, or by a duration that is given in milliseconds and handed on in
/// microseconds. Its timestamps begin at zero or later. Audio has none of this.
pub proof fn law_fragments_of_the_output(
    fmt: OutputFormat,
    codec: Option<Seq<char>>,
    frag_ms: FragDurationMs,
)
    ensures
        ({
            let line = command_line(fmt, codec, frag_ms);
            &&& fmt == OutputFormat::Fmp4 ==> {
                &&& option_is(line, "-avoid_negative_ts"@, "make_zero"@)
                &&& match frag_ms {
                    None => {
                        &&& lacks(line, "-frag_duration"@)
                        &&& option_is(
                            line,
                            "-movflags"@,
                            "+frag_keyframe+empty_moov+default_base_moof+omit_tfhd_offset"@,
                        )
                    },
                    Some(ms) => {
                        &&& option_is(
                            line,
                            "-movflags"@,
                            "+empty_moov+default_base_moof+omit_tfhd_offset"@,
                        )
                        &&& exists|us: Seq<char>| #[trigger]
                            option_is(line, "-frag_duration"@, us) && number(
                                us,
                                10,
                                u64::MAX as nat,
                            ) == Some((ms * 1000) as nat)
                    },
                }
            }
            &&& fmt != OutputFormat::Fmp4 ==> {
                &&& lacks(line, "-avoid_negative_ts"@)
                &&& lacks(line, "-frag_duration"@)
                &&& lacks(line, "-movflags"@)
            }
        }),
{
    let line = command_line(fmt, codec, frag_ms);
    lemma_options();
    lemma_fragment_options();
    lemma_fragment_numeral(frag_ms);
    let d = output_options(fmt, frag_ms);
    let at: int = line.len() - d.len();
    assert forall|k: int| 19 <= k < at implies #[trigger] line[k] != "-movflags"@ && line[k]
        != "-frag_duration"@ && line[k] != "-avoid_negative_ts"@ by {
        lemma_parts(fmt, codec, frag_ms, k);
    }
    assert forall|k: int| at <= k < line.len() implies #[trigger] line[k] == d[k - at] by {
        lemma_parts(fmt, codec, frag_ms, k);
    }
    if fmt == OutputFormat::Fmp4 {
        assert(line[at] == "-avoid_negative_ts"@);
        assert(line[at + 6] == d[6]);
        if let Some(ms) = frag_ms {
            let us = numeral((ms * 1000) as nat, 10);
            law_numerals_read_back((ms * 1000) as nat, 10, u64::MAX as nat);
            assert(line[at + 8] == "-movflags"@);
            assert(option_is(line, "-frag_duration"@, us));
        }
    }
}

proof fn lemma_fragment_options()
    ensures
        "-flush_packets"@ != "-frag_duration"@,
        "-movflags"@ != "-loglevel"@,
        "make_zero"@ != "-movflags"@,
{
    reveal_strlit("-flush_packets");
    reveal_strlit("-frag_duration");
    reveal_strlit("-movflags");
    reveal_strlit("-loglevel");
    reveal_strlit("make_zero");
    assert("-flush_packets"@[2] != "-frag_duration"@[2]);
    assert("-movflags"@[1] != "-loglevel"@[1]);
    assert("make_zero"@[0] != "-movflags"@[0]);
}

/// How the input is read: quietly, without corrupt frames, without delay, and
/// with a window for its analysis that is wider for video, which has to find the
/// parameters of the picture.
pub proof fn law_input_is_read_without_delay(
    fmt: OutputFormat,
    codec: Option<Seq<char>>,
    frag_ms: FragDurationMs,
)
    ensures
        ({
            let line = command_line(fmt, codec, frag_ms);
            let (us, size) = if fmt == OutputFormat::Fmp4 {
                ("3000000"@, "10000000"@)
            } else {
                ("1000000"@, "500000"@)
            };
            line.take(19) == seq![
                "-hide_banner"@,
                "-loglevel"@,
                "error"@,
                "-avioflags"@,
                "direct"@,
                "-fflags"@,
                "discardcorrupt"@,
                "-flags"@,
                "low_delay"@,
                "-analyzeduration"@,
                us,
                "-probesize"@,
                size,
                "-max_delay"@,
                "0"@,
                "-f"@,
                "mpegts"@,
                "-i"@,
                "pipe:0"@,
            ]
        }),
{
    let line = command_line(fmt, codec, frag_ms);
    assert(line.take(19) == input_options(fmt));
}

/// Behind the input a command line says nothing but what the other laws speak of:
/// it has no option besides, and no argument that does not belong to an option,
/// so that there is no other output.
pub proof fn law_nothing_else_is_asked_of_ffmpeg(
    fmt: OutputFormat,
    codec: Option<Seq<char>>,
    frag_ms: FragDurationMs,
    k: int,
)
    requires
        19 <= k < command_line(fmt, codec, frag_ms).len(),
    ensures
        ({
            let line = command_line(fmt, codec, frag_ms);
            let a = line[k];
            &&& a.len() > 0
            &&& a[0] == '-' ==> {
                ||| a == "-c:v"@
                ||| a == "-vn"@
                ||| a == "-sn"@
                ||| a == "-dn"@
                ||| a == "-an"@
                ||| a == "-c:a"@
                ||| a == "-bsf:a"@
                ||| a == "-b:a"@
                ||| a == "-ac"@
                ||| a == "-avoid_negative_ts"@
                ||| a == "-avioflags"@
                ||| a == "-flush_packets"@
                ||| a == "-frag_duration"@
                ||| a == "-movflags"@
                ||| a == "-f"@
            }
            &&& a[0] != '-' && k < line.len() - 1 ==> k > 19 && line[k - 1][0] == '-'
        }),
{
    lemma_parts(fmt, codec, frag_ms, k);
    lemma_options();
    lemma_singles();
    lemma_fragment_numeral(frag_ms);
    if k > 19 {
        lemma_parts(fmt, codec, frag_ms, k - 1);
    }
}

proof fn lemma_singles()
    ensures
        "1"@[0] == '1',
        "2"@[0] == '2',
{
    reveal_strlit("1");
    reveal_strlit("2");
}

/// Every format has a name of its own, which is what `/status` and the log call
/// it. Of the formats of `/audio`, and of no other, the name is what asks for it.
pub proof fn law_formats_are_asked_for_by_name(fmt: OutputFormat, s: Seq<char>)
    ensures
        fmt.name() == match fmt {
            OutputFormat::Adts => "adts"@,
            OutputFormat::Mp3 => "mp3"@,
            OutputFormat::Fmp4 => "fmp4"@,
        },
        OutputFormat::audio_named(s) == Some(fmt) <==> s == fmt.name() && fmt
            != OutputFormat::Fmp4,
        fmt.media_type() == match fmt {
            OutputFormat::Adts => "audio/aac"@,
            OutputFormat::Mp3 => "audio/mpeg"@,
            OutputFormat::Fmp4 => "video/mp4"@,
        },
{
    lemma_options();
    reveal_strlit("fmp4");
    reveal_strlit("adts");
    reveal_strlit("mp3");
}

/// What `/status` and the log call what is done to a track.
pub proof fn law_modes_have_names(mode: TrackMode)
    ensures
        mode.name() == match mode {
            TrackMode::Copy => "copy"@,
            TrackMode::Transcode => "transcode"@,
            TrackMode::Dropped => "drop"@,
        },
{
}

} // verus!
