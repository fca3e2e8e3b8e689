use acestream_audio::format::{plan, OutputFormat, TrackMode};

fn args_of(fmt: OutputFormat, codec: Option<&str>) -> Vec<String> {
    plan(fmt, codec, None).args
}

/// Assert `needle` appears as a consecutive run in `hay`.
fn contains_seq(hay: &[String], needle: &[&str]) -> bool {
    hay.windows(needle.len()).any(|w| w == needle)
}

#[test]
fn adts_copies_aac() {
    let p = plan(OutputFormat::Adts, Some("aac"), None);
    assert_eq!(p.audio, TrackMode::Copy);
    assert_eq!(p.video, TrackMode::Dropped);
    assert!(contains_seq(&p.args, &["-c:a", "copy"]));
    assert!(contains_seq(&p.args, &["-f", "adts", "pipe:1"]));
}

#[test]
fn adts_transcodes_everything_else() {
    for codec in ["ac3", "eac3", "mp2", "dts", "mp3"] {
        let p = plan(OutputFormat::Adts, Some(codec), None);
        assert_eq!(p.audio, TrackMode::Transcode, "codec {codec}");
        assert!(contains_seq(&p.args, &["-c:a", "aac"]), "codec {codec}");
    }
}

#[test]
fn mp3_copies_mp3_only() {
    let p = plan(OutputFormat::Mp3, Some("mp3"), None);
    assert_eq!(p.audio, TrackMode::Copy);
    assert!(contains_seq(&p.args, &["-c:a", "copy"]));

    let p = plan(OutputFormat::Mp3, Some("aac"), None);
    assert_eq!(p.audio, TrackMode::Transcode);
    assert!(contains_seq(&p.args, &["-c:a", "libmp3lame"]));
}

#[test]
fn fmp4_always_copies_video() {
    for codec in [Some("aac"), Some("ac3"), Some("mp2"), None] {
        let p = plan(OutputFormat::Fmp4, codec, None);
        assert_eq!(p.video, TrackMode::Copy, "codec {codec:?}");
        assert!(contains_seq(&p.args, &["-c:v", "copy"]), "codec {codec:?}");
    }
}

#[test]
fn fmp4_transcodes_browser_hostile_audio() {
    // AC-3/E-AC-3/MP2 are legal in MP4 but browsers play them as silence.
    for codec in ["ac3", "eac3", "mp2"] {
        let p = plan(OutputFormat::Fmp4, Some(codec), None);
        assert_eq!(p.audio, TrackMode::Transcode, "codec {codec}");
        assert!(contains_seq(&p.args, &["-c:a", "aac"]), "codec {codec}");
    }
    let p = plan(OutputFormat::Fmp4, Some("aac"), None);
    assert_eq!(p.audio, TrackMode::Copy);
}

#[test]
fn fmp4_converts_adts_framing_when_copying_aac() {
    // Only on the copy path into MP4: the encoder already emits raw AAC,
    // and ADTS output wants ADTS framing.
    let p = plan(OutputFormat::Fmp4, Some("aac"), None);
    assert!(contains_seq(&p.args, &["-bsf:a", "aac_adtstoasc"]));

    let p = plan(OutputFormat::Fmp4, Some("ac3"), None);
    assert!(!p.args.iter().any(|a| a == "-bsf:a"));
    for fmt in [OutputFormat::Adts, OutputFormat::Mp3] {
        let p = plan(fmt, Some("aac"), None);
        assert!(!p.args.iter().any(|a| a == "-bsf:a"), "{}", fmt.as_str());
    }
}

#[test]
fn fmp4_without_audio_drops_the_track() {
    let p = plan(OutputFormat::Fmp4, None, None);
    assert_eq!(p.audio, TrackMode::Dropped);
    assert!(p.args.iter().any(|a| a == "-an"));
}

#[test]
fn fmp4_movflags_are_mse_compatible() {
    let p = plan(OutputFormat::Fmp4, Some("aac"), None);
    let i = p.args.iter().position(|a| a == "-movflags").unwrap();
    let flags = &p.args[i + 1];
    for want in [
        "frag_keyframe",
        "empty_moov",
        "default_base_moof",
        "omit_tfhd_offset",
    ] {
        assert!(flags.contains(want), "missing {want} in {flags}");
    }
}

#[test]
fn frag_duration_replaces_keyframe_fragmentation() {
    let p = plan(OutputFormat::Fmp4, Some("aac"), Some(200));
    assert!(contains_seq(&p.args, &["-frag_duration", "200000"]));
    let i = p.args.iter().position(|a| a == "-movflags").unwrap();
    // frag_keyframe would pin fragments back to the GOP and defeat the knob.
    assert!(!p.args[i + 1].contains("frag_keyframe"));
}

#[test]
fn demuxer_options_precede_the_input() {
    // -fflags/-flags after -i are silently inert; guard against a reorder.
    for fmt in [OutputFormat::Adts, OutputFormat::Mp3, OutputFormat::Fmp4] {
        let args = args_of(fmt, Some("ac3"));
        let i = args.iter().position(|a| a == "-i").unwrap();
        let fflags = args.iter().position(|a| a == "-fflags").unwrap();
        let flags = args.iter().position(|a| a == "-flags").unwrap();
        assert!(fflags < i, "{}", fmt.as_str());
        assert!(flags < i, "{}", fmt.as_str());
    }
}

#[test]
fn output_is_flushed_per_packet() {
    for fmt in [OutputFormat::Adts, OutputFormat::Mp3, OutputFormat::Fmp4] {
        let args = args_of(fmt, Some("aac"));
        assert!(contains_seq(&args, &["-flush_packets", "1"]), "{}", fmt.as_str());
        // -avioflags direct is meaningful on both sides of -i.
        assert_eq!(args.iter().filter(|a| *a == "-avioflags").count(), 2, "{}", fmt.as_str());
    }
}

#[test]
fn input_is_always_the_shared_ts_pipe() {
    for fmt in [OutputFormat::Adts, OutputFormat::Mp3, OutputFormat::Fmp4] {
        let args = args_of(fmt, Some("aac"));
        assert!(contains_seq(&args, &["-f", "mpegts", "-i", "pipe:0"]), "{}", fmt.as_str());
    }
}

#[test]
fn audio_formats_drop_non_audio_tracks() {
    for fmt in [OutputFormat::Adts, OutputFormat::Mp3] {
        let args = args_of(fmt, Some("aac"));
        for flag in ["-vn", "-sn", "-dn"] {
            assert!(args.iter().any(|a| a == flag), "{} missing {flag}", fmt.as_str());
        }
    }
}

#[test]
fn parse_audio_rejects_video_format() {
    assert_eq!(OutputFormat::parse_audio("adts"), Some(OutputFormat::Adts));
    assert_eq!(OutputFormat::parse_audio("mp3"), Some(OutputFormat::Mp3));
    assert_eq!(OutputFormat::parse_audio("fmp4"), None);
    assert_eq!(OutputFormat::parse_audio(""), None);
}

#[test]
fn plans_are_complete_command_lines() {
    let p = plan(OutputFormat::Mp3, Some("mp3"), None);
    let i = p.args.iter().position(|a| a == "-i").unwrap();
    assert_eq!(p.args[i + 1], "pipe:0");
    assert_eq!(p.args.last().map(|a| a.as_str()), Some("pipe:1"));
    assert!(contains_seq(&p.args, &["-f", "mp3", "pipe:1"]));
    assert_eq!(plan(OutputFormat::Fmp4, Some("aac"), None).args.last().map(|a| a.as_str()), Some("pipe:1"));
}

#[test]
fn audio_formats_transcode_a_source_without_audio() {
    assert_eq!(plan(OutputFormat::Adts, None, None).audio, TrackMode::Transcode);
    assert_eq!(plan(OutputFormat::Mp3, None, None).audio, TrackMode::Transcode);
}

#[test]
fn the_largest_fragment_duration_is_written_in_full() {
    let p = plan(OutputFormat::Fmp4, None, Some(u32::MAX));
    assert!(contains_seq(&p.args, &["-frag_duration", "4294967295000"]));
}

#[test]
fn formats_have_names_and_media_types() {
    assert_eq!(OutputFormat::Adts.as_str(), "adts");
    assert_eq!(OutputFormat::Mp3.as_str(), "mp3");
    assert_eq!(OutputFormat::Fmp4.as_str(), "fmp4");
    assert_eq!(OutputFormat::Adts.content_type(), "audio/aac");
    assert_eq!(OutputFormat::Mp3.content_type(), "audio/mpeg");
    assert_eq!(OutputFormat::Fmp4.content_type(), "video/mp4");
    assert!(OutputFormat::Fmp4.needs_init_segment());
    assert!(!OutputFormat::Adts.needs_init_segment());
    assert!(!OutputFormat::Mp3.needs_init_segment());
}

#[test]
fn track_modes_have_names() {
    assert_eq!(TrackMode::Copy.as_str(), "copy");
    assert_eq!(TrackMode::Transcode.as_str(), "transcode");
    assert_eq!(TrackMode::Dropped.as_str(), "drop");
}
