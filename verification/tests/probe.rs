use acestream_audio::probe::{choose_tracks, Track};

fn track(kind: Option<&str>, codec: Option<&str>) -> Track {
    Track { kind: kind.map(str::to_owned), codec: codec.map(str::to_owned) }
}

#[test]
fn the_first_track_of_each_kind_counts() {
    let tracks = vec![
        track(None, Some("bin")),
        track(Some("data"), Some("epg")),
        track(Some("audio"), Some("aac")),
        track(Some("video"), Some("h264")),
        track(Some("audio"), Some("ac3")),
    ];
    let p = choose_tracks(&tracks).unwrap();
    assert_eq!(p.video.as_deref(), Some("h264"));
    assert_eq!(p.audio.as_deref(), Some("aac"));
}

#[test]
fn a_first_track_of_no_known_codec_is_not_passed_over() {
    let tracks =
        vec![track(Some("video"), Some("h264")), track(Some("audio"), None), track(Some("audio"), Some("aac"))];
    assert_eq!(choose_tracks(&tracks).unwrap().audio, None);
}

#[test]
fn a_source_without_tracks_is_refused() {
    for tracks in [vec![], vec![track(Some("data"), Some("epg"))]] {
        assert_eq!(choose_tracks(&tracks).unwrap_err(), "no video or audio stream found");
    }
}
