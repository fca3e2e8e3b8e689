//! Which tracks of a source count.

use vstd::prelude::*;

use crate::stream::{Probe, ProbeView};
use crate::text::{same_text, text_of};

verus! {

/// A track of a source, as far as it is described.
#[derive(Debug, Clone, PartialEq, Eq)]
pub struct Track {
    /// What kind of track it is, such as `video`.
    pub kind: Option<String>,
    /// What it is coded in.
    pub codec: Option<String>,
}

/// What a `Track` says.
#[verifier::ext_equal]
pub struct TrackView {
    pub kind: Option<Seq<char>>,
    pub codec: Option<Seq<char>>,
}

impl View for Track {
    type V = TrackView;

    open spec fn view(&self) -> TrackView {
        TrackView { kind: text_of(self.kind), codec: text_of(self.codec) }
    }
}

/// What a list of tracks says.
pub open spec fn track_views(tracks: Seq<Track>) -> Seq<TrackView> {
    Seq::new(tracks.len(), |i: int| tracks[i]@)
}

/// The codec of the first track of a kind, if there is one and it is known.
pub open spec fn first_codec(tracks: Seq<TrackView>, kind: Seq<char>) -> Option<Seq<char>>
    decreases tracks.len(),
{
    if tracks.len() == 0 {
        None
    } else if tracks[0].kind == Some(kind) {
        tracks[0].codec
    } else {
        first_codec(tracks.drop_first(), kind)
    }
}

/// The codecs of the first video and the first audio track. A source with
/// neither is of no use.
pub open spec fn chosen(tracks: Seq<TrackView>) -> Result<ProbeView, Seq<char>> {
    let probe = ProbeView {
        video: first_codec(tracks, "video"@),
        audio: first_codec(tracks, "audio"@),
    };
    if probe.video is None && probe.audio is None {
        Err("no video or audio stream found"@)
    } else {
        Ok(probe)
    }
}

/// Finds the codec of the first track of a kind.
fn find_codec(tracks: &Vec<Track>, kind: &str) -> (r: Option<String>)
    ensures
        text_of(r) == first_codec(track_views(tracks@), kind@),
{
    let ghost all = track_views(tracks@);
    let mut i: usize = 0;
    assert(all.skip(0) == all);
    while i < tracks.len()
        invariant
            all == track_views(tracks@),
            i <= tracks@.len(),
            first_codec(all.skip(i as int), kind@) == first_codec(all, kind@),
        decreases tracks.len() - i,
    {
        assert(all.skip(i as int)[0] == tracks@[i as int]@);
        assert(all.skip(i as int).drop_first() == all.skip(i + 1));
        match &tracks[i].kind {
            Some(k) => if same_text(k.as_str(), kind) {
                return match &tracks[i].codec {
                    Some(c) => Some(c.as_str().to_owned()),
                    None => None,
                };
            },
            None => {},
        }
        i += 1;
    }
    None
}

/// Chooses the codecs of the first video and the first audio track.
pub fn choose_tracks(tracks: &Vec<Track>) -> (r: Result<Probe, String>)
    ensures
        chosen(track_views(tracks@)) == (match r {
            Ok(p) => Ok(p@),
            Err(e) => Err(e@),
        }),
{
    let video = find_codec(tracks, "video");
    let audio = find_codec(tracks, "audio");
    if video.is_none() && audio.is_none() {
        Err("no video or audio stream found".to_owned())
    } else {
        Ok(Probe { video, audio })
    }
}

/// Whether a track is the first of its kind.
pub open spec fn is_first(tracks: Seq<TrackView>, kind: Seq<char>, i: int) -> bool {
    &&& 0 <= i < tracks.len()
    &&& tracks[i].kind == Some(kind)
    &&& forall|k: int| 0 <= k < i ==> (#[trigger] tracks[k]).kind != Some(kind)
}

/// Whether there is no track of a kind.
pub open spec fn is_lacking(tracks: Seq<TrackView>, kind: Seq<char>) -> bool {
    forall|k: int| 0 <= k < tracks.len() ==> (#[trigger] tracks[k]).kind != Some(kind)
}

proof fn lemma_first_codec(tracks: Seq<TrackView>, kind: Seq<char>, i: int)
    ensures
        is_first(tracks, kind, i) ==> first_codec(tracks, kind) == tracks[i].codec,
        is_lacking(tracks, kind) ==> first_codec(tracks, kind) is None,
    decreases tracks.len(),
{
    if tracks.len() > 0 {
        let rest = tracks.drop_first();
        assert forall|k: int| 0 <= k < rest.len() implies #[trigger] rest[k] == tracks[k + 1] by {}
        if tracks[0].kind != Some(kind) {
            lemma_first_codec(rest, kind, i - 1);
            if is_first(tracks, kind, i) {
                assert(is_first(rest, kind, i - 1));
                assert(rest[i - 1] == tracks[i]);
            }
        }
    }
}

/// A source is known by the codecs of its first video track and its first audio
/// track, whatever tracks there are beside them. Where neither is known, it is
/// refused.
pub proof fn law_sources_are_known_by_their_first_tracks(
    tracks: Seq<TrackView>,
    v: int,
    a: int,
    codec: Seq<char>,
)
    ensures
        is_first(tracks, "video"@, v) && tracks[v].codec == Some(codec) ==> {
            &&& chosen(tracks) is Ok
            &&& chosen(tracks)->Ok_0.video == Some(codec)
            &&& is_first(tracks, "audio"@, a) ==> chosen(tracks)->Ok_0.audio == tracks[a].codec
            &&& is_lacking(tracks, "audio"@) ==> chosen(tracks)->Ok_0.audio is None
        },
        is_first(tracks, "audio"@, a) && tracks[a].codec == Some(codec) ==> {
            &&& chosen(tracks) is Ok
            &&& chosen(tracks)->Ok_0.audio == Some(codec)
            &&& is_first(tracks, "video"@, v) ==> chosen(tracks)->Ok_0.video == tracks[v].codec
            &&& is_lacking(tracks, "video"@) ==> chosen(tracks)->Ok_0.video is None
        },
        (is_lacking(tracks, "video"@) || is_first(tracks, "video"@, v) && tracks[v].codec is None)
            && (is_lacking(tracks, "audio"@) || is_first(tracks, "audio"@, a)
            && tracks[a].codec is None) ==> chosen(tracks) == Err::<ProbeView, Seq<char>>(
            "no video or audio stream found"@,
        ),
{
    lemma_first_codec(tracks, "video"@, v);
    lemma_first_codec(tracks, "audio"@, a);
}

} // verus!
