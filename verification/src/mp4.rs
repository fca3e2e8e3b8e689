//! Fragmented-MP4 box scanning for late joiners.
//!
//! A client that attaches mid-stream cannot just be handed live bytes: fMP4
//! needs the init segment (`ftyp` + `moov`) before any media, and must start on
//! a fragment boundary. The scanner is a pass-through: it never consumes bytes,
//! it only reports where the structure boundaries fall, so that the fan-out
//! layer can cache the init segment and align newcomers to the next `moof`.
//!
//! ADTS and MP3 need none of this: they are self-synchronising, so every byte
//! offset is a valid join point.

use bytes::Bytes;
use vstd::prelude::*;

use crate::octets::{as_slice, from_vec, octets, slice};

verus! {

/// ISO-BMFF box header: 4-byte big-endian size, then 4-byte ASCII type.
pub const SHORT_HEADER: usize = 8;

/// A size of 1 means that a 64-bit `largesize` follows the type.
pub const LONG_HEADER: usize = 16;

/// The box type `ftyp`, as a big-endian number.
pub const FTYP: u64 = 0x66747970;

/// The box type `styp`.
pub const STYP: u64 = 0x73747970;

/// The box type `moof`.
pub const MOOF: u64 = 0x6d6f6f66;

// ---------------------------------------------------------------------------
// Boxes
// ---------------------------------------------------------------------------

/// The big-endian 32-bit number at `at`.
pub open spec fn be32(s: Seq<u8>, at: int) -> nat {
    (s[at] * 0x100_0000 + s[at + 1] * 0x1_0000 + s[at + 2] * 0x100 + s[at + 3]) as nat
}

/// The big-endian 64-bit number at `at`.
pub open spec fn be64(s: Seq<u8>, at: int) -> nat {
    be32(s, at) * 0x1_0000_0000 + be32(s, at + 4)
}

/// What stands at a box boundary.
pub enum Head {
    /// Too few bytes to tell.
    Partial,
    /// A header of `len` bytes that no box of a live stream can have.
    Bad { len: int },
    /// A header of `len` bytes that opens a box of `total` bytes, header and
    /// body together.
    Opens { len: int, total: nat, kind: nat },
}

/// The header that `s` begins with. A size of 1 puts the real size behind the
/// type; a size of 0 ("to the end of the file") or one below that of the header
/// itself is no box of a live stream.
pub open spec fn head(s: Seq<u8>) -> Head {
    if s.len() < SHORT_HEADER {
        Head::Partial
    } else if be32(s, 0) == 1 {
        if s.len() < LONG_HEADER {
            Head::Partial
        } else if be64(s, 8) < LONG_HEADER {
            Head::Bad { len: LONG_HEADER as int }
        } else {
            Head::Opens { len: LONG_HEADER as int, total: be64(s, 8), kind: be32(s, 4) }
        }
    } else if be32(s, 0) < SHORT_HEADER {
        Head::Bad { len: SHORT_HEADER as int }
    } else {
        Head::Opens { len: SHORT_HEADER as int, total: be32(s, 0), kind: be32(s, 4) }
    }
}

/// Whether a stream may open with a box of this type. A well-formed one opens
/// with `ftyp`, or with `styp` or `moof` where it was joined midway.
pub open spec fn may_open(kind: nat) -> bool {
    kind == FTYP || kind == STYP || kind == MOOF
}

/// Whether a box begins at offset `k` of `s`, where the first `left` bytes are
/// what remains of the body of an earlier box.
pub open spec fn boundary(s: Seq<u8>, left: nat, k: int) -> bool
    decreases
            (if k > left {
                k - left
            } else {
                0
            }),
{
    if k <= left {
        k == left
    } else {
        match head(s.skip(left as int)) {
            Head::Opens { total, .. } => if total > 0 {
                boundary(s.skip(left as int), total, k - left)
            } else {
                false
            },
            _ => false,
        }
    }
}

/// Whether a `moof` box begins at offset `k` of `s`, where the first `left`
/// bytes are what remains of the body of an earlier box.
pub open spec fn moof_at(s: Seq<u8>, left: nat, k: int) -> bool {
    boundary(s, left, k) && (head(s.skip(k)) matches Head::Opens { kind, .. } && kind == MOOF)
}

// ---------------------------------------------------------------------------
// Scanning, in the abstract
// ---------------------------------------------------------------------------

/// Where a scanner stands in its stream.
#[verifier::ext_equal]
pub struct Scan {
    /// The bytes of an incomplete box header, held back.
    pub header: Seq<u8>,
    /// How many bytes of the current box body are still to come.
    pub body_left: nat,
    /// Whether no `moof` has been seen yet.
    pub in_init: bool,
    /// The bytes seen before the first `moof`.
    pub init: Seq<u8>,
    /// Whether the box structure stopped making sense.
    pub failed: bool,
    /// Whether a first box has been seen.
    pub started: bool,
}

/// A run of bytes that the scanner lets through at once.
#[verifier::ext_equal]
pub enum Span {
    /// Bytes before the first `moof`: one header, or part of one body.
    Init(Seq<u8>),
    /// The header of a `moof`.
    Start(Seq<u8>),
    /// Any other header, or part of a body, after the first `moof`.
    More(Seq<u8>),
    /// Bytes that the scanner could make nothing of.
    Bare(Seq<u8>),
}

impl Scan {
    /// The state after letting `data` through.
    pub open spec fn past(self, data: Seq<u8>) -> Scan {
        Scan {
            init: if self.in_init {
                self.init + data
            } else {
                self.init
            },
            ..self
        }
    }

    /// `data` as this state lets it through.
    pub open spec fn span(self, data: Seq<u8>) -> Span {
        if self.in_init {
            Span::Init(data)
        } else {
            Span::More(data)
        }
    }

    /// The state after a structural failure. A partial init segment is worse
    /// than none, so it is dropped.
    pub open spec fn broken(self) -> Scan {
        Scan {
            header: Seq::empty(),
            body_left: 0,
            in_init: false,
            init: Seq::empty(),
            failed: true,
            started: self.started,
        }
    }

    /// Letting `buf` through where nothing is held back: the state after it,
    /// and the spans, in order.
    pub open spec fn scan(self, buf: Seq<u8>) -> (Scan, Seq<Span>)
        decreases buf.len(),
    {
        if self.failed {
            (self, seq![Span::Bare(buf)])
        } else if buf.len() == 0 {
            (self, Seq::empty())
        } else if self.body_left > 0 {
            let n: int = if self.body_left <= buf.len() {
                self.body_left as int
            } else {
                buf.len() as int
            };
            let next = Scan { body_left: (self.body_left - n) as nat, ..self.past(buf.take(n)) };
            let (end, spans) = next.scan(buf.skip(n));
            (end, seq![self.span(buf.take(n))] + spans)
        } else {
            match head(buf) {
                Head::Partial => (Scan { header: buf, ..self }, Seq::empty()),
                Head::Bad { len } => (self.broken(), bare(buf, len)),
                Head::Opens { len, total, kind } => {
                    let seen = Scan { started: true, ..self };
                    if !self.started && !may_open(kind) {
                        (seen.broken(), bare(buf, len))
                    } else {
                        let at = Scan { in_init: self.in_init && kind != MOOF, ..seen };
                        let next = Scan {
                            body_left: (total - len) as nat,
                            ..at.past(buf.take(len))
                        };
                        let (end, spans) = if len > 0 {
                            next.scan(buf.skip(len))
                        } else {
                            (next, Seq::empty())
                        };
                        let first = if kind == MOOF {
                            Span::Start(buf.take(len))
                        } else {
                            at.span(buf.take(len))
                        };
                        (end, seq![first] + spans)
                    }
                },
            }
        }
    }

    /// Letting a further chunk through.
    pub open spec fn push(self, chunk: Seq<u8>) -> (Scan, Seq<Span>) {
        Scan { header: Seq::empty(), ..self }.scan(self.header + chunk)
    }
}

/// The header of `len` bytes at which the structure broke, then the bytes
/// behind it, if any.
pub open spec fn bare(buf: Seq<u8>, len: int) -> Seq<Span> {
    seq![Span::Bare(buf.take(len))] + if len < buf.len() {
        seq![Span::Bare(buf.skip(len))]
    } else {
        Seq::empty()
    }
}

/// What a `Piece` holds.
#[verifier::ext_equal]
pub enum PieceView {
    Init(Seq<u8>),
    Media { data: Seq<u8>, fragment_start: bool },
}

/// The pieces that a list of spans makes: spans of media coalesce into one
/// piece up to the next `moof`; every other span is a piece of its own.
pub open spec fn coalesce(spans: Seq<Span>) -> Seq<PieceView> {
    extend(Seq::empty(), spans)
}

/// The pieces after further spans.
pub open spec fn extend(pieces: Seq<PieceView>, spans: Seq<Span>) -> Seq<PieceView>
    decreases spans.len(),
{
    if spans.len() == 0 {
        pieces
    } else {
        extend(add_span(pieces, spans[0]), spans.drop_first())
    }
}

/// The pieces after one more span.
pub open spec fn add_span(pieces: Seq<PieceView>, span: Span) -> Seq<PieceView> {
    match span {
        Span::Init(data) => pieces.push(PieceView::Init(data)),
        Span::Start(data) => pieces.push(PieceView::Media { data, fragment_start: true }),
        Span::Bare(data) => pieces.push(PieceView::Media { data, fragment_start: false }),
        Span::More(more) => if pieces.len() > 0 && pieces.last() is Media {
            let run = pieces.last();
            pieces.drop_last().push(
                PieceView::Media {
                    data: run->data + more,
                    fragment_start: run->fragment_start,
                },
            )
        } else {
            pieces.push(PieceView::Media { data: more, fragment_start: false })
        },
    }
}

// ---------------------------------------------------------------------------
// Pieces
// ---------------------------------------------------------------------------

/// A structure-aligned run of output.
#[derive(Debug, Clone, PartialEq, Eq)]
pub enum Piece {
    /// Part of the init segment: everything preceding the first `moof`.
    Init(Bytes),
    /// Media bytes. `fragment_start` marks a run beginning at a `moof` header,
    /// which is where a late joiner may safely be attached.
    Media { data: Bytes, fragment_start: bool },
}

impl View for Piece {
    type V = PieceView;

    open spec fn view(&self) -> PieceView {
        match self {
            Piece::Init(data) => PieceView::Init(octets(*data)),
            Piece::Media { data, fragment_start } => PieceView::Media {
                data: octets(*data),
                fragment_start: *fragment_start,
            },
        }
    }
}

impl PieceView {
    /// The bytes of the piece.
    pub open spec fn content(self) -> Seq<u8> {
        match self {
            PieceView::Init(data) => data,
            PieceView::Media { data, .. } => data,
        }
    }

    /// Whether the piece begins at a `moof` header.
    pub open spec fn starts(self) -> bool {
        self matches PieceView::Media { fragment_start: true, .. }
    }
}

/// What a list of pieces holds.
pub open spec fn views(pieces: Seq<Piece>) -> Seq<PieceView> {
    Seq::new(pieces.len(), |i: int| pieces[i]@)
}

impl Piece {
    pub fn data(&self) -> (r: &Bytes)
        ensures
            octets(*r) == self@.content(),
    {
        match self {
            Piece::Init(d) => d,
            Piece::Media { data, .. } => data,
        }
    }

    pub fn fragment_start(&self) -> (r: bool)
        ensures
            r == self@.starts(),
    {
        match self {
            Piece::Init(_) => false,
            Piece::Media { fragment_start, .. } => *fragment_start,
        }
    }
}

// ---------------------------------------------------------------------------
// Media in the making
// ---------------------------------------------------------------------------

/// The bytes of a list of buffers, end to end.
pub open spec fn joined(parts: Seq<Bytes>) -> Seq<u8>
    decreases parts.len(),
{
    if parts.len() == 0 {
        Seq::empty()
    } else {
        joined(parts.drop_last()) + octets(parts.last())
    }
}

/// Media bytes accumulated within a single `push`, held only long enough to
/// coalesce a run into one piece. Never held across calls: that would trade
/// latency for tidiness, which is the wrong way round here.
#[derive(Debug)]
struct Pending {
    parts: Vec<Bytes>,
    starts: bool,
}

impl Pending {
    /// The piece that the run makes as it stands, if it holds anything.
    spec fn run(&self) -> Seq<PieceView> {
        if self.parts@.len() == 0 {
            Seq::empty()
        } else {
            seq![PieceView::Media { data: joined(self.parts@), fragment_start: self.starts }]
        }
    }

    fn take(&mut self) -> (r: Option<Piece>)
        ensures
            final(self).parts@.len() == 0,
            !final(self).starts,
            match r {
                Some(p) => old(self).run() == seq![p@],
                None => old(self).run() == Seq::<PieceView>::empty(),
            },
    {
        let starts = self.starts;
        self.starts = false;
        if self.parts.len() == 0 {
            return None;
        }
        if self.parts.len() == 1 {
            // The common case: one contiguous slice, so no copy at all.
            let ghost parts = self.parts@;
            let data = self.parts.pop().unwrap();
            proof {
                reveal_with_fuel(joined, 2);
                assert(parts.drop_last().len() == 0);
                assert(joined(parts) == octets(data));
            }
            return Some(Piece::Media { data, fragment_start: starts });
        }
        let mut merged: Vec<u8> = Vec::new();
        let mut i: usize = 0;
        while i < self.parts.len()
            invariant
                i <= self.parts.len(),
                merged@ == joined(self.parts@.take(i as int)),
            decreases self.parts.len() - i,
        {
            merged.extend_from_slice(as_slice(&self.parts[i]));
            proof {
                let longer = self.parts@.take(i + 1);
                assert(longer.drop_last() == self.parts@.take(i as int));
            }
            i += 1;
        }
        proof {
            assert(self.parts@.take(self.parts@.len() as int) == self.parts@);
        }
        self.parts.clear();
        Some(Piece::Media { data: from_vec(merged), fragment_start: starts })
    }
}

// ---------------------------------------------------------------------------
// The scanner
// ---------------------------------------------------------------------------

/// Splits a byte stream at its box structure.
#[derive(Debug)]
pub struct Scanner {
    /// Partial top-level box header carried across a chunk boundary.
    header: Vec<u8>,
    /// Bytes still to come in the current box body.
    body_left: u64,
    /// True until the first `moof` is seen.
    in_init: bool,
    init: Vec<u8>,
    /// Set when the box structure stops making sense. The scanner degrades to a
    /// pass-through rather than corrupting the stream; late joiners can no
    /// longer be served, which the caller checks via `failed`.
    failed: bool,
    started: bool,
    pending: Pending,
}

impl View for Scanner {
    type V = Scan;

    closed spec fn view(&self) -> Scan {
        Scan {
            header: self.header@,
            body_left: self.body_left as nat,
            in_init: self.in_init,
            init: self.init@,
            failed: self.failed,
            started: self.started,
        }
    }
}

/// The big-endian 32-bit number at `at`.
fn read32(s: &Vec<u8>, at: usize) -> (r: u64)
    requires
        at + 4 <= s.len(),
    ensures
        r == be32(s@, at as int),
        r <= 0xffff_ffff,
{
    (s[at] as u64) * 0x100_0000 + (s[at + 1] as u64) * 0x1_0000 + (s[at + 2] as u64) * 0x100 + (
    s[at + 3] as u64)
}

/// The big-endian 64-bit number at `at`.
fn read64(s: &Vec<u8>, at: usize) -> (r: u64)
    requires
        at + 8 <= s.len(),
    ensures
        r == be64(s@, at as int),
{
    read32(s, at) * 0x1_0000_0000 + read32(s, at + 4)
}

/// The header of `buf` depends on no more bytes than it is long.
pub proof fn lemma_head_prefix(a: Seq<u8>, b: Seq<u8>)
    ensures
        head(a) !is Partial ==> head(a + b) == head(a),
{
}

impl Scanner {
    /// What holds of every scanner between calls: it holds back no more than an
    /// incomplete header, and that only at a box boundary; nothing is pending.
    pub closed spec fn wf(&self) -> bool {
        &&& self@.sound()
        &&& self.pending.parts@.len() == 0
        &&& !self.pending.starts
    }

    /// A well-formed scanner is sound.
    pub proof fn lemma_sound(&self)
        requires
            self.wf(),
        ensures
            self@.sound(),
    {
    }

    pub fn new() -> (r: Self)
        ensures
            r.wf(),
            r@ == Scan::fresh(),
    {
        Scanner {
            header: Vec::new(),
            body_left: 0,
            in_init: true,
            init: Vec::new(),
            failed: false,
            started: false,
            pending: Pending { parts: Vec::new(), starts: false },
        }
    }

    /// The cached init segment, once the first `moof` has been reached.
    pub fn init_segment(&self) -> (r: Option<Bytes>)
        ensures
            match r {
                Some(b) => self@.segment() == Some(octets(b)),
                None => self@.segment() is None,
            },
    {
        if self.in_init || self.init.len() == 0 {
            None
        } else {
            Some(Bytes::copy_from_slice(self.init.as_slice()))
        }
    }

    /// True if the byte stream did not parse as fragmented MP4. Late joiners
    /// cannot be served safely once this is set.
    pub fn failed(&self) -> (r: bool)
        ensures
            r == self@.failed,
    {
        self.failed
    }

    /// The state that the rest of a chunk is scanned from.
    spec fn here(&self) -> Scan {
        Scan { header: Seq::empty(), ..self@ }
    }

    /// The pieces made so far.
    spec fn made(&self, out: Seq<Piece>) -> Seq<PieceView> {
        views(out) + self.pending.run()
    }

    /// What holds while a chunk is scanned: media is pending once there is any.
    spec fn midway(&self, out: Seq<Piece>) -> bool {
        &&& self@.sound()
        &&& !self.failed
        &&& self.in_init ==> self.pending.parts@.len() == 0
        &&& self.pending.parts@.len() == 0 ==> !self.pending.starts && (out.len() == 0
            || out.last() is Init)
    }

    /// Split one chunk of ffmpeg output into structure-aligned pieces.
    ///
    /// The concatenation of the returned pieces always equals `chunk`, minus at
    /// most 15 bytes of box header held back until it is complete enough to
    /// identify. Nothing else is ever buffered across calls.
    pub fn push(&mut self, chunk: Bytes) -> (pieces: Vec<Piece>)
        requires
            old(self).wf(),
        ensures
            final(self).wf(),
            final(self)@.sound(),
            final(self)@ == old(self)@.push(octets(chunk)).0,
            views(pieces@) == coalesce(old(self)@.push(octets(chunk)).1),
    {
        let ghost data = octets(chunk);
        let ghost goal = (self@.push(data).0, coalesce(self@.push(data).1));
        let mut out: Vec<Piece> = Vec::new();
        if self.failed {
            out.push(Piece::Media { data: chunk, fragment_start: false });
            proof {
                assert(self.header@ + data == data);
                assert(self.here() == self@);
                let spans = seq![Span::Bare(data)];
                assert(spans.drop_first() == Seq::<Span>::empty());
                reveal_with_fuel(extend, 2);
                assert(views(out@) == goal.1);
            }
            return out;
        }
        let mut i: usize = 0;
        proof {
            assert(data.skip(0) == data);
            assert(self.made(out@) == Seq::<PieceView>::empty());
        }

        while i < chunk.len()
            invariant
                data == octets(chunk),
                i <= data.len(),
                self.midway(out@),
                tracks(self.made(out@), self.here(), self.header@ + data.skip(i as int), goal),
                old(self).wf(),
                goal == (old(self)@.push(data).0, coalesce(old(self)@.push(data).1)),
            decreases data.len() - i,
        {
            // Inside a box body: pass bytes straight through.
            if self.body_left > 0 {
                i = self.pass_body(&mut out, &chunk, i, Ghost(goal));
                continue ;
            }
            // At a box boundary: accumulate a header.
            i = self.gather(&chunk, i, SHORT_HEADER);
            if self.header.len() < SHORT_HEADER {
                // More bytes are needed; the header stays held back.
                continue ;
            }
            let size32: u64 = read32(&self.header, 0);
            let mut total: u64 = size32;
            let mut header_len: usize = SHORT_HEADER;
            if size32 == 1 {
                i = self.gather(&chunk, i, LONG_HEADER);
                if self.header.len() < LONG_HEADER {
                    continue ;
                }
                total = read64(&self.header, 8);
                header_len = LONG_HEADER;
            }
            proof {
                lemma_head_prefix(self.header@, data.skip(i as int));
            }
            // A size of 0 means "extends to end of file": never valid in a live
            // fragmented stream, and it would blind the scanner to every later
            // box. It is below any header length, as is any other impossible
            // size.
            if total < header_len as u64 {
                return self.give_up(out, chunk, i, Ghost(goal));
            }
            let kind: u64 = read32(&self.header, 4);
            if !self.started {
                self.started = true;
                if kind != FTYP && kind != MOOF && kind != STYP {
                    return self.give_up(out, chunk, i, Ghost(goal));
                }
            }
            self.open_box(&mut out, &chunk, i, total, kind, Ghost(goal));
        }

        proof {
            assert(self.header@ + data.skip(i as int) == self.header@);
        }
        let ghost made = self.made(out@);
        if let Some(p) = self.pending.take() {
            out.push(p);
        }
        proof {
            assert(views(out@) == made);
        }
        out
    }

    /// After a structural failure, hand back everything still unconsumed,
    /// including held-back header bytes, so that the stream itself stays intact.
    fn give_up(
        &mut self,
        out: Vec<Piece>,
        chunk: Bytes,
        i: usize,
        Ghost(goal): Ghost<(Scan, Seq<PieceView>)>,
    ) -> (pieces: Vec<Piece>)
        requires
            i <= octets(chunk).len(),
            old(self).body_left == 0,
            old(self).header@.len() > 0,
            goal == (
                old(self)@.broken(),
                extend(
                    old(self).made(out@),
                    bare(
                        old(self).header@ + octets(chunk).skip(i as int),
                        old(self).header@.len() as int,
                    ),
                ),
            ),
        ensures
            final(self).wf(),
            final(self)@ == goal.0,
            views(pieces@) == goal.1,
    {
        let mut out = out;
        let ghost made = self.made(out@);
        let ghost header = self.header@;
        let ghost rest = octets(chunk).skip(i as int);
        self.failed = true;
        self.in_init = false;
        self.init.clear();
        if let Some(p) = self.pending.take() {
            out.push(p);
        }
        proof {
            assert(views(out@) == made);
        }
        out.push(
            Piece::Media {
                data: Bytes::copy_from_slice(self.header.as_slice()),
                fragment_start: false,
            },
        );
        self.header.clear();
        if i < chunk.len() {
            out.push(Piece::Media { data: slice(&chunk, i, chunk.len()), fragment_start: false });
        }
        proof {
            let buf = header + rest;
            let spans = bare(buf, header.len() as int);
            assert(buf.take(header.len() as int) == header);
            assert(buf.skip(header.len() as int) == rest);
            assert(octets(chunk).subrange(i as int, octets(chunk).len() as int) == rest);
            reveal_with_fuel(extend, 3);
            assert(spans.drop_first() == if rest.len() > 0 {
                seq![Span::Bare(rest)]
            } else {
                Seq::empty()
            });
            if rest.len() > 0 {
                assert(spans.drop_first().drop_first() == Seq::<Span>::empty());
            }
            assert(views(out@) == goal.1);
        }
        out
    }

    /// Lets a complete header through and turns to the body behind it.
    fn open_box(
        &mut self,
        out: &mut Vec<Piece>,
        chunk: &Bytes,
        i: usize,
        total: u64,
        kind: u64,
        Ghost(goal): Ghost<(Scan, Seq<PieceView>)>,
    )
        requires
            old(self).in_init ==> old(self).pending.parts@.len() == 0,
            old(self).pending.parts@.len() == 0 ==> !old(self).pending.starts && (old(
                out,
            )@.len() == 0 || old(out)@.last() is Init),
            !old(self).failed,
            old(self).started,
            old(self).body_left == 0,
            i <= octets(*chunk).len(),
            old(self).header@.len() <= total,
            head(old(self).header@) == (Head::Opens {
                len: old(self).header@.len() as int,
                total: total as nat,
                kind: kind as nat,
            }),
            tracks(
                old(self).made(old(out)@),
                old(self).here(),
                old(self).header@ + octets(*chunk).skip(i as int),
                goal,
            ),
        ensures
            final(self).midway(final(out)@),
            final(self).header@.len() == 0,
            tracks(
                final(self).made(final(out)@),
                final(self).here(),
                final(self).header@ + octets(*chunk).skip(i as int),
                goal,
            ),
    {
        let ghost made = self.made(out@);
        let ghost before = self.here();
        let ghost header = self.header@;
        let ghost rest = octets(*chunk).skip(i as int);
        if kind == MOOF {
            self.in_init = false;
            // Close any run in progress so the fragment starts its own piece.
            if let Some(p) = self.pending.take() {
                out.push(p);
            }
            proof {
                assert(views(out@) == made);
            }
            self.pending.starts = true;
        }
        self.body_left = total - self.header.len() as u64;
        let data = Bytes::copy_from_slice(self.header.as_slice());
        self.header.clear();
        self.emit(out, data);
        proof {
            let buf = header + rest;
            assert(buf.take(header.len() as int) == header);
            assert(buf.skip(header.len() as int) == rest);
            lemma_head_prefix(header, rest);
            lemma_step_open(made, before, buf, goal);
            assert(Seq::<u8>::empty() + rest == rest);
        }
    }

    /// Passes what the chunk holds of the current body; returns the position
    /// behind it.
    fn pass_body(
        &mut self,
        out: &mut Vec<Piece>,
        chunk: &Bytes,
        i: usize,
        Ghost(goal): Ghost<(Scan, Seq<PieceView>)>,
    ) -> (r: usize)
        requires
            old(self).midway(old(out)@),
            i < octets(*chunk).len(),
            old(self).body_left > 0,
            tracks(
                old(self).made(old(out)@),
                old(self).here(),
                old(self).header@ + octets(*chunk).skip(i as int),
                goal,
            ),
        ensures
            final(self).midway(final(out)@),
            i < r <= octets(*chunk).len(),
            final(self).header@.len() == 0,
            tracks(
                final(self).made(final(out)@),
                final(self).here(),
                final(self).header@ + octets(*chunk).skip(r as int),
                goal,
            ),
    {
        let room: u64 = (chunk.len() - i) as u64;
        let take: usize = if self.body_left <= room {
            self.body_left as usize
        } else {
            chunk.len() - i
        };
        let ghost rest = octets(*chunk).skip(i as int);
        let ghost before = self.here();
        let ghost made = self.made(out@);
        let part = slice(chunk, i, i + take);
        proof {
            assert(self.header@ + rest == rest);
            assert(octets(part) == rest.take(take as int));
            lemma_step_body(made, before, rest, goal);
        }
        self.emit(out, part);
        self.body_left = self.body_left - take as u64;
        proof {
            assert(rest.skip(take as int) == octets(*chunk).skip(i + take));
            assert(self.header@ + octets(*chunk).skip(i + take) == octets(*chunk).skip(i + take));
        }
        i + take
    }

    /// Moves bytes of the chunk to the header until it holds `want` or the
    /// chunk is used up; returns the position behind them.
    fn gather(&mut self, chunk: &Bytes, i: usize, want: usize) -> (r: usize)
        requires
            i <= octets(*chunk).len(),
        ensures
            i <= r <= octets(*chunk).len(),
            *final(self) == (Scanner { header: final(self).header, ..*old(self) }),
            final(self).header@ + octets(*chunk).skip(r as int) == old(self).header@ + octets(
                *chunk,
            ).skip(i as int),
            final(self).header@.len() >= want || r == octets(*chunk).len(),
            final(self).header@.len() == if old(self).header@.len() >= want {
                old(self).header@.len()
            } else {
                (old(self).header@.len() + r - i) as nat
            },
            final(self).header@.len() <= want || r == i,
    {
        let bytes_in = as_slice(chunk);
        let mut r: usize = i;
        let ghost whole = self.header@ + octets(*chunk).skip(i as int);
        while self.header.len() < want && r < bytes_in.len()
            invariant
                bytes_in@ == octets(*chunk),
                i <= r <= octets(*chunk).len(),
                self.header@.len() == old(self).header@.len() + r - i,
                self.header@.len() <= want || r == i,
                self.header@ + octets(*chunk).skip(r as int) == whole,
                *self == (Scanner { header: self.header, ..*old(self) }),
            decreases bytes_in.len() - r,
        {
            self.header.push(bytes_in[r]);
            r += 1;
            assert(self.header@ + octets(*chunk).skip(r as int) == whole);
        }
        r
    }

    fn emit(&mut self, out: &mut Vec<Piece>, data: Bytes)
        requires
            octets(data).len() > 0,
            old(self)@.sound(),
            !old(self).failed,
            old(self).pending.parts@.len() == 0 ==> (old(out)@.len() == 0 || old(out)@.last() is Init)
                || old(self).pending.starts,
            old(self).in_init ==> old(self).pending.parts@.len() == 0 && !old(self).pending.starts,
        ensures
            final(self).midway(final(out)@),
            final(self)@ == old(self)@.past(octets(data)),
            final(self).made(final(out)@) == add_span(
                old(self).made(old(out)@),
                if old(self).pending.parts@.len() == 0 && old(self).pending.starts {
                    Span::Start(octets(data))
                } else {
                    old(self)@.span(octets(data))
                },
            ),
    {
        if self.in_init {
            self.init.extend_from_slice(as_slice(&data));
            out.push(Piece::Init(data));
            return ;
        }
        let ghost parts = self.pending.parts@;
        self.pending.parts.push(data);
        proof {
            assert(self.pending.parts@.drop_last() == parts);
            assert(joined(self.pending.parts@) == joined(parts) + octets(data));
            assert(joined(Seq::<Bytes>::empty()) + octets(data) == octets(data));
        }
    }
}

/// Scanning `buf` from `here`, with the pieces `made` so far, leads to `goal`.
spec fn tracks(
    made: Seq<PieceView>,
    here: Scan,
    buf: Seq<u8>,
    goal: (Scan, Seq<PieceView>),
) -> bool {
    here.scan(buf).0 == goal.0 && extend(made, here.scan(buf).1) == goal.1
}

/// Letting part of a body through is a step towards the goal.
proof fn lemma_step_body(
    made: Seq<PieceView>,
    here: Scan,
    buf: Seq<u8>,
    goal: (Scan, Seq<PieceView>),
)
    requires
        tracks(made, here, buf, goal),
        !here.failed,
        here.body_left > 0,
        buf.len() > 0,
    ensures
        ({
            let n: int = if here.body_left <= buf.len() {
                here.body_left as int
            } else {
                buf.len() as int
            };
            tracks(
                add_span(made, here.span(buf.take(n))),
                Scan { body_left: (here.body_left - n) as nat, ..here.past(buf.take(n)) },
                buf.skip(n),
                goal,
            )
        }),
{
    let spans = here.scan(buf).1;
    let n: int = if here.body_left <= buf.len() {
        here.body_left as int
    } else {
        buf.len() as int
    };
    let next = Scan { body_left: (here.body_left - n) as nat, ..here.past(buf.take(n)) };
    assert(spans.drop_first() == next.scan(buf.skip(n)).1);
}

/// Opening a box is a step towards the goal.
proof fn lemma_step_open(
    made: Seq<PieceView>,
    here: Scan,
    buf: Seq<u8>,
    goal: (Scan, Seq<PieceView>),
)
    requires
        tracks(made, here, buf, goal),
        !here.failed,
        here.started,
        here.body_left == 0,
        head(buf) is Opens,
    ensures
        ({
            let len = head(buf)->Opens_len;
            let kind = head(buf)->kind;
            let at = Scan { in_init: here.in_init && kind != MOOF, ..here };
            tracks(
                add_span(
                    made,
                    if kind == MOOF {
                        Span::Start(buf.take(len))
                    } else {
                        at.span(buf.take(len))
                    },
                ),
                Scan { body_left: (head(buf)->total - len) as nat, ..at.past(buf.take(len)) },
                buf.skip(len),
                goal,
            )
        }),
{
    let len = head(buf)->Opens_len;
    let kind = head(buf)->kind;
    let at = Scan { in_init: here.in_init && kind != MOOF, ..here };
    let next = Scan { body_left: (head(buf)->total - len) as nat, ..at.past(buf.take(len)) };
    let spans = here.scan(buf).1;
    assert(Scan { started: true, ..here } == here);
    assert(spans.drop_first() == next.scan(buf.skip(len)).1);
}

impl Scan {
    /// A scanner that has seen nothing.
    pub open spec fn fresh() -> Scan {
        Scan {
            header: Seq::empty(),
            body_left: 0,
            in_init: true,
            init: Seq::empty(),
            failed: false,
            started: false,
        }
    }

    /// What holds of a scanner between calls.
    pub open spec fn sound(self) -> bool {
        &&& head(self.header) is Partial
        &&& self.header.len() > 0 ==> self.body_left == 0
        &&& self.failed ==> self.header.len() == 0 && !self.in_init && self.init.len() == 0
    }

    /// The init segment, where it is known to be complete.
    pub open spec fn segment(self) -> Option<Seq<u8>> {
        if self.in_init || self.init.len() == 0 {
            None
        } else {
            Some(self.init)
        }
    }
}

} // verus!
