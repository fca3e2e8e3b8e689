//! The HTTP that is spoken with the engine: URLs, response heads and bodies.
//!
//! A dedicated client rather than an HTTP crate, because the semantics are
//! specific: a *per-read* timeout on an endless response body, with no
//! total-duration cap. Everything here works on bytes that have already
//! arrived, and says when it needs more of them; whoever owns the socket reads
//! it.

use vstd::prelude::*;
use vstd::slice::{slice_subrange, slice_to_vec};
use vstd::utf8::{decode_utf8, valid_utf8};

use bytes::Bytes;

use crate::octets::{as_slice, from_vec, octets, slice};
use crate::text::{
    contains_text, decimal, find, has_text, index_of, last_index_of, lemma_index_of, lowered,
    number, numeral, parse_number, push_numeral, rfind, same_text, second_word, split_once,
    starts_with, text_of, to_chars, to_lower, to_text, trim, trim_newlines, trimmed,
    without_newlines, words,
};

verus! {

/// The most that the head of a response may hold, in bytes.
pub const MAX_HEADER_BYTES: usize = 65536;

// ---------------------------------------------------------------------------
// Faults
// ---------------------------------------------------------------------------

/// What is wrong, by kind.
#[derive(Debug, Clone, Copy, PartialEq, Eq, Structural)]
pub enum FaultKind {
    /// The text cannot be what it is meant to be.
    InvalidInput,
    /// The bytes are not UTF-8.
    InvalidData,
    /// The bytes ended too early.
    UnexpectedEof,
}

/// Why an exchange with the engine cannot go on.
#[derive(Debug)]
pub struct Fault {
    pub kind: FaultKind,
    pub message: String,
}

impl View for Fault {
    type V = (FaultKind, Seq<char>);

    open spec fn view(&self) -> (FaultKind, Seq<char>) {
        (self.kind, self.message@)
    }
}

/// A fault in a text.
fn bad(message: String) -> (f: Fault)
    ensures
        f@ == (FaultKind::InvalidInput, message@),
{
    Fault { kind: FaultKind::InvalidInput, message }
}

/// The fault that a line which is not UTF-8 makes.
pub open spec fn not_utf8() -> (FaultKind, Seq<char>) {
    (FaultKind::InvalidData, "stream did not contain valid UTF-8"@)
}

/// The bytes ended too early.
fn cut_short(message: &str) -> (f: Fault)
    ensures
        f@ == (FaultKind::UnexpectedEof, message@),
{
    Fault { kind: FaultKind::UnexpectedEof, message: message.to_owned() }
}

/// A text between quotation marks, with its special characters escaped, as
/// `Debug` of `str` writes it.
pub uninterp spec fn debug_text(s: Seq<char>) -> Seq<char>;

/// `format!` with `Debug` of `str`: the text between quotation marks, with its
/// special characters escaped.
#[verifier::external_body]
pub(crate) fn quoted(s: &str) -> (r: String)
    ensures
        r@ == debug_text(s@),
{
    format!("{:?}", s)
}

/// `std::str::from_utf8`: the text that the bytes encode, if they are UTF-8.
#[verifier::external_body]
pub(crate) fn text_from_utf8(data: &[u8]) -> (r: Option<&str>)
    ensures
        match r {
            Some(s) => valid_utf8(data@) && s@ == decode_utf8(data@),
            None => !valid_utf8(data@),
        },
{
    std::str::from_utf8(data).ok()
}

// ---------------------------------------------------------------------------
// URLs
// ---------------------------------------------------------------------------

/// The address of a resource on an HTTP server.
#[derive(Debug, Clone, PartialEq, Eq)]
pub struct Url {
    pub host: String,
    pub port: u16,
    pub target: String,
}

/// What a `Url` says.
#[verifier::ext_equal]
pub struct UrlView {
    pub host: Seq<char>,
    pub port: nat,
    pub target: Seq<char>,
}

impl View for Url {
    type V = UrlView;

    open spec fn view(&self) -> UrlView {
        UrlView { host: self.host@, port: self.port as nat, target: self.target@ }
    }
}

/// The resource that a URL names: behind `http://` an authority, which ends at
/// the first slash, and the target from there on, which is `/` where nothing
/// else is named. The authority is a host, with a port behind its last colon
/// where it has one.
pub open spec fn url_of(s: Seq<char>) -> Result<UrlView, (FaultKind, Seq<char>)> {
    if !"http://"@.is_prefix_of(s) {
        Err((FaultKind::InvalidInput, "only http:// urls are supported: "@ + s))
    } else {
        let rest = s.skip(7);
        let (authority, target) = match index_of(rest, '/') {
            Some(i) => (rest.take(i), rest.skip(i)),
            None => (rest, "/"@),
        };
        if authority.len() == 0 {
            Err((FaultKind::InvalidInput, "url has no host: "@ + s))
        } else {
            match last_index_of(authority, ':') {
                Some(i) => match number(authority.skip(i + 1), 10, 65535) {
                    Some(port) => Ok(UrlView { host: authority.take(i), port, target }),
                    None => Err((FaultKind::InvalidInput, "invalid port in "@ + s)),
                },
                None => Ok(UrlView { host: authority, port: 80, target }),
            }
        }
    }
}

/// A message with a text behind it.
fn about(message: &str, s: &str) -> (r: String)
    ensures
        r@ == message@ + s@,
{
    let mut r = message.to_owned();
    r.append(s);
    r
}

/// Reads an `http://` URL.
pub fn parse_url(s: &str) -> (r: Result<Url, Fault>)
    ensures
        match r {
            Ok(u) => url_of(s@) == Ok::<UrlView, (FaultKind, Seq<char>)>(u@),
            Err(f) => url_of(s@) == Err::<UrlView, (FaultKind, Seq<char>)>(f@),
        },
{
    let all = to_chars(s);
    let scheme = to_chars("http://");
    proof {
        reveal_strlit("http://");
    }
    if !starts_with(all.as_slice(), scheme.as_slice()) {
        return Err(bad(about("only http:// urls are supported: ", s)));
    }
    let rest = slice_subrange(all.as_slice(), 7, all.len());
    proof {
        assert(rest@ == s@.skip(7));
        lemma_index_of(rest@, '/');
    }
    let slash = find(rest, '/');
    let (authority, target) = match slash {
        Some(i) => (slice_subrange(rest, 0, i), to_text(slice_subrange(rest, i, rest.len()))),
        None => (rest, "/".to_owned()),
    };
    proof {
        if let Some(i) = slash {
            assert(authority@ == rest@.take(i as int));
            assert(target@ == rest@.skip(i as int));
        }
    }
    if authority.len() == 0 {
        return Err(bad(about("url has no host: ", s)));
    }
    match rfind(authority, ':') {
        Some(i) => {
            let digits = slice_subrange(authority, i + 1, authority.len());
            proof {
                assert(digits@ == authority@.skip(i + 1));
                assert(authority@.subrange(0, i as int) == authority@.take(i as int));
            }
            match parse_number(digits, 10, 65535) {
                Some(port) => Ok(
                    Url {
                        host: to_text(slice_subrange(authority, 0, i)),
                        port: port as u16,
                        target,
                    },
                ),
                None => Err(bad(about("invalid port in ", s))),
            }
        },
        None => Ok(Url { host: to_text(authority), port: 80, target }),
    }
}

// ---------------------------------------------------------------------------
// Lines
// ---------------------------------------------------------------------------

/// The position of the first line feed.
pub open spec fn line_feed(buf: Seq<u8>) -> Option<int>
    decreases buf.len(),
{
    if buf.len() == 0 {
        None
    } else if buf[0] == 10 {
        Some(0)
    } else {
        match line_feed(buf.drop_first()) {
            Some(i) => Some(i + 1),
            None => None,
        }
    }
}

/// How many bytes the line at the front of `buf` has, its line feed included. A
/// line without one is complete only where the stream has ended; none is known
/// otherwise.
pub open spec fn line_len(buf: Seq<u8>, eof: bool) -> Option<int> {
    match line_feed(buf) {
        Some(i) => Some(i + 1),
        None => if eof {
            Some(buf.len() as int)
        } else {
            None
        },
    }
}

/// A line feed found stands in the bytes, and none before it.
pub proof fn lemma_line_feed(buf: Seq<u8>)
    ensures
        match line_feed(buf) {
            Some(i) => 0 <= i < buf.len() && buf[i] == 10 && forall|j: int|
                0 <= j < i ==> buf[j] != 10,
            None => forall|j: int| 0 <= j < buf.len() ==> buf[j] != 10,
        },
    decreases buf.len(),
{
    if buf.len() > 0 && buf[0] != 10 {
        let rest = buf.drop_first();
        lemma_line_feed(rest);
        assert forall|j: int| 0 < j < buf.len() implies buf[j] == rest[j - 1] by {}
    }
}

/// The length of the line at the front of what has arrived.
fn measure_line(buf: &[u8], eof: bool) -> (r: Option<usize>)
    ensures
        match r {
            Some(n) => line_len(buf@, eof) == Some(n as int) && n <= buf@.len(),
            None => line_len(buf@, eof) is None,
        },
{
    proof {
        lemma_line_feed(buf@);
    }
    let mut i: usize = 0;
    while i < buf.len()
        invariant
            i <= buf.len(),
            forall|j: int| 0 <= j < i ==> buf@[j] != 10,
        decreases buf.len() - i,
    {
        if buf[i] == 10 {
            proof {
                lemma_line_feed(buf@);
            }
            return Some(i + 1);
        }
        i += 1;
    }
    if eof {
        Some(buf.len())
    } else {
        None
    }
}

// ---------------------------------------------------------------------------
// Headers
// ---------------------------------------------------------------------------

/// The header fields of a response, by lower-case name. A field that is given
/// twice has the value that was given last.
#[derive(Debug)]
pub struct Headers {
    entries: Vec<(String, String)>,
}

spec fn fields(entries: Seq<(String, String)>) -> Map<Seq<char>, Seq<char>>
    decreases entries.len(),
{
    if entries.len() == 0 {
        Map::empty()
    } else {
        fields(entries.drop_last()).insert(entries.last().0@, entries.last().1@)
    }
}

impl View for Headers {
    type V = Map<Seq<char>, Seq<char>>;

    closed spec fn view(&self) -> Map<Seq<char>, Seq<char>> {
        fields(self.entries@)
    }
}

/// What stands under a key is what the last entry with that key says.
proof fn lemma_fields(entries: Seq<(String, String)>, i: int, key: Seq<char>)
    requires
        0 <= i < entries.len(),
        entries[i].0@ == key,
        forall|j: int| i < j < entries.len() ==> (#[trigger] entries[j]).0@ != key,
    ensures
        fields(entries).contains_key(key),
        fields(entries)[key] == entries[i].1@,
    decreases entries.len(),
{
    if i < entries.len() - 1 {
        let shorter = entries.drop_last();
        assert forall|j: int| i < j < shorter.len() implies (#[trigger] shorter[j]).0@ != key by {
            assert(entries[j].0@ != key);
        }
        lemma_fields(shorter, i, key);
        assert(entries[entries.len() - 1].0@ != key);
    }
}

proof fn lemma_no_field(entries: Seq<(String, String)>, key: Seq<char>)
    requires
        forall|j: int| 0 <= j < entries.len() ==> (#[trigger] entries[j]).0@ != key,
    ensures
        !fields(entries).contains_key(key),
    decreases entries.len(),
{
    if entries.len() > 0 {
        let shorter = entries.drop_last();
        assert forall|j: int| 0 <= j < shorter.len() implies (#[trigger] shorter[j]).0@ != key by {
            assert(entries[j].0@ != key);
        }
        lemma_no_field(shorter, key);
        assert(entries[entries.len() - 1].0@ != key);
    }
}

impl Headers {
    pub fn new() -> (h: Self)
        ensures
            h@ == Map::<Seq<char>, Seq<char>>::empty(),
    {
        Headers { entries: Vec::new() }
    }

    pub fn insert(&mut self, name: String, value: String)
        ensures
            final(self)@ == old(self)@.insert(name@, value@),
    {
        let ghost before = self.entries@;
        self.entries.push((name, value));
        assert(self.entries@.drop_last() == before);
    }

    pub fn get(&self, name: &str) -> (r: Option<&str>)
        ensures
            match r {
                Some(v) => self@.contains_key(name@) && v@ == self@[name@],
                None => !self@.contains_key(name@),
            },
    {
        let mut i: usize = self.entries.len();
        while i > 0
            invariant
                i <= self.entries@.len(),
                forall|j: int|
                    i <= j < self.entries@.len() ==> (#[trigger] self.entries@[j]).0@ != name@,
            decreases i,
        {
            i -= 1;
            if same_text(self.entries[i].0.as_str(), name) {
                proof {
                    lemma_fields(self.entries@, i as int, name@);
                }
                return Some(self.entries[i].1.as_str());
            }
        }
        proof {
            lemma_no_field(self.entries@, name@);
        }
        None
    }
}

// ---------------------------------------------------------------------------
// Response heads
// ---------------------------------------------------------------------------

/// The status line and the header fields of a response.
#[derive(Debug)]
pub struct Head {
    pub status: u16,
    pub headers: Headers,
}

/// What a `Head` says.
#[verifier::ext_equal]
pub struct HeadView {
    pub status: nat,
    pub headers: Map<Seq<char>, Seq<char>>,
}

impl View for Head {
    type V = HeadView;

    open spec fn view(&self) -> HeadView {
        HeadView { status: self.status as nat, headers: self.headers@ }
    }
}

/// What the bytes that have arrived so far say of a response head.
#[derive(Debug)]
pub enum HeadRead {
    /// It has not arrived in full.
    More,
    /// It cannot be read.
    Fail(Fault),
    /// It is this, and takes up the first `used` bytes.
    Done { head: Head, used: usize },
}

/// What a `HeadRead` says.
#[verifier::ext_equal]
pub enum HeadReadView {
    More,
    Fail((FaultKind, Seq<char>)),
    Done { head: HeadView, used: nat },
}

impl View for HeadRead {
    type V = HeadReadView;

    open spec fn view(&self) -> HeadReadView {
        match self {
            HeadRead::More => HeadReadView::More,
            HeadRead::Fail(f) => HeadReadView::Fail(f@),
            HeadRead::Done { head, used } => HeadReadView::Done { head: head@, used: *used as nat },
        }
    }
}

/// The status code in a status line: its second word.
pub open spec fn status_of(line: Seq<char>) -> Option<nat> {
    if words(line).len() > 1 {
        number(words(line)[1], 10, 65535)
    } else {
        None
    }
}

/// `headers` with the field that a header line gives: a name, in any case, and
/// a value behind the first colon, both without white space around them. A line
/// without a colon gives none.
pub open spec fn with_field(headers: Map<Seq<char>, Seq<char>>, line: Seq<char>) -> Map<
    Seq<char>,
    Seq<char>,
> {
    match split_once(line, ':') {
        Some((name, value)) => headers.insert(lowered(trim(name)), trim(value)),
        None => headers,
    }
}

/// The header lines in `buf`, up to the empty one, where `used` bytes of the
/// head have gone before.
pub open spec fn header_lines(
    buf: Seq<u8>,
    eof: bool,
    used: nat,
    status: nat,
    headers: Map<Seq<char>, Seq<char>>,
) -> HeadReadView
    decreases buf.len(),
    via header_lines_shrink
{
    match line_len(buf, eof) {
        None => HeadReadView::More,
        Some(n) => {
            let line = buf.take(n);
            if !valid_utf8(line) {
                HeadReadView::Fail(not_utf8())
            } else if n == 0 {
                HeadReadView::Fail((FaultKind::UnexpectedEof, "headers ended mid-stream"@))
            } else if used + n > MAX_HEADER_BYTES {
                HeadReadView::Fail((FaultKind::InvalidInput, "response headers too large"@))
            } else {
                let text = trim_newlines(decode_utf8(line));
                if text.len() == 0 {
                    HeadReadView::Done {
                        head: HeadView { status, headers },
                        used: (used + n) as nat,
                    }
                } else {
                    header_lines(
                        buf.skip(n),
                        eof,
                        (used + n) as nat,
                        status,
                        with_field(headers, text),
                    )
                }
            }
        },
    }
}

#[via_fn]
proof fn header_lines_shrink(
    buf: Seq<u8>,
    eof: bool,
    used: nat,
    status: nat,
    headers: Map<Seq<char>, Seq<char>>,
) {
    lemma_line_feed(buf);
}

/// The response head at the front of `buf`: a status line, header lines, and an
/// empty line.
pub open spec fn head_of(buf: Seq<u8>, eof: bool) -> HeadReadView {
    match line_len(buf, eof) {
        None => HeadReadView::More,
        Some(n) => {
            let line = buf.take(n);
            if !valid_utf8(line) {
                HeadReadView::Fail(not_utf8())
            } else if n == 0 {
                HeadReadView::Fail((FaultKind::UnexpectedEof, "no response from engine"@))
            } else {
                match status_of(decode_utf8(line)) {
                    None => HeadReadView::Fail(
                        (
                            FaultKind::InvalidInput,
                            "malformed status line "@ + debug_text(decode_utf8(line)),
                        ),
                    ),
                    Some(status) => header_lines(
                        buf.skip(n),
                        eof,
                        n as nat,
                        status,
                        Map::empty(),
                    ),
                }
            }
        },
    }
}

/// Takes in a header line.
fn add_field(headers: &mut Headers, line: &[char])
    ensures
        final(headers)@ == with_field(old(headers)@, line@),
{
    match find(line, ':') {
        Some(i) => {
            assert(i < line.len());
            let name = to_lower(trimmed(slice_subrange(line, 0, i)));
            let value = trimmed(slice_subrange(line, i + 1, line.len()));
            proof {
                assert(line@.subrange(0, i as int) == line@.take(i as int));
                assert(line@.subrange(i + 1, line@.len() as int) == line@.skip(i + 1));
            }
            headers.insert(to_text(name.as_slice()), to_text(value));
        },
        None => {},
    }
}

/// Reads a response head from what has arrived so far. `eof` says that nothing
/// more will.
pub fn read_head(buf: &[u8], eof: bool) -> (r: HeadRead)
    ensures
        r@ == head_of(buf@, eof),
{
    let first: usize = match measure_line(buf, eof) {
        None => return HeadRead::More,
        Some(n) => n,
    };
    proof {
        assert(buf@.subrange(0, first as int) == buf@.take(first as int));
    }
    let line = match text_from_utf8(slice_subrange(buf, 0, first)) {
        None => return HeadRead::Fail(garbled()),
        Some(s) => s,
    };
    if first == 0 {
        return HeadRead::Fail(cut_short("no response from engine"));
    }
    let line_chars = to_chars(line);
    let code: Option<u64> = match second_word(line_chars.as_slice()) {
        Some(w) => parse_number(w, 10, 65535),
        None => None,
    };
    let status: u16 = match code {
        Some(c) => c as u16,
        None => {
            let shown = quoted(line);
            return HeadRead::Fail(bad(about("malformed status line ", shown.as_str())));
        },
    };

    let mut headers = Headers::new();
    let mut used: usize = first;
    loop
        invariant
            0 < used <= buf@.len(),
            head_of(buf@, eof) == header_lines(
                buf@.skip(used as int),
                eof,
                used as nat,
                status as nat,
                headers@,
            ),
        decreases buf@.len() - used,
    {
        let ghost rest = buf@.skip(used as int);
        let tail = slice_subrange(buf, used, buf.len());
        assert(tail@ == rest);
        let n: usize = match measure_line(tail, eof) {
            None => return HeadRead::More,
            Some(n) => n,
        };
        assert(tail@.subrange(0, n as int) == rest.take(n as int));
        let text = match text_from_utf8(slice_subrange(tail, 0, n)) {
            None => return HeadRead::Fail(garbled()),
            Some(s) => s,
        };
        if n == 0 {
            return HeadRead::Fail(cut_short("headers ended mid-stream"));
        }
        let total: usize = used + n;
        if total > MAX_HEADER_BYTES {
            return HeadRead::Fail(bad("response headers too large".to_owned()));
        }
        let chars = to_chars(text);
        let field = without_newlines(chars.as_slice());
        if field.len() == 0 {
            return HeadRead::Done { head: Head { status, headers }, used: total };
        }
        add_field(&mut headers, field);
        assert(rest.skip(n as int) == buf@.skip(total as int));
        used = total;
    }
}

/// A line is not UTF-8.
fn garbled() -> (f: Fault)
    ensures
        f@ == not_utf8(),
{
    Fault {
        kind: FaultKind::InvalidData,
        message: "stream did not contain valid UTF-8".to_owned(),
    }
}

// ---------------------------------------------------------------------------
// Bodies
// ---------------------------------------------------------------------------

/// How the response body is delimited.
#[derive(Debug, Clone, Copy, PartialEq, Eq, Structural)]
pub enum BodyKind {
    Chunked,
    Length(u64),
    /// No delimiter: the body runs until the peer closes. This is what the
    /// engine's stream endpoint does.
    ToClose,
}

/// The framing that the header fields announce. Chunked outranks a length.
pub open spec fn framing(headers: Map<Seq<char>, Seq<char>>) -> BodyKind {
    if headers.contains_key("transfer-encoding"@) && contains_text(
        lowered(headers["transfer-encoding"@]),
        "chunked"@,
    ) {
        BodyKind::Chunked
    } else if headers.contains_key("content-length"@) {
        match number(headers["content-length"@], 10, u64::MAX as nat) {
            Some(n) => BodyKind::Length(n as u64),
            None => BodyKind::ToClose,
        }
    } else {
        BodyKind::ToClose
    }
}

/// Tells from the header fields how the body is delimited.
pub fn body_kind(headers: &Headers) -> (r: BodyKind)
    ensures
        r == framing(headers@),
{
    match headers.get("transfer-encoding") {
        Some(v) => {
            let chars = to_chars(v);
            let small = to_lower(chars.as_slice());
            let word = to_chars("chunked");
            if has_text(small.as_slice(), word.as_slice()) {
                return BodyKind::Chunked;
            }
        },
        None => {},
    }
    match headers.get("content-length") {
        Some(v) => {
            let chars = to_chars(v);
            match parse_number(chars.as_slice(), 10, u64::MAX) {
                Some(n) => BodyKind::Length(n),
                None => BodyKind::ToClose,
            }
        },
        None => BodyKind::ToClose,
    }
}

/// What a control line of a chunked body comes to.
#[verifier::ext_equal]
pub enum ControlView {
    /// It has not arrived in full.
    Wait,
    /// It cannot be read; it takes up this many bytes.
    Fail((FaultKind, Seq<char>), int),
    /// It says this, and takes up this many bytes.
    Line(Seq<char>, int),
}

/// The control line at the front of `buf`.
pub open spec fn control_line(buf: Seq<u8>, eof: bool) -> ControlView {
    match line_len(buf, eof) {
        None => ControlView::Wait,
        Some(n) => if !valid_utf8(buf.take(n)) {
            ControlView::Fail(not_utf8(), n)
        } else if n == 0 {
            ControlView::Fail((FaultKind::UnexpectedEof, "chunked body ended mid-stream"@), 0)
        } else {
            ControlView::Line(trim_newlines(decode_utf8(buf.take(n))), n)
        },
    }
}

/// How many bytes the trailers of a chunked body take up: the lines up to and
/// with the first that is empty or cannot be read.
pub open spec fn trailers_len(buf: Seq<u8>, eof: bool) -> Option<int>
    decreases buf.len(),
    via trailers_shrink
{
    match control_line(buf, eof) {
        ControlView::Wait => None,
        ControlView::Fail(_, n) => Some(n),
        ControlView::Line(text, n) => if text.len() == 0 {
            Some(n)
        } else {
            match trailers_len(buf.skip(n), eof) {
                Some(m) => Some(n + m),
                None => None,
            }
        },
    }
}

#[via_fn]
proof fn trailers_shrink(buf: Seq<u8>, eof: bool) {
    lemma_line_feed(buf);
}

/// What the head of a chunk comes to.
#[verifier::ext_equal]
pub enum ChunkView {
    /// It has not arrived in full.
    Wait,
    /// It announces the end of the body, and its trailers have not arrived in
    /// full.
    Trailers,
    /// It cannot be read; it takes up this many bytes.
    Fail((FaultKind, Seq<char>), int),
    /// A chunk of this many bytes follows; the head takes up this many.
    Size(nat, int),
    /// The body ends here, trailers and all, after this many bytes.
    Last(int),
}

/// The text that a size line gives the size by: chunk extensions follow a ';'
/// and are ignored.
pub open spec fn size_text(line: Seq<char>) -> Seq<char> {
    match split_once(line, ';') {
        Some((size, _)) => trim(size),
        None => trim(line),
    }
}

/// What the size line `line` announces, where it ends `used` bytes into `buf`.
pub open spec fn sized(line: Seq<char>, buf: Seq<u8>, used: int, eof: bool) -> ChunkView {
    let hex = size_text(line);
    match number(hex, 16, u64::MAX as nat) {
        None => ChunkView::Fail(
            (FaultKind::InvalidInput, "malformed chunk size "@ + debug_text(hex)),
            used,
        ),
        Some(size) => if size > 0 {
            ChunkView::Size(size, used)
        } else {
            match trailers_len(buf.skip(used), eof) {
                Some(n) => ChunkView::Last(used + n),
                None => ChunkView::Trailers,
            }
        },
    }
}

/// The chunk head at the front of `buf`. Every chunk after the first is preceded
/// by a bare line end.
pub open spec fn chunk_head(buf: Seq<u8>, eof: bool) -> ChunkView {
    match control_line(buf, eof) {
        ControlView::Wait => ChunkView::Wait,
        ControlView::Fail(f, n) => ChunkView::Fail(f, n),
        ControlView::Line(first, n) => if first.len() > 0 {
            sized(first, buf, n, eof)
        } else {
            match control_line(buf.skip(n), eof) {
                ControlView::Wait => ChunkView::Wait,
                ControlView::Fail(f, m) => ChunkView::Fail(f, n + m),
                ControlView::Line(second, m) => sized(second, buf, n + m, eof),
            }
        },
    }
}

/// A control line.
enum Control {
    Wait,
    Fail(Fault, usize),
    Line(Vec<char>, usize),
}

impl View for Control {
    type V = ControlView;

    closed spec fn view(&self) -> ControlView {
        match self {
            Control::Wait => ControlView::Wait,
            Control::Fail(f, n) => ControlView::Fail(f@, *n as int),
            Control::Line(text, n) => ControlView::Line(text@, *n as int),
        }
    }
}

/// A chunk head.
enum Chunk {
    Wait,
    Trailers,
    Fail(Fault, usize),
    Size(u64, usize),
    Last(usize),
}

impl View for Chunk {
    type V = ChunkView;

    closed spec fn view(&self) -> ChunkView {
        match self {
            Chunk::Wait => ChunkView::Wait,
            Chunk::Trailers => ChunkView::Trailers,
            Chunk::Fail(f, n) => ChunkView::Fail(f@, *n as int),
            Chunk::Size(size, n) => ChunkView::Size(*size as nat, *n as int),
            Chunk::Last(n) => ChunkView::Last(*n as int),
        }
    }
}

/// Reads the control line at the front of `buf`.
fn read_line(buf: &[u8], eof: bool) -> (r: Control)
    ensures
        r@ == control_line(buf@, eof),
        match r {
            Control::Wait => true,
            Control::Fail(_, n) => n <= buf.len(),
            Control::Line(_, n) => 0 < n <= buf.len(),
        },
{
    let n: usize = match measure_line(buf, eof) {
        None => return Control::Wait,
        Some(n) => n,
    };
    assert(buf@.subrange(0, n as int) == buf@.take(n as int));
    match text_from_utf8(slice_subrange(buf, 0, n)) {
        None => Control::Fail(garbled(), n),
        Some(text) => if n == 0 {
            Control::Fail(cut_short("chunked body ended mid-stream"), 0)
        } else {
            let chars = to_chars(text);
            let line = without_newlines(chars.as_slice());
            Control::Line(slice_to_vec(line), n)
        },
    }
}

/// Measures the trailers at the front of `buf`.
fn skip_trailers(buf: &[u8], eof: bool) -> (r: Option<usize>)
    ensures
        match r {
            Some(n) => n <= buf.len() && trailers_len(buf@, eof) == Some(n as int),
            None => trailers_len(buf@, eof) is None,
        },
{
    let mut used: usize = 0;
    assert(buf@.skip(0) == buf@);
    loop
        invariant
            used <= buf.len(),
            match trailers_len(buf@.skip(used as int), eof) {
                Some(m) => trailers_len(buf@, eof) == Some(used + m),
                None => trailers_len(buf@, eof) is None,
            },
        decreases buf.len() - used,
    {
        let ghost rest = buf@.skip(used as int);
        let tail = slice_subrange(buf, used, buf.len());
        assert(tail@ == rest);
        match read_line(tail, eof) {
            Control::Wait => return None,
            Control::Fail(_, n) => return Some(used + n),
            Control::Line(text, n) => {
                if text.len() == 0 {
                    return Some(used + n);
                }
                assert(rest.skip(n as int) == buf@.skip(used + n));
                used = used + n;
            },
        }
    }
}

/// Reads what the size line `line` announces, where it ends `used` bytes into
/// `buf`.
fn read_size(line: &[char], buf: &[u8], used: usize, eof: bool) -> (r: Chunk)
    requires
        used <= buf.len(),
    ensures
        r@ == sized(line@, buf@, used as int, eof),
        match r {
            Chunk::Wait => true,
            Chunk::Trailers => true,
            Chunk::Fail(_, n) => n <= buf.len(),
            Chunk::Size(_, n) => n <= buf.len(),
            Chunk::Last(n) => n <= buf.len(),
        },
{
    let end: usize = match find(line, ';') {
        Some(i) => i,
        None => line.len(),
    };
    assert(line@.subrange(0, end as int) == line@.take(end as int));
    assert(line@.take(line@.len() as int) == line@);
    let hex = trimmed(slice_subrange(line, 0, end));
    match parse_number(hex, 16, u64::MAX) {
        None => {
            let text = to_text(hex);
            let shown = quoted(text.as_str());
            Chunk::Fail(bad(about("malformed chunk size ", shown.as_str())), used)
        },
        Some(size) => {
            if size > 0 {
                return Chunk::Size(size, used);
            }
            assert(buf@.subrange(used as int, buf@.len() as int) == buf@.skip(used as int));
            match skip_trailers(slice_subrange(buf, used, buf.len()), eof) {
                Some(n) => Chunk::Last(used + n),
                None => Chunk::Trailers,
            }
        },
    }
}

/// Reads the chunk head at the front of `buf`.
fn read_chunk_head(buf: &[u8], eof: bool) -> (r: Chunk)
    ensures
        r@ == chunk_head(buf@, eof),
        match r {
            Chunk::Wait => true,
            Chunk::Trailers => true,
            Chunk::Fail(_, n) => n <= buf.len(),
            Chunk::Size(_, n) => n <= buf.len(),
            Chunk::Last(n) => n <= buf.len(),
        },
{
    match read_line(buf, eof) {
        Control::Wait => Chunk::Wait,
        Control::Fail(f, n) => Chunk::Fail(f, n),
        Control::Line(first, n) => {
            if first.len() > 0 {
                return read_size(first.as_slice(), buf, n, eof);
            }
            assert(buf@.subrange(n as int, buf@.len() as int) == buf@.skip(n as int));
            match read_line(slice_subrange(buf, n, buf.len()), eof) {
                Control::Wait => Chunk::Wait,
                Control::Fail(f, m) => Chunk::Fail(f, n + m),
                Control::Line(second, m) => read_size(second.as_slice(), buf, n + m, eof),
            }
        },
    }
}

/// A response body, and what of it has arrived and was not read yet.
#[derive(Debug)]
pub struct Body {
    kind: BodyKind,
    left: u64,
    done: bool,
    rest: Bytes,
    eof: bool,
}

/// What a `Body` holds.
#[verifier::ext_equal]
pub struct BodyView {
    pub kind: BodyKind,
    /// How much is still owed of a body of known length, or of this chunk.
    pub left: nat,
    /// Whether the body has been read to its end, or to where it broke off.
    pub done: bool,
    /// What has arrived and was not read.
    pub rest: Seq<u8>,
    /// Whether nothing more will arrive.
    pub eof: bool,
}

/// What a read gives.
#[derive(Debug)]
pub enum BodyRead {
    /// Some of the body, at least one byte.
    Data(Bytes),
    /// The body is at its end.
    End,
    /// More has to arrive first.
    Wait,
    /// The body is broken.
    Fail(Fault),
}

/// What a `BodyRead` says.
#[verifier::ext_equal]
pub enum BodyReadView {
    Data(Seq<u8>),
    End,
    Wait,
    Fail((FaultKind, Seq<char>)),
}

impl View for BodyRead {
    type V = BodyReadView;

    open spec fn view(&self) -> BodyReadView {
        match self {
            BodyRead::Data(d) => BodyReadView::Data(octets(*d)),
            BodyRead::End => BodyReadView::End,
            BodyRead::Wait => BodyReadView::Wait,
            BodyRead::Fail(f) => BodyReadView::Fail(f@),
        }
    }
}

impl BodyView {
    /// A body of which nothing has been read.
    pub open spec fn fresh(kind: BodyKind, rest: Seq<u8>, eof: bool) -> BodyView {
        BodyView {
            kind,
            left: match kind {
                BodyKind::Length(n) => n as nat,
                _ => 0,
            },
            done: false,
            rest,
            eof,
        }
    }

    /// The body after more of it has arrived.
    pub open spec fn fed(self, more: Seq<u8>) -> BodyView {
        BodyView { rest: self.rest + more, ..self }
    }

    /// The body when nothing more will arrive.
    pub open spec fn closed(self) -> BodyView {
        BodyView { eof: true, ..self }
    }

    /// Up to `limit` of the bytes that have arrived, handed out as they are.
    pub open spec fn take(self, limit: nat, owed: bool) -> (BodyView, BodyReadView) {
        let n = if limit < self.rest.len() {
            limit
        } else {
            self.rest.len()
        };
        (
            BodyView {
                left: if owed {
                    (self.left - n) as nat
                } else {
                    self.left
                },
                rest: self.rest.skip(n as int),
                ..self
            },
            BodyReadView::Data(self.rest.take(n as int)),
        )
    }

    /// Whether all that is missing are the trailers of a chunked body.
    pub open spec fn in_trailers(self) -> bool {
        &&& !self.done
        &&& self.kind is Chunked
        &&& self.left == 0
        &&& chunk_head(self.rest, self.eof) is Trailers
    }

    /// The body once no more of it can be had, and whether that breaks it. Among
    /// the trailers it does not: the body has come in full.
    pub open spec fn cut_off(self) -> (BodyView, bool) {
        if self.in_trailers() {
            (BodyView { done: true, ..self }, false)
        } else {
            (self, true)
        }
    }

    /// A read of up to `cap` bytes of the `left` that are owed.
    pub open spec fn read_owed(self, cap: nat, shortfall: Seq<char>) -> (BodyView, BodyReadView) {
        if self.rest.len() > 0 {
            self.take(
                if cap < self.left {
                    cap
                } else {
                    self.left
                },
                true,
            )
        } else if self.eof {
            (
                BodyView { done: true, ..self },
                BodyReadView::Fail((FaultKind::UnexpectedEof, shortfall)),
            )
        } else {
            (self, BodyReadView::Wait)
        }
    }

    /// A read of up to `cap` bytes: the body afterwards, and what is read.
    pub open spec fn read(self, cap: nat) -> (BodyView, BodyReadView) {
        if self.done || cap == 0 {
            (self, BodyReadView::End)
        } else {
            match self.kind {
                BodyKind::ToClose => if self.rest.len() > 0 {
                    self.take(cap, false)
                } else if self.eof {
                    (self, BodyReadView::End)
                } else {
                    (self, BodyReadView::Wait)
                },
                BodyKind::Length(_) => if self.left == 0 {
                    (BodyView { done: true, ..self }, BodyReadView::End)
                } else {
                    self.read_owed(cap, "body shorter than content-length"@)
                },
                BodyKind::Chunked => if self.left > 0 {
                    self.read_owed(cap, "chunk shorter than declared"@)
                } else {
                    match chunk_head(self.rest, self.eof) {
                        ChunkView::Wait => (self, BodyReadView::Wait),
                        ChunkView::Trailers => (self, BodyReadView::Wait),
                        ChunkView::Fail(f, n) => (
                            BodyView { rest: self.rest.skip(n), ..self },
                            BodyReadView::Fail(f),
                        ),
                        ChunkView::Last(n) => (
                            BodyView { done: true, rest: self.rest.skip(n), ..self },
                            BodyReadView::End,
                        ),
                        ChunkView::Size(size, n) => BodyView {
                            left: size,
                            rest: self.rest.skip(n),
                            ..self
                        }.read_owed(cap, "chunk shorter than declared"@),
                    }
                },
            }
        }
    }
}

impl View for Body {
    type V = BodyView;

    closed spec fn view(&self) -> BodyView {
        BodyView {
            kind: self.kind,
            left: self.left as nat,
            done: self.done,
            rest: octets(self.rest),
            eof: self.eof,
        }
    }
}

impl Body {
    /// A body that `kind` delimits, of which `rest` has arrived.
    pub fn new(kind: BodyKind, rest: Bytes) -> (b: Self)
        ensures
            b@ == BodyView::fresh(kind, octets(rest), false),
    {
        Body {
            kind,
            left: match kind {
                BodyKind::Length(n) => n,
                _ => 0,
            },
            done: false,
            rest,
            eof: false,
        }
    }

    /// A chunked body of which `rest` has arrived.
    pub fn chunked(rest: Bytes) -> (b: Self)
        ensures
            b@ == BodyView::fresh(BodyKind::Chunked, octets(rest), false),
    {
        Body::new(BodyKind::Chunked, rest)
    }

    /// How much has arrived and was not read.
    pub fn buffered(&self) -> (n: usize)
        ensures
            n == self@.rest.len(),
    {
        self.rest.len()
    }

    /// Takes in what has arrived.
    pub fn feed(&mut self, more: Bytes)
        requires
            old(self)@.rest.len() + octets(more).len() <= usize::MAX,
        ensures
            final(self)@ == old(self)@.fed(octets(more)),
    {
        if self.rest.is_empty() {
            assert(octets(self.rest) + octets(more) == octets(more));
            self.rest = more;
        } else {
            let mut joined: Vec<u8> = Vec::new();
            joined.extend_from_slice(as_slice(&self.rest));
            joined.extend_from_slice(as_slice(&more));
            assert(joined@ == octets(self.rest) + octets(more));
            self.rest = from_vec(joined);
        }
    }

    /// Notes that nothing more will arrive.
    pub fn close(&mut self)
        ensures
            final(self)@ == old(self)@.closed(),
    {
        self.eof = true;
    }

    /// Notes that no more can be had, for want of a connection, and tells whether
    /// the body is broken by that.
    pub fn cut_off(&mut self) -> (broken: bool)
        ensures
            (final(self)@, broken) == old(self)@.cut_off(),
    {
        if self.done || self.left > 0 {
            return true;
        }
        match self.kind {
            BodyKind::Chunked => match read_chunk_head(as_slice(&self.rest), self.eof) {
                Chunk::Trailers => {
                    self.done = true;
                    false
                },
                _ => true,
            },
            _ => true,
        }
    }

    /// Hands out up to `limit` of what has arrived.
    fn hand_out(&mut self, limit: usize) -> (d: Bytes)
        ensures
            (final(self)@, BodyReadView::Data(octets(d))) == old(self)@.take(limit as nat, false),
    {
        let n: usize = if limit < self.rest.len() {
            limit
        } else {
            self.rest.len()
        };
        let ghost all = octets(self.rest);
        let d = slice(&self.rest, 0, n);
        self.rest = slice(&self.rest, n, self.rest.len());
        assert(all.subrange(0, n as int) == all.take(n as int));
        assert(all.subrange(n as int, all.len() as int) == all.skip(n as int));
        d
    }

    /// Reads up to `cap` bytes of those that are owed.
    fn read_owed(&mut self, cap: usize, shortfall: &str) -> (r: BodyRead)
        requires
            cap > 0,
            old(self)@.left > 0,
        ensures
            (final(self)@, r@) == old(self)@.read_owed(cap as nat, shortfall@),
    {
        if self.rest.is_empty() {
            if self.eof {
                self.done = true;
                return BodyRead::Fail(cut_short(shortfall));
            }
            return BodyRead::Wait;
        }
        let limit: usize = if (cap as u64) < self.left {
            cap
        } else {
            self.left as usize
        };
        let d = self.hand_out(limit);
        let n: usize = d.len();
        self.left = self.left - n as u64;
        BodyRead::Data(d)
    }

    /// Reads up to `cap` bytes.
    pub fn read(&mut self, cap: usize) -> (r: BodyRead)
        ensures
            (final(self)@, r@) == old(self)@.read(cap as nat),
    {
        if self.done || cap == 0 {
            return BodyRead::End;
        }
        match self.kind {
            BodyKind::ToClose => {
                if self.rest.is_empty() {
                    if self.eof {
                        return BodyRead::End;
                    }
                    return BodyRead::Wait;
                }
                BodyRead::Data(self.hand_out(cap))
            },
            BodyKind::Length(_) => {
                if self.left == 0 {
                    self.done = true;
                    return BodyRead::End;
                }
                self.read_owed(cap, "body shorter than content-length")
            },
            BodyKind::Chunked => {
                if self.left == 0 {
                    let ghost all = octets(self.rest);
                    match read_chunk_head(as_slice(&self.rest), self.eof) {
                        Chunk::Wait => return BodyRead::Wait,
                        Chunk::Trailers => return BodyRead::Wait,
                        Chunk::Fail(f, n) => {
                            assert(all.subrange(n as int, all.len() as int) == all.skip(n as int));
                            self.rest = slice(&self.rest, n, self.rest.len());
                            return BodyRead::Fail(f);
                        },
                        Chunk::Last(n) => {
                            assert(all.subrange(n as int, all.len() as int) == all.skip(n as int));
                            self.rest = slice(&self.rest, n, self.rest.len());
                            self.done = true;
                            return BodyRead::End;
                        },
                        Chunk::Size(size, n) => {
                            assert(all.subrange(n as int, all.len() as int) == all.skip(n as int));
                            self.rest = slice(&self.rest, n, self.rest.len());
                            self.left = size;
                        },
                    }
                }
                self.read_owed(cap, "chunk shorter than declared")
            },
        }
    }
}

// ---------------------------------------------------------------------------
// Requests and answers
// ---------------------------------------------------------------------------

/// Where a URL leads, without its target.
pub open spec fn origin(u: UrlView) -> Seq<char> {
    "http://"@ + u.host + ":"@ + numeral(u.port, 10)
}

/// The request for a URL.
pub open spec fn request(u: UrlView) -> Seq<char> {
    "GET "@ + u.target + " HTTP/1.1\r\nHost: "@ + u.host + ":"@ + numeral(u.port, 10)
        + "\r\nUser-Agent: rust-acestream-proxy\r\nConnection: close\r\nAccept: */*\r\n\r\n"@
}

/// Whether a status asks for another URL to be requested.
pub open spec fn redirects(status: nat) -> bool {
    status == 301 || status == 302 || status == 303 || status == 307 || status == 308
}

/// The URL that a response with this head sends the request on to. Only the
/// first request (`hop` 0) is sent on.
pub open spec fn redirection(u: UrlView, hop: nat, head: HeadView) -> Option<Seq<char>> {
    if redirects(head.status) && hop == 0 && head.headers.contains_key("location"@) {
        let location = head.headers["location"@];
        if "http://"@.is_prefix_of(location) {
            Some(location)
        } else {
            Some(origin(u) + location)
        }
    } else {
        None
    }
}

/// A response whose head has been read.
#[derive(Debug)]
pub struct Response {
    pub status: u16,
    pub body: Body,
}

/// What there is of the answer to a request.
#[derive(Debug)]
pub enum Answer {
    /// The head has not arrived in full.
    More,
    /// It cannot be read.
    Fail(Fault),
    /// The request goes on to this URL.
    Redirect(String),
    /// This is the response.
    Done(Response),
}

/// What an `Answer` says.
#[verifier::ext_equal]
pub enum AnswerView {
    More,
    Fail((FaultKind, Seq<char>)),
    Redirect(Seq<char>),
    Done(nat, BodyView),
}

impl View for Answer {
    type V = AnswerView;

    open spec fn view(&self) -> AnswerView {
        match self {
            Answer::More => AnswerView::More,
            Answer::Fail(f) => AnswerView::Fail(f@),
            Answer::Redirect(url) => AnswerView::Redirect(url@),
            Answer::Done(r) => AnswerView::Done(r.status as nat, r.body@),
        }
    }
}

/// What `input`, all that has arrived in answer to the request for `u`, comes
/// to.
pub open spec fn answer(u: UrlView, hop: nat, input: Seq<u8>, eof: bool) -> AnswerView {
    match head_of(input, eof) {
        HeadReadView::More => AnswerView::More,
        HeadReadView::Fail(f) => AnswerView::Fail(f),
        HeadReadView::Done { head, used } => match redirection(u, hop, head) {
            Some(url) => AnswerView::Redirect(url),
            None => AnswerView::Done(
                head.status,
                BodyView::fresh(framing(head.headers), input.skip(used as int), eof),
            ),
        },
    }
}

/// Appends `http://host:port`.
fn push_origin(out: &mut String, u: &Url)
    ensures
        final(out)@ == old(out)@ + origin(u@),
{
    out.append("http://");
    out.append(u.host.as_str());
    out.append(":");
    push_numeral(out, u.port as u128, 10);
    assert(out@ == old(out)@ + origin(u@));
}

/// The text of the request for `u`.
pub fn request_text(u: &Url) -> (s: String)
    ensures
        s@ == request(u@),
{
    let mut s = "GET ".to_owned();
    s.append(u.target.as_str());
    s.append(" HTTP/1.1\r\nHost: ");
    s.append(u.host.as_str());
    s.append(":");
    push_numeral(&mut s, u.port as u128, 10);
    s.append("\r\nUser-Agent: rust-acestream-proxy\r\nConnection: close\r\nAccept: */*\r\n\r\n");
    s
}

/// Where a response with this head sends the request for `u` on to.
pub fn redirect(u: &Url, hop: u64, head: &Head) -> (r: Option<String>)
    ensures
        text_of(r) == redirection(u@, hop as nat, head@),
{
    let s: u16 = head.status;
    if !(s == 301 || s == 302 || s == 303 || s == 307 || s == 308) || hop != 0 {
        return None;
    }
    match head.headers.get("location") {
        None => None,
        Some(location) => {
            let chars = to_chars(location);
            let scheme = to_chars("http://");
            if starts_with(chars.as_slice(), scheme.as_slice()) {
                return Some(location.to_owned());
            }
            let mut url = String::new();
            push_origin(&mut url, u);
            url.append(location);
            assert(url@ == origin(u@) + location@);
            Some(url)
        },
    }
}

/// One request of a GET, which follows at most one redirect: what is to be done
/// with `input`, all that has arrived in answer to the request for `u`. `eof`
/// says that nothing more will arrive.
pub fn get(u: &Url, hop: u64, input: Bytes, eof: bool) -> (r: Answer)
    ensures
        r@ == answer(u@, hop as nat, octets(input), eof),
{
    match read_head(as_slice(&input), eof) {
        HeadRead::More => Answer::More,
        HeadRead::Fail(f) => Answer::Fail(f),
        HeadRead::Done { head, used } => {
            proof {
                lemma_head_used(octets(input), eof);
            }
            match redirect(u, hop, &head) {
                Some(url) => Answer::Redirect(url),
                None => {
                    let ghost all = octets(input);
                    assert(all.subrange(used as int, all.len() as int) == all.skip(used as int));
                    let kind = body_kind(&head.headers);
                    let mut body = Body::new(kind, slice(&input, used, input.len()));
                    if eof {
                        body.close();
                    }
                    Answer::Done(Response { status: head.status, body })
                },
            }
        },
    }
}

/// A head takes up no more than has arrived.
proof fn lemma_head_used(buf: Seq<u8>, eof: bool)
    ensures
        match head_of(buf, eof) {
            HeadReadView::Done { head, used } => used <= buf.len(),
            _ => true,
        },
{
    lemma_line_feed(buf);
    if let Some(n) = line_len(buf, eof) {
        if let Some(status) = status_of(decode_utf8(buf.take(n))) {
            lemma_header_lines_used(buf.skip(n), eof, n as nat, status, Map::empty());
        }
    }
}

proof fn lemma_header_lines_used(
    buf: Seq<u8>,
    eof: bool,
    used: nat,
    status: nat,
    headers: Map<Seq<char>, Seq<char>>,
)
    ensures
        match header_lines(buf, eof, used, status, headers) {
            HeadReadView::Done { head, used: end } => end <= used + buf.len(),
            _ => true,
        },
    decreases buf.len(),
{
    lemma_line_feed(buf);
    if let Some(n) = line_len(buf, eof) {
        if n > 0 {
            lemma_header_lines_used(
                buf.skip(n),
                eof,
                (used + n) as nat,
                status,
                with_field(headers, trim_newlines(decode_utf8(buf.take(n)))),
            );
        }
    }
}

// ---------------------------------------------------------------------------
// Text bodies
// ---------------------------------------------------------------------------

/// The most that is read of a text, in bytes: a control endpoint that returns a
/// stream would otherwise be read for ever.
pub const TEXT_LIMIT: usize = 1048576;

/// Where reading a body to its end got to.
#[verifier::ext_equal]
pub enum DrainView {
    /// The end, or the limit.
    End,
    /// What has arrived was not enough.
    Wait,
    /// The body is broken.
    Fail((FaultKind, Seq<char>)),
}

impl BodyView {
    /// Reading on until the body ends or `limit` bytes are read: the body
    /// afterwards, what is read, and where that got to.
    pub open spec fn drain(self, limit: nat) -> (BodyView, Seq<u8>, DrainView)
        decreases limit,
        via Self::drain_shrinks
    {
        if limit == 0 {
            (self, Seq::empty(), DrainView::End)
        } else {
            let (after, read) = self.read(limit);
            match read {
                BodyReadView::Data(d) => {
                    let (end, more, how) = after.drain((limit - d.len()) as nat);
                    (end, d + more, how)
                },
                BodyReadView::End => (after, Seq::empty(), DrainView::End),
                BodyReadView::Wait => (after, Seq::empty(), DrainView::Wait),
                BodyReadView::Fail(f) => (after, Seq::empty(), DrainView::Fail(f)),
            }
        }
    }

    #[via_fn]
    proof fn drain_shrinks(self, limit: nat) {
        lemma_read_size(self, limit);
    }
}

/// A read gives at least one byte and no more than was asked for.
pub proof fn lemma_read_size(b: BodyView, cap: nat)
    ensures
        b.read(cap).1 matches BodyReadView::Data(d) ==> 0 < d.len() <= cap,
{
    if b.kind == BodyKind::Chunked && b.left == 0 {
        lemma_chunk_head(b.rest, b.eof);
    }
}

/// A chunk head takes up no more than has arrived, and announces a chunk only
/// where that is not empty.
pub proof fn lemma_chunk_head(buf: Seq<u8>, eof: bool)
    ensures
        match chunk_head(buf, eof) {
            ChunkView::Size(size, n) => 0 < size && 0 < n <= buf.len(),
            ChunkView::Fail(_, n) => 0 <= n <= buf.len(),
            ChunkView::Last(n) => 0 < n <= buf.len(),
            ChunkView::Wait => true,
            ChunkView::Trailers => true,
        },
{
    lemma_line_feed(buf);
    match control_line(buf, eof) {
        ControlView::Line(first, n) => {
            lemma_line_feed(buf.skip(n));
            lemma_trailers(buf.skip(n), eof);
            match control_line(buf.skip(n), eof) {
                ControlView::Line(second, m) => lemma_trailers(buf.skip(n + m), eof),
                _ => {},
            }
        },
        _ => {},
    }
}

proof fn lemma_trailers(buf: Seq<u8>, eof: bool)
    ensures
        trailers_len(buf, eof) matches Some(n) ==> 0 <= n <= buf.len(),
    decreases buf.len(),
{
    lemma_line_feed(buf);
    match control_line(buf, eof) {
        ControlView::Line(text, n) => lemma_trailers(buf.skip(n), eof),
        _ => {},
    }
}

/// Where reading a body to its end got to.
enum Drained {
    End,
    Wait,
    Fail(Fault),
}

impl View for Drained {
    type V = DrainView;

    closed spec fn view(&self) -> DrainView {
        match self {
            Drained::End => DrainView::End,
            Drained::Wait => DrainView::Wait,
            Drained::Fail(f) => DrainView::Fail(f@),
        }
    }
}

impl Body {
    /// Reads on until the body ends or `limit` bytes are read.
    fn drain(&mut self, limit: usize, out: &mut Vec<u8>) -> (r: Drained)
        ensures
            ({
                let (end, read, how) = old(self)@.drain(limit as nat);
                final(self)@ == end && final(out)@ == old(out)@ + read && r@ == how
            }),
            final(out).len() <= old(out).len() + limit,
    {
        let ghost start = self@;
        let mut left: usize = limit;
        let ghost mut got = Seq::<u8>::empty();
        assert(out@ == old(out)@ + got);
        assert(got + start.drain(limit as nat).1 == start.drain(limit as nat).1);
        while left > 0
            invariant
                start == old(self)@,
                out@ == old(out)@ + got,
                got.len() == limit - left,
                left <= limit,
                ({
                    let (end, read, how) = start.drain(limit as nat);
                    let (end2, read2, how2) = self@.drain(left as nat);
                    end == end2 && read == got + read2 && how == how2
                }),
            decreases left,
        {
            proof {
                lemma_read_size(self@, left as nat);
            }
            let ghost more = self@.drain(left as nat).1;
            match self.read(left) {
                BodyRead::Data(d) => {
                    let ghost rest = self@.drain((left - octets(d).len()) as nat).1;
                    out.extend_from_slice(as_slice(&d));
                    proof {
                        assert(more == octets(d) + rest);
                        assert(got + more == (got + octets(d)) + rest);
                        got = got + octets(d);
                    }
                    left = left - d.len();
                },
                BodyRead::End => {
                    assert(got + more == got);
                    return Drained::End;
                },
                BodyRead::Wait => {
                    assert(got + more == got);
                    return Drained::Wait;
                },
                BodyRead::Fail(f) => {
                    assert(got + more == got);
                    return Drained::Fail(f);
                },
            }
        }
        assert(got + self@.drain(0).1 == got);
        Drained::End
    }
}

/// What a response with this status comes to as a text, where `got` has been
/// read of its body and reading on got to `how`.
pub open spec fn text_result(status: nat, got: Seq<u8>, how: DrainView) -> Option<
    Result<Seq<char>, Seq<char>>,
> {
    if status != 200 {
        Some(Err("http "@ + numeral(status, 10)))
    } else {
        match how {
            DrainView::Wait => None,
            DrainView::Fail(f) => Some(Err(f.1)),
            DrainView::End => if valid_utf8(got) {
                Some(Ok(decode_utf8(got)))
            } else {
                Some(Err(not_utf8().1))
            },
        }
    }
}

/// A result over texts.
pub open spec fn outcome(r: Option<Result<String, String>>) -> Option<
    Result<Seq<char>, Seq<char>>,
> {
    match r {
        None => None,
        Some(Ok(s)) => Some(Ok(s@)),
        Some(Err(e)) => Some(Err(e@)),
    }
}

/// Reads a small resource as a text: takes what has arrived of it into `got`,
/// and gives the text once it is complete.
pub fn get_text(response: &mut Response, got: &mut Vec<u8>) -> (r: Option<Result<String, String>>)
    requires
        old(got)@.len() <= TEXT_LIMIT,
    ensures
        final(response).status == old(response).status,
        final(got)@.len() <= TEXT_LIMIT,
        ({
            let limit = (TEXT_LIMIT - old(got)@.len()) as nat;
            let (end, read, how) = old(response).body@.drain(limit);
            if old(response).status == 200 {
                &&& final(response).body@ == end
                &&& final(got)@ == old(got)@ + read
                &&& outcome(r) == text_result(200, old(got)@ + read, how)
            } else {
                &&& final(response).body@ == old(response).body@
                &&& final(got)@ == old(got)@
                &&& outcome(r) == text_result(old(response).status as nat, old(got)@, how)
            }
        }),
{
    if response.status != 200 {
        let code = decimal(response.status as u64);
        return Some(Err(about("http ", code.as_str())));
    }
    let limit: usize = TEXT_LIMIT - got.len();
    match response.body.drain(limit, got) {
        Drained::Wait => None,
        Drained::Fail(f) => Some(Err(f.message)),
        Drained::End => match text_from_utf8(got.as_slice()) {
            Some(s) => Some(Ok(s.to_owned())),
            None => Some(Err("stream did not contain valid UTF-8".to_owned())),
        },
    }
}

} // verus!
