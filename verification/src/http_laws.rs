//! What holds of the HTTP exchange as a whole.

use vstd::prelude::*;
use vstd::utf8::{
    decode_utf8, encode_utf8, encode_utf8_decode_utf8, encode_utf8_valid_utf8, is_ascii_chars,
    is_ascii_chars_encode_utf8, valid_utf8,
};

use crate::http::{
    answer, chunk_head, control_line, head_of, header_lines, lemma_chunk_head, lemma_line_feed,
    lemma_read_size, line_feed, line_len, origin, size_text, sized, status_of, trailers_len, url_of,
    with_field, BodyKind, BodyReadView, BodyView, ChunkView, ControlView, DrainView, FaultKind,
    UrlView,
};
use crate::text::{
    index_of, is_digit, is_white, last_index_of, law_numerals_read_back, lemma_index_of,
    lemma_last_index_of, lemma_numeral_digits, lemma_numeral_front, lower, lowered, number, numeral,
    split_once, trim, trim_end, trim_newlines, trim_start,
};

verus! {

// ---------------------------------------------------------------------------
// URLs and redirects
// ---------------------------------------------------------------------------

/// A URL that is put together from a host, a port and a target reads back as
/// those three.
pub proof fn law_urls_read_back(u: UrlView)
    requires
        u.port <= 65535,
        !u.host.contains('/'),
        u.target.len() > 0,
        u.target[0] == '/',
    ensures
        url_of(origin(u) + u.target) == Ok::<UrlView, (FaultKind, Seq<char>)>(u),
{
    reveal_strlit("http://");
    reveal_strlit(":");
    let port = numeral(u.port, 10);
    lemma_numeral_digits(u.port, 10);
    law_numerals_read_back(u.port, 10, 65535);
    let authority = u.host + ":"@ + port;
    let s = origin(u) + u.target;
    let rest = s.skip(7);
    assert("http://"@.is_prefix_of(s)) by {
        assert(s.subrange(0, 7) == "http://"@);
    }
    assert(rest == authority + u.target);

    let k = authority.len() as int;
    assert forall|j: int| 0 <= j < k implies rest[j] != '/' by {
        if j < u.host.len() {
            assert(u.host.contains(u.host[j]));
        } else if j > u.host.len() {
            assert(is_digit(port[j - u.host.len() - 1]));
        }
    }
    lemma_index_of(rest, '/');
    assert(rest[k] == '/');
    assert(index_of(rest, '/') == Some(k));
    assert(rest.take(k) == authority);
    assert(rest.skip(k) == u.target);

    let c = u.host.len() as int;
    assert(authority[c] == ':');
    assert forall|j: int| c < j < k implies authority[j] != ':' by {
        assert(is_digit(port[j - c - 1]));
    }
    lemma_last_index_of(authority, ':');
    assert(last_index_of(authority, ':') == Some(c));
    assert(authority.take(c) == u.host);
    assert(authority.skip(c + 1) == port);
}

/// A request that was sent on once is not sent on again.
pub proof fn law_one_redirect(u: UrlView, hop: nat, input: Seq<u8>, eof: bool)
    requires
        hop > 0,
    ensures
        !(answer(u, hop, input, eof) is Redirect),
{
}

// ---------------------------------------------------------------------------
// Arrival in pieces
// ---------------------------------------------------------------------------

/// A line that is complete stays what it is when more arrives.
proof fn lemma_line_grows(buf: Seq<u8>, more: Seq<u8>, eof: bool)
    requires
        line_len(buf, false) is Some,
    ensures
        line_len(buf + more, eof) == line_len(buf, false),
        0 < line_len(buf, false)->0 <= buf.len(),
        (buf + more).take(line_len(buf, false)->0) == buf.take(line_len(buf, false)->0),
        (buf + more).skip(line_len(buf, false)->0) == buf.skip(line_len(buf, false)->0) + more,
{
    lemma_line_feed(buf);
    lemma_line_feed(buf + more);
    let i = line_feed(buf)->0;
    assert((buf + more)[i] == 10);
    assert forall|j: int| 0 <= j < i implies (buf + more)[j] != 10 by {
        assert((buf + more)[j] == buf[j]);
    }
    match line_feed(buf + more) {
        Some(k) => {
            if k < i {
                assert((buf + more)[k] == buf[k]);
            }
            assert(k == i);
        },
        None => {},
    }
}

proof fn lemma_header_lines_grow(
    buf: Seq<u8>,
    more: Seq<u8>,
    eof: bool,
    used: nat,
    status: nat,
    headers: Map<Seq<char>, Seq<char>>,
)
    requires
        !(header_lines(buf, false, used, status, headers) is More),
    ensures
        header_lines(buf + more, eof, used, status, headers) == header_lines(
            buf,
            false,
            used,
            status,
            headers,
        ),
    decreases buf.len(),
{
    lemma_line_grows(buf, more, eof);
    let n = line_len(buf, false)->0;
    let text = trim_newlines(decode_utf8(buf.take(n)));
    if valid_utf8(buf.take(n)) && text.len() > 0 && used + n <= crate::http::MAX_HEADER_BYTES {
        lemma_header_lines_grow(
            buf.skip(n),
            more,
            eof,
            (used + n) as nat,
            status,
            with_field(headers, text),
        );
    }
}

/// Once a head has been read, or found unreadable, whatever arrives after it
/// changes nothing.
pub proof fn law_heads_stand(buf: Seq<u8>, more: Seq<u8>, eof: bool)
    requires
        !(head_of(buf, false) is More),
    ensures
        head_of(buf + more, eof) == head_of(buf, false),
{
    lemma_line_grows(buf, more, eof);
    let n = line_len(buf, false)->0;
    let line = buf.take(n);
    if valid_utf8(line) {
        if let Some(status) = status_of(decode_utf8(line)) {
            lemma_header_lines_grow(buf.skip(n), more, eof, n as nat, status, Map::empty());
        }
    }
}

proof fn lemma_control_grows(buf: Seq<u8>, more: Seq<u8>)
    requires
        !(control_line(buf, false) is Wait),
    ensures
        control_line(buf + more, false) == control_line(buf, false),
        match control_line(buf, false) {
            ControlView::Fail(_, n) => 0 < n <= buf.len() && (buf + more).skip(n) == buf.skip(n)
                + more,
            ControlView::Line(_, n) => 0 < n <= buf.len() && (buf + more).skip(n) == buf.skip(n)
                + more,
            ControlView::Wait => true,
        },
{
    lemma_line_grows(buf, more, false);
}

proof fn lemma_trailers_grow(buf: Seq<u8>, more: Seq<u8>)
    requires
        trailers_len(buf, false) is Some,
    ensures
        trailers_len(buf + more, false) == trailers_len(buf, false),
    decreases buf.len(),
{
    lemma_control_grows(buf, more);
    match control_line(buf, false) {
        ControlView::Line(text, n) => if text.len() > 0 {
            lemma_trailers_grow(buf.skip(n), more);
        },
        _ => {},
    }
}

proof fn lemma_sized_grows(line: Seq<char>, buf: Seq<u8>, used: int, more: Seq<u8>)
    requires
        0 <= used <= buf.len(),
        !(sized(line, buf, used, false) is Trailers),
    ensures
        sized(line, buf + more, used, false) == sized(line, buf, used, false),
{
    assert((buf + more).skip(used) == buf.skip(used) + more);
    if number(size_text(line), 16, u64::MAX as nat) == Some(0nat) {
        lemma_trailers_grow(buf.skip(used), more);
    }
}

proof fn lemma_chunk_head_grows(buf: Seq<u8>, more: Seq<u8>)
    requires
        !(chunk_head(buf, false) is Wait),
        !(chunk_head(buf, false) is Trailers),
    ensures
        chunk_head(buf + more, false) == chunk_head(buf, false),
{
    lemma_control_grows(buf, more);
    match control_line(buf, false) {
        ControlView::Line(first, n) => if first.len() > 0 {
            lemma_sized_grows(first, buf, n, more);
        } else {
            lemma_control_grows(buf.skip(n), more);
            match control_line(buf.skip(n), false) {
                ControlView::Line(second, m) => lemma_sized_grows(second, buf, n + m, more),
                _ => {},
            }
        },
        _ => {},
    }
}

/// A connection that is lost among the trailers of a chunked body, while those are
/// waited for, ends that body and does not break it. Lost anywhere else, it breaks
/// it.
pub proof fn law_trailers_may_be_lost(b: BodyView, cap: nat)
    requires
        cap > 0,
    ensures
        b.cut_off().1 == !b.in_trailers(),
        b.in_trailers() ==> b.read(cap).1 == BodyReadView::Wait && b.cut_off().0.read(cap).1
            == BodyReadView::End,
        !b.in_trailers() ==> b.cut_off().0 == b,
{
}

/// What the rest of a drain gives, with `d` before it.
pub open spec fn before(d: Seq<u8>, r: (BodyView, Seq<u8>, DrainView)) -> (
    BodyView,
    Seq<u8>,
    DrainView,
) {
    (r.0, d + r.1, r.2)
}

/// How much a read will ask of the bytes that have arrived is of no consequence
/// for what is read in all: whatever `cap` a read is given, reading on gives the
/// rest.
pub proof fn law_reads_of_any_size(b: BodyView, cap: nat, limit: nat)
    requires
        0 < cap <= limit,
    ensures
        match b.read(cap) {
            (after, BodyReadView::Data(d)) => b.drain(limit) == before(
                d,
                after.drain((limit - d.len()) as nat),
            ),
            (after, BodyReadView::End) => b.drain(limit) == (
                after,
                Seq::<u8>::empty(),
                DrainView::End,
            ),
            (after, BodyReadView::Wait) => b.drain(limit) == (
                after,
                Seq::<u8>::empty(),
                DrainView::Wait,
            ),
            (after, BodyReadView::Fail(f)) => b.drain(limit) == (
                after,
                Seq::<u8>::empty(),
                DrainView::Fail(f),
            ),
        },
{
    lemma_read_size(b, cap);
    lemma_read_size(b, limit);
    if !b.done {
        match b.kind {
            BodyKind::ToClose => if b.rest.len() > 0 {
                lemma_take_in_two(b, cap, limit);
            },
            BodyKind::Length(_) => if b.left > 0 && b.rest.len() > 0 {
                lemma_owed_in_two(b, cap, limit);
            },
            BodyKind::Chunked => if b.left > 0 {
                if b.rest.len() > 0 {
                    lemma_owed_in_two(b, cap, limit);
                }
            } else {
                lemma_chunk_head(b.rest, b.eof);
                if let ChunkView::Size(size, n) = chunk_head(b.rest, b.eof) {
                    let c = BodyView { left: size, rest: b.rest.skip(n), ..b };
                    assert(b.read(cap) == c.read(cap));
                    assert(b.read(limit) == c.read(limit));
                    if c.rest.len() > 0 {
                        lemma_owed_in_two(c, cap, limit);
                    }
                }
            },
        }
    }
}

proof fn lemma_take_in_two(b: BodyView, cap: nat, limit: nat)
    requires
        0 < cap <= limit,
        !b.done,
        b.kind == BodyKind::ToClose,
        b.rest.len() > 0,
    ensures
        ({
            let (after, read) = b.read(cap);
            &&& read matches BodyReadView::Data(d)
            &&& b.drain(limit) == before(d, after.drain((limit - d.len()) as nat))
        }),
{
    let len = b.rest.len();
    let n = if cap < len {
        cap
    } else {
        len
    };
    let m = if limit < len {
        limit
    } else {
        len
    };
    let d = b.rest.take(n as int);
    let after = BodyView { rest: b.rest.skip(n as int), ..b };
    assert(b.read(cap) == (after, BodyReadView::Data(d)));
    let whole = b.rest.take(m as int);
    let end = BodyView { rest: b.rest.skip(m as int), ..b };
    assert(b.read(limit) == (end, BodyReadView::Data(whole)));
    if n == m {
    } else {
        assert(after.rest.len() == len - n);
        assert(after.rest.take(m - n) == b.rest.subrange(n as int, m as int));
        assert(after.rest.skip(m - n) == b.rest.skip(m as int));
        assert(whole == d + after.rest.take(m - n));
        assert(after.read((limit - n) as nat) == (
            end,
            BodyReadView::Data(after.rest.take(m - n)),
        ));
        let tail = end.drain((limit - m) as nat);
        assert(whole + tail.1 == d + (after.rest.take(m - n) + tail.1));
    }
}

proof fn lemma_owed_in_two(b: BodyView, cap: nat, limit: nat)
    requires
        0 < cap <= limit,
        !b.done,
        !(b.kind is ToClose),
        b.left > 0,
        b.rest.len() > 0,
    ensures
        ({
            let (after, read) = b.read(cap);
            &&& read matches BodyReadView::Data(d)
            &&& b.drain(limit) == before(d, after.drain((limit - d.len()) as nat))
        }),
{
    let len = b.rest.len();
    let n0 = if cap < b.left {
        cap
    } else {
        b.left
    };
    let n = if n0 < len {
        n0
    } else {
        len
    };
    let m0 = if limit < b.left {
        limit
    } else {
        b.left
    };
    let m = if m0 < len {
        m0
    } else {
        len
    };
    let d = b.rest.take(n as int);
    let after = BodyView { left: (b.left - n) as nat, rest: b.rest.skip(n as int), ..b };
    assert(b.read(cap) == (after, BodyReadView::Data(d)));
    let whole = b.rest.take(m as int);
    let end = BodyView { left: (b.left - m) as nat, rest: b.rest.skip(m as int), ..b };
    assert(b.read(limit) == (end, BodyReadView::Data(whole)));
    if n == m {
    } else {
        assert(after.rest.len() == len - n);
        assert(after.rest.take(m - n) == b.rest.subrange(n as int, m as int));
        assert(after.rest.skip(m - n) == b.rest.skip(m as int));
        assert(whole == d + after.rest.take(m - n));
        assert(after.read((limit - n) as nat) == (
            end,
            BodyReadView::Data(after.rest.take(m - n)),
        ));
        let tail = end.drain((limit - m) as nat);
        assert(whole + tail.1 == d + (after.rest.take(m - n) + tail.1));
    }
}

/// A read that finds nothing to give may have read a chunk head. Reading after
/// more has arrived is the same from either state.
proof fn lemma_wait_grows(b: BodyView, limit: nat, more: Seq<u8>)
    requires
        limit > 0,
        !b.eof,
        b.read(limit).1 is Wait,
    ensures
        b.fed(more).drain(limit) == b.read(limit).0.fed(more).drain(limit),
{
    if b.kind == BodyKind::Chunked && b.left == 0 {
        if let ChunkView::Size(size, n) = chunk_head(b.rest, b.eof) {
            lemma_chunk_head(b.rest, false);
            lemma_chunk_head_grows(b.rest, more);
            let c = BodyView { left: size, rest: b.rest.skip(n), ..b };
            assert((b.rest + more).skip(n) == b.rest.skip(n) + more);
            assert(b.fed(more).read(limit) == c.fed(more).read(limit));
        }
    }
}

/// A read that gives some bytes gives them also where more has arrived, and
/// perhaps others behind them.
proof fn lemma_data_grows(b: BodyView, limit: nat, more: Seq<u8>)
    requires
        limit > 0,
        !b.eof,
        b.read(limit).1 is Data,
    ensures
        ({
            let (after, read) = b.read(limit);
            let d = read->Data_0;
            &&& 0 < d.len() <= limit
            &&& b.fed(more).drain(limit) == before(
                d,
                after.fed(more).drain((limit - d.len()) as nat),
            )
        }),
    decreases
            if b.left == 0 {
                1int
            } else {
                0int
            },
{
    let (after, read) = b.read(limit);
    let d = read->Data_0;
    lemma_read_size(b, limit);
    if b.kind == BodyKind::Chunked && b.left == 0 {
        lemma_chunk_head(b.rest, false);
        lemma_chunk_head_grows(b.rest, more);
        if let ChunkView::Size(size, n) = chunk_head(b.rest, b.eof) {
            let c = BodyView { left: size, rest: b.rest.skip(n), ..b };
            assert((b.rest + more).skip(n) == b.rest.skip(n) + more);
            assert(b.read(limit) == c.read(limit));
            assert(b.fed(more).read(limit) == c.fed(more).read(limit));
            lemma_data_grows(c, limit, more);
        }
    } else {
        let k = d.len();
        law_reads_of_any_size(b.fed(more), k, limit);
        assert((b.rest + more).take(k as int) == b.rest.take(k as int));
        assert((b.rest + more).skip(k as int) == b.rest.skip(k as int) + more);
        assert(b.fed(more).read(k) == (after.fed(more), BodyReadView::Data(d)));
    }
}

/// It is of no consequence in what pieces a body arrives: what is read before
/// more of it arrives, and what is read after that, is what is read when it is
/// all there at once.
pub proof fn law_arrival_in_pieces(b: BodyView, limit: nat, more: Seq<u8>)
    requires
        !b.eof,
    ensures
        ({
            let (mid, d, how) = b.drain(limit);
            b.fed(more).drain(limit) == if how is Wait {
                before(d, mid.fed(more).drain((limit - d.len()) as nat))
            } else {
                (mid.fed(more), d, how)
            }
        }),
        b.drain(limit).1.len() <= limit,
    decreases limit,
{
    let none = Seq::<u8>::empty();
    if limit > 0 {
        let (after, read) = b.read(limit);
        match read {
            BodyReadView::Data(d) => {
                lemma_data_grows(b, limit, more);
                let left = (limit - d.len()) as nat;
                law_arrival_in_pieces(after, left, more);
                let (mid, e, how) = after.drain(left);
                assert(b.drain(limit) == (mid, d + e, how));
                if how is Wait {
                    let tail = mid.fed(more).drain((left - e.len()) as nat);
                    assert(left - e.len() == limit - (d + e).len());
                    assert(d + (e + tail.1) == (d + e) + tail.1);
                }
            },
            BodyReadView::Wait => {
                lemma_wait_grows(b, limit, more);
                let tail = after.fed(more).drain(limit);
                assert(none + tail.1 == tail.1);
            },
            _ => {
                if b.kind == BodyKind::Chunked && b.left == 0 && !b.done {
                    lemma_chunk_head(b.rest, false);
                    lemma_chunk_head_grows(b.rest, more);
                    match chunk_head(b.rest, false) {
                        ChunkView::Fail(_, n) => {
                            assert((b.rest + more).skip(n) == b.rest.skip(n) + more);
                        },
                        ChunkView::Last(n) => {
                            assert((b.rest + more).skip(n) == b.rest.skip(n) + more);
                        },
                        _ => {},
                    }
                }
            },
        }
    } else {
        assert(b.drain(0) == (b, none, DrainView::End));
    }
}

// ---------------------------------------------------------------------------
// Chunked bodies
// ---------------------------------------------------------------------------

/// The line that announces a chunk of this size.
pub open spec fn size_line(size: nat) -> Seq<u8> {
    encode_utf8(numeral(size, 16) + "\r\n"@)
}

/// A chunk: its size, its bytes, and a line end.
pub open spec fn chunk(data: Seq<u8>) -> Seq<u8> {
    size_line(data.len()) + data + encode_utf8("\r\n"@)
}

/// A chunked body that carries the pieces, each as a chunk of its own.
pub open spec fn chunks(pieces: Seq<Seq<u8>>) -> Seq<u8>
    decreases pieces.len(),
{
    if pieces.len() == 0 {
        encode_utf8("0\r\n"@) + encode_utf8("\r\n"@)
    } else {
        chunk(pieces[0]) + chunks(pieces.drop_first())
    }
}

/// The pieces, one behind the other.
pub open spec fn joined(pieces: Seq<Seq<u8>>) -> Seq<u8>
    decreases pieces.len(),
{
    if pieces.len() == 0 {
        Seq::empty()
    } else {
        pieces[0] + joined(pieces.drop_first())
    }
}

/// The first bytes of `s`, up to `n` of them.
pub open spec fn at_most(s: Seq<u8>, n: nat) -> Seq<u8> {
    if n < s.len() {
        s.take(n as int)
    } else {
        s
    }
}

/// A control line reads as what was written.
proof fn lemma_control_reads_back(text: Seq<char>, rest: Seq<u8>, eof: bool)
    requires
        is_ascii_chars(text),
        forall|i: int| 0 <= i < text.len() ==> text[i] != '\r' && #[trigger] text[i] != '\n',
    ensures
        control_line(encode_utf8(text + "\r\n"@) + rest, eof) == ControlView::Line(
            text,
            text.len() as int + 2,
        ),
        encode_utf8(text + "\r\n"@).len() == text.len() + 2,
        (encode_utf8(text + "\r\n"@) + rest).skip(text.len() as int + 2) == rest,
{
    reveal_strlit("\r\n");
    let line = text + "\r\n"@;
    let raw = encode_utf8(line);
    let buf = raw + rest;
    let k = text.len() as int;
    assert(is_ascii_chars(line)) by {
        assert forall|i: int| 0 <= i < line.len() implies '\0' <= #[trigger] line[i] <= '\u{7f}' by {
            if i < k {
                assert(line[i] == text[i]);
            }
        }
    }
    is_ascii_chars_encode_utf8(line);
    encode_utf8_valid_utf8(line);
    encode_utf8_decode_utf8(line);
    lemma_line_feed(buf);
    assert(line[k + 1] == '\n');
    assert(raw[k + 1] == 10);
    assert(buf[k + 1] == 10);
    assert forall|j: int| 0 <= j < k + 1 implies buf[j] != 10 by {
        assert(line[j] as u8 == raw[j]);
        if j < k {
            assert(line[j] == text[j]);
            assert(text[j] != '\n');
            let c = line[j];
            assert('\0' <= c <= '\u{7f}');
        } else {
            assert(line[j] == '\r');
        }
    }
    assert(line_feed(buf) == Some(k + 1));
    assert(buf.take(k + 2) == raw);
    assert(line.drop_last().drop_last() == text);
    assert(line.last() == '\n');
    assert(line.drop_last().last() == '\r');
    reveal_with_fuel(trim_newlines, 3);
    assert(trim_newlines(text) == text) by {
        if k > 0 {
            assert(text[k - 1] != '\r' && text[k - 1] != '\n');
        }
    }
    assert(buf.skip(k + 2) == rest);
}

/// The size that a chunk is announced with is read back.
proof fn lemma_size_reads_back(n: nat)
    requires
        n <= u64::MAX,
    ensures
        ({
            let text = numeral(n, 16);
            &&& is_ascii_chars(text)
            &&& forall|i: int|
                0 <= i < text.len() ==> text[i] != '\r' && #[trigger] text[i] != '\n'
            &&& text.len() > 0
            &&& size_text(text) == text
            &&& number(text, 16, u64::MAX as nat) == Some(n)
        }),
{
    let text = numeral(n, 16);
    lemma_numeral_digits(n, 16);
    law_numerals_read_back(n, 16, u64::MAX as nat);
    assert forall|i: int| 0 <= i < text.len() implies '\0' <= #[trigger] text[i] <= '\u{7f}' && text[i]
        != '\r' && text[i] != '\n' && text[i] != ';' && !is_white(text[i]) by {
        assert(is_digit(text[i]));
    }
    lemma_index_of(text, ';');
    assert(!is_white(text[0]));
    assert(trim_start(text) == text);
    assert(!is_white(text[text.len() - 1]));
    assert(trim_end(text) == text);
}

/// The line end that stands before every chunk but the first.
spec fn lead(led: bool) -> Seq<u8> {
    if led {
        encode_utf8("\r\n"@)
    } else {
        Seq::empty()
    }
}

/// A line end before a chunk head is read and passed over.
proof fn lemma_lead_reads_back(rest: Seq<u8>, led: bool, eof: bool)
    ensures
        led ==> control_line(lead(led) + rest, eof) == ControlView::Line(Seq::empty(), 2),
        (lead(led) + rest).skip(lead(led).len() as int) == rest,
        lead(led).len() == if led {
            2int
        } else {
            0
        },
{
    let none = Seq::<char>::empty();
    assert(none + "\r\n"@ == "\r\n"@);
    lemma_control_reads_back(none, rest, eof);
    assert((lead(led) + rest).skip(lead(led).len() as int) == rest);
}

/// The head of a chunk, with or without a line end before it.
proof fn lemma_chunk_head_reads_back(size: nat, after: Seq<u8>, led: bool, eof: bool)
    requires
        0 < size <= u64::MAX,
    ensures
        ({
            let buf = lead(led) + (size_line(size) + after);
            &&& chunk_head(buf, eof) == ChunkView::Size(
                size,
                (lead(led).len() + size_line(size).len()) as int,
            )
            &&& buf.skip((lead(led).len() + size_line(size).len()) as int) == after
        }),
{
    let text = numeral(size, 16);
    lemma_size_reads_back(size);
    lemma_control_reads_back(text, after, eof);
    let plain = size_line(size) + after;
    let buf = lead(led) + plain;
    lemma_lead_reads_back(plain, led, eof);
    assert(buf.skip((lead(led).len() + size_line(size).len()) as int) == after);
    if !led {
        assert(buf == plain);
    }
}

/// The end of a chunked body, with or without a line end before it.
proof fn lemma_last_chunk_reads_back(led: bool, eof: bool)
    ensures
        chunk_head(lead(led) + chunks(Seq::empty()), eof) is Last,
        chunks(Seq::empty()).len() == 5,
{
    let end = encode_utf8("\r\n"@);
    let none = Seq::<char>::empty();
    let nothing = Seq::<u8>::empty();
    let body = chunks(Seq::empty());
    reveal_strlit("0\r\n");
    reveal_strlit("\r\n");
    lemma_size_reads_back(0);
    assert(numeral(0, 16) == seq!['0']);
    assert("0\r\n"@ == numeral(0, 16) + "\r\n"@);
    assert(none + "\r\n"@ == "\r\n"@);
    lemma_control_reads_back(numeral(0, 16), end, eof);
    lemma_control_reads_back(none, nothing, eof);
    assert(end + nothing == end);
    assert(trailers_len(end, eof) == Some(2int));
    assert(chunk_head(body, eof) is Last);
    if led {
        lemma_control_reads_back(none, body, eof);
        assert((end + body).skip(5) == body.skip(3));
    } else {
        assert(nothing + body == body);
    }
}

/// A body as it stands once a chunk head is read.
proof fn lemma_head_read(b: BodyView, limit: nat)
    requires
        !b.done,
        b.kind is Chunked,
        b.left == 0,
        limit > 0,
    ensures
        match chunk_head(b.rest, b.eof) {
            ChunkView::Size(size, n) => size > 0 ==> b.drain(limit) == (BodyView {
                left: size,
                rest: b.rest.skip(n),
                ..b
            }).drain(limit),
            _ => true,
        },
{
    if let ChunkView::Size(size, n) = chunk_head(b.rest, b.eof) {
        let c = BodyView { left: size, rest: b.rest.skip(n), ..b };
        if size > 0 {
            assert(b.read(limit) == c.read(limit));
        }
    }
}

/// Reading on where a chunk is owed that has come in full.
proof fn lemma_chunk_read(c: BodyView, data: Seq<u8>, limit: nat)
    requires
        !c.done,
        c.kind is Chunked,
        c.left == data.len(),
        c.rest.len() >= data.len(),
        c.rest.take(data.len() as int) == data,
        data.len() > 0,
        limit > 0,
    ensures
        limit <= data.len() ==> c.drain(limit).1 == data.take(limit as int) && c.drain(limit).2
            == DrainView::End,
        limit > data.len() ==> c.drain(limit) == before(
            data,
            (BodyView { left: 0, rest: c.rest.skip(data.len() as int), ..c }).drain(
                (limit - data.len()) as nat,
            ),
        ),
{
    let nothing = Seq::<u8>::empty();
    let (after, read) = c.read(limit);
    if limit <= data.len() {
        let d = data.take(limit as int);
        assert(c.rest.take(limit as int) == d);
        assert(read == BodyReadView::Data(d));
        assert(after.drain(0) == (after, nothing, DrainView::End));
        assert(d + nothing == d);
    } else {
        assert(read == BodyReadView::Data(data));
        assert(after == BodyView { left: 0, rest: c.rest.skip(data.len() as int), ..c });
    }
}

/// A body of which a chunk head has come, and then a chunk that carries `data`.
proof fn lemma_tail_reads_back(data: Seq<u8>, after: Seq<u8>, led: bool, eof: bool, limit: nat)
    requires
        0 < data.len() <= u64::MAX,
        after.len() >= data.len(),
        after.take(data.len() as int) == data,
        limit > 0,
    ensures
        ({
            let b = BodyView::fresh(
                BodyKind::Chunked,
                lead(led) + (size_line(data.len()) + after),
                eof,
            );
            let c = BodyView::fresh(BodyKind::Chunked, after.skip(data.len() as int), eof);
            &&& limit <= data.len() ==> b.drain(limit).1 == data.take(limit as int) && b.drain(
                limit,
            ).2 == DrainView::End
            &&& limit > data.len() ==> b.drain(limit) == before(
                data,
                c.drain((limit - data.len()) as nat),
            )
        }),
{
    let b = BodyView::fresh(BodyKind::Chunked, lead(led) + (size_line(data.len()) + after), eof);
    lemma_chunk_head_reads_back(data.len(), after, led, eof);
    lemma_head_read(b, limit);
    lemma_chunk_read(BodyView { left: data.len(), rest: after, ..b }, data, limit);
}

/// A chunked body begins with its first chunk.
proof fn lemma_first_chunk(pieces: Seq<Seq<u8>>)
    requires
        pieces.len() > 0,
    ensures
        ({
            let data = pieces[0];
            let rest = chunks(pieces.drop_first());
            let tail = data + (lead(true) + rest);
            &&& chunks(pieces) == size_line(data.len()) + tail
            &&& tail.take(data.len() as int) == data
            &&& tail.skip(data.len() as int) == lead(true) + rest
        }),
{
    let data = pieces[0];
    let rest = chunks(pieces.drop_first());
    let tail = data + (lead(true) + rest);
    assert(chunks(pieces) == size_line(data.len()) + tail);
    assert(tail.take(data.len() as int) == data);
    assert(tail.skip(data.len() as int) == lead(true) + rest);
}

/// The first bytes of two runs are those of the one, or that one and the first of
/// the other.
proof fn lemma_at_most_in_two(a: Seq<u8>, b: Seq<u8>, limit: nat)
    ensures
        limit <= a.len() ==> at_most(a + b, limit) == a.take(limit as int),
        limit > a.len() ==> at_most(a + b, limit) == a + at_most(b, (limit - a.len()) as nat),
{
    if limit <= a.len() {
        assert(at_most(a + b, limit) == a.take(limit as int));
    } else {
        assert(at_most(a + b, limit) == a + at_most(b, (limit - a.len()) as nat));
    }
}

#[verifier::spinoff_prover]
proof fn lemma_chunks_read_back(pieces: Seq<Seq<u8>>, led: bool, eof: bool, limit: nat)
    requires
        forall|i: int| 0 <= i < pieces.len() ==> 0 < (#[trigger] pieces[i]).len() <= u64::MAX,
    ensures
        ({
            let b = BodyView::fresh(BodyKind::Chunked, lead(led) + chunks(pieces), eof);
            &&& b.drain(limit).1 == at_most(joined(pieces), limit)
            &&& b.drain(limit).2 == DrainView::End
        }),
    decreases pieces.len(),
{
    let b = BodyView::fresh(BodyKind::Chunked, lead(led) + chunks(pieces), eof);
    if limit == 0 {
        assert(joined(pieces).take(0) == Seq::<u8>::empty());
    } else if pieces.len() == 0 {
        assert(pieces == Seq::<Seq<u8>>::empty());
        assert(joined(pieces) == Seq::<u8>::empty());
        lemma_last_chunk_reads_back(led, eof);
    } else {
        let data = pieces[0];
        let others = pieces.drop_first();
        let tail = data + (lead(true) + chunks(others));
        lemma_first_chunk(pieces);
        lemma_tail_reads_back(data, tail, led, eof, limit);
        lemma_at_most_in_two(data, joined(others), limit);
        if limit > data.len() {
            assert forall|i: int| 0 <= i < others.len() implies 0 < (#[trigger] others[i]).len()
                <= u64::MAX by {
                assert(others[i] == pieces[i + 1]);
            }
            lemma_chunks_read_back(others, true, eof, (limit - data.len()) as nat);
        }
    }
}

/// A chunked body reads as the bytes that its chunks carry, in whatever chunks
/// they were sent.
pub proof fn law_chunks_read_back(pieces: Seq<Seq<u8>>, eof: bool, limit: nat)
    requires
        forall|i: int| 0 <= i < pieces.len() ==> 0 < (#[trigger] pieces[i]).len() <= u64::MAX,
    ensures
        BodyView::fresh(BodyKind::Chunked, chunks(pieces), eof).drain(limit).1 == at_most(
            joined(pieces),
            limit,
        ),
        BodyView::fresh(BodyKind::Chunked, chunks(pieces), eof).drain(limit).2 == DrainView::End,
{
    lemma_chunks_read_back(pieces, false, eof, limit);
    assert(Seq::<u8>::empty() + chunks(pieces) == chunks(pieces));
}

/// Reading on where more is owed than has come, and no more will: it gives what
/// has come, and then says so.
proof fn lemma_owed_runs_short(b: BodyView, limit: nat)
    requires
        !b.done,
        b.eof,
        b.left > b.rest.len(),
        b.kind !is ToClose,
    ensures
        b.drain(limit).1 == at_most(b.rest, limit),
        limit <= b.rest.len() ==> b.drain(limit).2 == DrainView::End,
        limit > b.rest.len() ==> b.drain(limit).2 == DrainView::Fail(
            (
                FaultKind::UnexpectedEof,
                if b.kind is Chunked {
                    "chunk shorter than declared"@
                } else {
                    "body shorter than content-length"@
                },
            ),
        ),
{
    reveal_with_fuel(BodyView::drain, 3);
    let nothing = Seq::<u8>::empty();
    if limit == 0 {
        assert(at_most(b.rest, 0) == nothing);
    } else if b.rest.len() > 0 {
        let d = at_most(b.rest, limit);
        assert(b.rest.take(d.len() as int) == d);
        assert(d + nothing == d);
        let after = b.read(limit).0;
        assert(b.read(limit).1 == BodyReadView::Data(d));
    }
}

/// What is left of a line where the input ends before its line feed.
proof fn lemma_control_cut(text: Seq<char>, returned: bool)
    requires
        is_ascii_chars(text),
        forall|i: int| 0 <= i < text.len() ==> text[i] != '\r' && #[trigger] text[i] != '\n',
    ensures
        ({
            let line = if returned {
                text.push('\r')
            } else {
                text
            };
            &&& encode_utf8(line).len() == line.len()
            &&& line.len() > 0 ==> control_line(encode_utf8(line), true) == ControlView::Line(
                text,
                line.len() as int,
            )
        }),
{
    let line = if returned {
        text.push('\r')
    } else {
        text
    };
    let raw = encode_utf8(line);
    assert(is_ascii_chars(line)) by {
        assert forall|i: int| 0 <= i < line.len() implies '\0' <= #[trigger] line[i] <= '\u{7f}' by {
            if i < text.len() {
                assert(line[i] == text[i]);
            }
        }
    }
    is_ascii_chars_encode_utf8(line);
    encode_utf8_valid_utf8(line);
    encode_utf8_decode_utf8(line);
    lemma_line_feed(raw);
    assert forall|j: int| 0 <= j < raw.len() implies raw[j] != 10 by {
        assert(line[j] as u8 == raw[j]);
        let c = line[j];
        assert('\0' <= c <= '\u{7f}');
        if j < text.len() {
            assert(line[j] == text[j]);
            assert(text[j] != '\n');
        }
    }
    assert(line_feed(raw) is None);
    assert(raw.take(raw.len() as int) == raw);
    reveal_with_fuel(trim_newlines, 2);
    if returned {
        assert(line.drop_last() == text);
    }
    if text.len() > 0 {
        assert(text[text.len() - 1] != '\r' && text[text.len() - 1] != '\n');
    }
}

/// Where the input ends, so does a chunked body that is not at its end.
proof fn lemma_control_ends()
    ensures
        control_line(Seq::empty(), true) == ControlView::Fail(
            (FaultKind::UnexpectedEof, "chunked body ended mid-stream"@),
            0,
        ),
{
    let none = Seq::<char>::empty();
    let nothing = Seq::<u8>::empty();
    lemma_control_cut(none, false);
    encode_utf8_valid_utf8(none);
    assert(encode_utf8(none) == nothing);
    lemma_line_feed(nothing);
    assert(nothing.take(0) == nothing);
}

/// A line end before a chunk head, or less, and then the end of the input.
proof fn lemma_lead_cut(led: bool, cut: int)
    requires
        0 <= cut <= lead(led).len(),
    ensures
        chunk_head(lead(led).take(cut), true) matches ChunkView::Fail(f, n) && f.0
            == FaultKind::UnexpectedEof,
{
    let buf = lead(led).take(cut);
    let nothing = Seq::<u8>::empty();
    lemma_control_ends();
    lemma_lead_reads_back(nothing, led, true);
    if cut == 0 {
        assert(buf == nothing);
    } else if cut == 1 {
        reveal_strlit("\r\n");
        let part = Seq::<char>::empty().push('\r');
        lemma_control_cut(Seq::empty(), true);
        is_ascii_chars_encode_utf8(part);
        is_ascii_chars_encode_utf8("\r\n"@);
        assert("\r\n"@[0] as u8 == lead(led)[0]);
        assert(part[0] as u8 == encode_utf8(part)[0]);
        assert(buf == encode_utf8(part));
        assert(buf.skip(1) == nothing);
    } else {
        assert(buf == lead(led) + nothing);
    }
}

/// A size line that the input ends in announces some chunk, of which nothing
/// comes.
proof fn lemma_size_line_cut(size: nat, led: bool, k: int)
    requires
        0 < size <= u64::MAX,
        0 < k < size_line(size).len(),
    ensures
        chunk_head(lead(led) + size_line(size).take(k), true) matches ChunkView::Size(m, n) && m > 0
            && n == lead(led).len() + k,
{
    let text = numeral(size, 16);
    let line = text + "\r\n"@;
    reveal_strlit("\r\n");
    lemma_size_reads_back(size);
    lemma_control_reads_back(text, Seq::empty(), true);
    let returned = k == text.len() + 1;
    let kept = if returned {
        text.len() as int
    } else {
        k
    };
    let m = lemma_numeral_front(size, 16, kept);
    let shown = text.take(kept);
    lemma_size_reads_back(m);
    lemma_control_cut(shown, returned);
    let part = if returned {
        shown.push('\r')
    } else {
        shown
    };
    let front = size_line(size).take(k);
    assert(front == encode_utf8(part)) by {
        assert(is_ascii_chars(line)) by {
            assert forall|i: int| 0 <= i < line.len() implies '\0' <= #[trigger] line[i]
                <= '\u{7f}' by {
                if i < text.len() {
                    assert(line[i] == text[i]);
                }
            }
        }
        assert(part == line.take(k));
        is_ascii_chars_encode_utf8(line);
        assert(is_ascii_chars(part)) by {
            assert forall|i: int| 0 <= i < part.len() implies '\0' <= #[trigger] part[i]
                <= '\u{7f}' by {
                assert(part[i] == line[i]);
            }
        }
        is_ascii_chars_encode_utf8(part);
        assert forall|i: int| 0 <= i < k implies front[i] == encode_utf8(part)[i] by {
            assert(line[i] as u8 == size_line(size)[i]);
            assert(part[i] as u8 == encode_utf8(part)[i]);
        }
    }
    let buf = lead(led) + front;
    lemma_lead_reads_back(front, led, true);
    if !led {
        assert(buf == front);
    }
}

/// Reading up to `limit` bytes gives what `all` begins with, and then the input
/// has ended too early, unless the limit comes first.
pub open spec fn runs_short(b: BodyView, all: Seq<u8>, limit: nat) -> bool {
    let (_, data, how) = b.drain(limit);
    &&& data.is_prefix_of(all)
    &&& match how {
        DrainView::End => data.len() == limit,
        DrainView::Wait => false,
        DrainView::Fail(f) => f.0 == FaultKind::UnexpectedEof,
    }
}

/// What begins with a run of bytes, and then with another.
proof fn lemma_prefix_in_two(d: Seq<u8>, more: Seq<u8>, all: Seq<u8>)
    ensures
        (d + more).is_prefix_of(all) <==> d.is_prefix_of(all) && more.is_prefix_of(
            all.skip(d.len() as int),
        ),
{
    if (d + more).is_prefix_of(all) {
        assert(d =~= all.subrange(0, d.len() as int)) by {
            assert forall|i: int| 0 <= i < d.len() implies d[i] == all[i] by {
                assert((d + more)[i] == all.subrange(0, (d + more).len() as int)[i]);
            }
        }
        assert(more =~= all.skip(d.len() as int).subrange(0, more.len() as int)) by {
            assert forall|i: int| 0 <= i < more.len() implies more[i] == all[d.len() + i] by {
                assert((d + more)[d.len() + i] == all.subrange(0, (d + more).len() as int)[d.len()
                    + i]);
            }
        }
    }
    if d.is_prefix_of(all) && more.is_prefix_of(all.skip(d.len() as int)) {
        assert((d + more) =~= all.subrange(0, (d + more).len() as int)) by {
            assert forall|i: int| 0 <= i < (d + more).len() implies (d + more)[i] == all[i] by {
                if i < d.len() {
                    assert(d[i] == all.subrange(0, d.len() as int)[i]);
                } else {
                    assert(more[i - d.len()] == all.skip(d.len() as int).subrange(
                        0,
                        more.len() as int,
                    )[i - d.len()]);
                }
            }
        }
    }
}

/// Reading on where a chunk that carries `data` is owed: where that comes short
/// or what follows does, the whole does.
proof fn lemma_chunk_runs_short(c: BodyView, data: Seq<u8>, all: Seq<u8>, limit: nat)
    requires
        !c.done,
        c.eof,
        c.kind is Chunked,
        c.left == data.len(),
        data.len() > 0,
        limit > 0,
        data.is_prefix_of(all),
        at_most(c.rest, data.len()).is_prefix_of(data),
        c.rest.len() >= data.len() && limit > data.len() ==> runs_short(
            BodyView { left: 0, rest: c.rest.skip(data.len() as int), ..c },
            all.skip(data.len() as int),
            (limit - data.len()) as nat,
        ),
    ensures
        runs_short(c, all, limit),
{
    let got = at_most(at_most(c.rest, data.len()), limit);
    assert(got.is_prefix_of(all)) by {
        assert forall|i: int| 0 <= i < got.len() implies got[i] == all[i] by {
            let shown = at_most(c.rest, data.len());
            assert(shown[i] == data.subrange(0, shown.len() as int)[i]);
            assert(data[i] == all.subrange(0, data.len() as int)[i]);
        }
        assert(got =~= all.subrange(0, got.len() as int));
    }
    if c.rest.len() < data.len() {
        lemma_owed_runs_short(c, limit);
        assert(at_most(c.rest, data.len()) == c.rest);
    } else {
        assert(at_most(c.rest, data.len()) == data) by {
            assert(c.rest.take(data.len() as int) == at_most(c.rest, data.len()));
            assert(data.subrange(0, data.len() as int) == data);
        }
        lemma_chunk_read(c, data, limit);
        if limit > data.len() {
            let after = BodyView { left: 0, rest: c.rest.skip(data.len() as int), ..c };
            lemma_prefix_in_two(data, after.drain((limit - data.len()) as nat).1, all);
        } else {
            assert(got == data.take(limit as int));
        }
    }
}

/// The first `n` bytes of two runs.
proof fn lemma_front_of_two(a: Seq<u8>, b: Seq<u8>, n: int)
    requires
        0 <= n <= a.len() + b.len(),
    ensures
        (a + b).take(n) == if n <= a.len() {
            a.take(n)
        } else {
            a + b.take(n - a.len())
        },
{
}

/// A body of which no chunk head has come in full, but of which some has.
proof fn lemma_head_runs_short(size: nat, led: bool, k: int, all: Seq<u8>, limit: nat)
    requires
        0 < size <= u64::MAX,
        0 < k < size_line(size).len(),
    ensures
        runs_short(
            BodyView::fresh(BodyKind::Chunked, lead(led) + size_line(size).take(k), true),
            all,
            limit,
        ),
{
    let b = BodyView::fresh(BodyKind::Chunked, lead(led) + size_line(size).take(k), true);
    lemma_size_line_cut(size, led, k);
    if limit > 0 {
        let m = chunk_head(b.rest, true)->Size_0;
        let c = BodyView { left: m, rest: b.rest.skip(b.rest.len() as int), ..b };
        lemma_head_read(b, limit);
        lemma_owed_runs_short(c, limit);
    }
}

/// A body of which no chunk head has come at all.
proof fn lemma_lead_runs_short(led: bool, cut: int, all: Seq<u8>, limit: nat)
    requires
        0 <= cut <= lead(led).len(),
    ensures
        runs_short(BodyView::fresh(BodyKind::Chunked, lead(led).take(cut), true), all, limit),
{
    lemma_lead_cut(led, cut);
}

/// A body of which a chunk head has come in full, and then what is `here`.
proof fn lemma_tail_runs_short(
    data: Seq<u8>,
    here: Seq<u8>,
    led: bool,
    all: Seq<u8>,
    limit: nat,
)
    requires
        0 < data.len() <= u64::MAX,
        limit > 0,
        data.is_prefix_of(all),
        at_most(here, data.len()).is_prefix_of(data),
        here.len() >= data.len() && limit > data.len() ==> runs_short(
            BodyView::fresh(BodyKind::Chunked, here.skip(data.len() as int), true),
            all.skip(data.len() as int),
            (limit - data.len()) as nat,
        ),
    ensures
        runs_short(
            BodyView::fresh(
                BodyKind::Chunked,
                lead(led) + (size_line(data.len()) + here),
                true,
            ),
            all,
            limit,
        ),
{
    let b = BodyView::fresh(
        BodyKind::Chunked,
        lead(led) + (size_line(data.len()) + here),
        true,
    );
    let c = BodyView { left: data.len(), rest: here, ..b };
    lemma_chunk_head_reads_back(data.len(), here, led, true);
    lemma_head_read(b, limit);
    lemma_chunk_runs_short(c, data, all, limit);
}

#[verifier::spinoff_prover]
proof fn lemma_chunks_run_short(pieces: Seq<Seq<u8>>, led: bool, cut: int, limit: nat)
    requires
        forall|i: int| 0 <= i < pieces.len() ==> 0 < (#[trigger] pieces[i]).len() <= u64::MAX,
        0 <= cut,
        cut + 5 <= (lead(led) + chunks(pieces)).len(),
    ensures
        runs_short(
            BodyView::fresh(BodyKind::Chunked, (lead(led) + chunks(pieces)).take(cut), true),
            joined(pieces),
            limit,
        ),
    decreases pieces.len(),
{
    let end = encode_utf8("\r\n"@);
    let b = BodyView::fresh(BodyKind::Chunked, (lead(led) + chunks(pieces)).take(cut), true);
    lemma_front_of_two(lead(led), chunks(pieces), cut);
    if pieces.len() == 0 {
        assert(pieces == Seq::<Seq<u8>>::empty());
        lemma_last_chunk_reads_back(led, true);
        lemma_lead_runs_short(led, cut, joined(pieces), limit);
    } else if cut <= lead(led).len() {
        lemma_lead_runs_short(led, cut, joined(pieces), limit);
    } else if limit > 0 {
        let data = pieces[0];
        let others = pieces.drop_first();
        let rest = chunks(others);
        let head = size_line(data.len());
        let tail = data + (end + rest);
        let k = cut - lead(led).len();
        assert(chunks(pieces) == head + tail);
        lemma_front_of_two(head, tail, k);
        if k < head.len() {
            lemma_head_runs_short(data.len(), led, k, joined(pieces), limit);
        } else {
            let n = k - head.len();
            let here = tail.take(n);
            assert(head + here == (head + tail).take(k));
            lemma_front_of_two(data, end + rest, n);
            assert(joined(pieces).skip(data.len() as int) == joined(others));
            assert(data.is_prefix_of(joined(pieces)));
            if n < data.len() {
                assert(here.is_prefix_of(data));
            } else {
                assert(here.take(data.len() as int) == data);
                assert(here.skip(data.len() as int) == (lead(true) + rest).take(n - data.len()));
                if limit > data.len() {
                    assert forall|i: int| 0 <= i < others.len() implies 0 < (
                    #[trigger] others[i]).len() <= u64::MAX by {
                        assert(others[i] == pieces[i + 1]);
                    }
                    lemma_chunks_run_short(
                        others,
                        true,
                        n - data.len(),
                        (limit - data.len()) as nat,
                    );
                }
            }
            lemma_tail_runs_short(data, here, led, joined(pieces), limit);
        }
    }
}

/// What reads of up to `caps` bytes, one after the other, give in all, and where
/// the first that gives no bytes got to. There is no such read where all of them
/// give some.
pub open spec fn read_in_turn(b: BodyView, caps: Seq<nat>) -> (Seq<u8>, Option<DrainView>)
    decreases caps.len(),
{
    if caps.len() == 0 {
        (Seq::empty(), None)
    } else {
        match b.read(caps[0]) {
            (after, BodyReadView::Data(d)) => {
                let (more, how) = read_in_turn(after, caps.drop_first());
                (d + more, how)
            },
            (_, BodyReadView::End) => (Seq::empty(), Some(DrainView::End)),
            (_, BodyReadView::Wait) => (Seq::empty(), Some(DrainView::Wait)),
            (_, BodyReadView::Fail(f)) => (Seq::empty(), Some(DrainView::Fail(f))),
        }
    }
}

/// A read that asks for no more than another got gives the same.
proof fn lemma_read_exact(b: BodyView, cap: nat)
    ensures
        b.read(cap).1 matches BodyReadView::Data(d) ==> b.read(d.len()) == b.read(cap),
{
    lemma_read_size(b, cap);
}

/// Where a body runs short whatever the limit, it does so however it is read.
proof fn lemma_reads_run_short(b: BodyView, all: Seq<u8>, caps: Seq<nat>)
    requires
        forall|limit: nat| #[trigger] runs_short(b, all, limit),
        forall|i: int| 0 <= i < caps.len() ==> #[trigger] caps[i] > 0,
    ensures
        read_in_turn(b, caps).0.is_prefix_of(all),
        match read_in_turn(b, caps).1 {
            Some(DrainView::Fail(f)) => f.0 == FaultKind::UnexpectedEof,
            Some(_) => false,
            None => caps.len() <= read_in_turn(b, caps).0.len(),
        },
    decreases caps.len(),
{
    if caps.len() > 0 {
        let cap = caps[0];
        let others = caps.drop_first();
        assert(runs_short(b, all, cap));
        law_reads_of_any_size(b, cap, cap);
        lemma_read_size(b, cap);
        if let (after, BodyReadView::Data(d)) = b.read(cap) {
            lemma_read_exact(b, cap);
            lemma_prefix_in_two(d, after.drain((cap - d.len()) as nat).1, all);
            let left = all.skip(d.len() as int);
            assert forall|limit: nat| #[trigger] runs_short(after, left, limit) by {
                assert(runs_short(b, all, d.len() + limit));
                law_reads_of_any_size(b, d.len(), d.len() + limit);
                lemma_prefix_in_two(d, after.drain(limit).1, all);
            }
            assert forall|i: int| 0 <= i < others.len() implies #[trigger] others[i] > 0 by {
                assert(others[i] == caps[i + 1]);
            }
            lemma_reads_run_short(after, left, others);
            lemma_prefix_in_two(d, read_in_turn(after, others).0, all);
        }
    }
}

/// A chunked body that the input ends in, anywhere before its last chunk, gives
/// what its chunks carry as far as that came, and then fails: a truncated body
/// never passes for one that is complete, however it is read.
pub proof fn law_truncated_chunks_fail(pieces: Seq<Seq<u8>>, cut: int, limit: nat, caps: Seq<nat>)
    requires
        forall|i: int| 0 <= i < pieces.len() ==> 0 < (#[trigger] pieces[i]).len() <= u64::MAX,
        0 <= cut,
        cut + chunks(Seq::empty()).len() <= chunks(pieces).len(),
        forall|i: int| 0 <= i < caps.len() ==> #[trigger] caps[i] > 0,
    ensures
        ({
            let b = BodyView::fresh(BodyKind::Chunked, chunks(pieces).take(cut), true);
            let (_, data, how) = b.drain(limit);
            &&& data.is_prefix_of(joined(pieces))
            &&& limit > joined(pieces).len() ==> how is Fail
            &&& how is Fail ==> how->Fail_0.0 == FaultKind::UnexpectedEof
            &&& how is End ==> data.len() == limit
            &&& how !is Wait
        }),
        ({
            let b = BodyView::fresh(BodyKind::Chunked, chunks(pieces).take(cut), true);
            let (data, how) = read_in_turn(b, caps);
            &&& data.is_prefix_of(joined(pieces))
            &&& caps.len() > joined(pieces).len() ==> how is Some
            &&& how matches Some(last) ==> last is Fail && last->Fail_0.0
                == FaultKind::UnexpectedEof
        }),
{
    let b = BodyView::fresh(BodyKind::Chunked, chunks(pieces).take(cut), true);
    let all = joined(pieces);
    lemma_last_chunk_reads_back(false, true);
    assert(lead(false) + chunks(pieces) == chunks(pieces));
    lemma_chunks_run_short(pieces, false, cut, limit);
    assert forall|n: nat| #[trigger] runs_short(b, all, n) by {
        lemma_chunks_run_short(pieces, false, cut, n);
    }
    lemma_reads_run_short(b, all, caps);
}

/// A body of known length reads as that many of the bytes that come, whatever
/// follows them. Where fewer come, it reads as those, and then fails once no more
/// can come: it never passes for complete.
pub proof fn law_lengths_read_back(length: u64, came: Seq<u8>, eof: bool, limit: nat)
    ensures
        ({
            let b = BodyView::fresh(BodyKind::Length(length), came, eof);
            &&& b.drain(limit).1 == at_most(at_most(came, length as nat), limit)
            &&& b.drain(limit).2 == if limit <= came.len() || length <= came.len() {
                DrainView::End
            } else if eof {
                DrainView::Fail((FaultKind::UnexpectedEof, "body shorter than content-length"@))
            } else {
                DrainView::Wait
            }
        }),
{
    let b = BodyView::fresh(BodyKind::Length(length), came, eof);
    let nothing = Seq::<u8>::empty();
    reveal_with_fuel(BodyView::drain, 3);
    let body = at_most(came, length as nat);
    if limit == 0 {
        assert(at_most(body, 0) == nothing);
    } else if body.len() > 0 {
        let d = at_most(body, limit);
        assert(came.take(d.len() as int) == d);
        assert(d + nothing == d);
        assert(b.read(limit).1 == BodyReadView::Data(d));
        assert(b.read(limit).0.left == length - d.len());
    }
}

/// A body that the end of the connection delimits reads as all that came before
/// that.
pub proof fn law_closed_bodies_read_back(body: Seq<u8>, limit: nat)
    ensures
        BodyView::fresh(BodyKind::ToClose, body, true).drain(limit).1 == at_most(body, limit),
        BodyView::fresh(BodyKind::ToClose, body, true).drain(limit).2 == DrainView::End,
{
    let b = BodyView::fresh(BodyKind::ToClose, body, true);
    reveal_with_fuel(BodyView::drain, 3);
    if limit > 0 && body.len() > 0 {
        let n = if limit < body.len() {
            limit
        } else {
            body.len()
        };
        assert(body.take(body.len() as int) == body);
        assert(body.take(n as int) + Seq::<u8>::empty() == body.take(n as int));
    }
}

// ---------------------------------------------------------------------------
// Header fields
// ---------------------------------------------------------------------------

proof fn lemma_lower(c: char)
    ensures
        lower(lower(c)) == lower(c),
        is_white(lower(c)) == is_white(c),
{
}

proof fn lemma_trim_start_lowered(s: Seq<char>)
    ensures
        trim_start(lowered(s)) == lowered(trim_start(s)),
    decreases s.len(),
{
    if s.len() > 0 {
        lemma_lower(s[0]);
        if is_white(s[0]) {
            lemma_trim_start_lowered(s.drop_first());
            assert(lowered(s).drop_first() == lowered(s.drop_first()));
        }
    }
}

proof fn lemma_trim_end_lowered(s: Seq<char>)
    ensures
        trim_end(lowered(s)) == lowered(trim_end(s)),
    decreases s.len(),
{
    if s.len() > 0 {
        lemma_lower(s.last());
        assert(lowered(s).last() == lower(s.last()));
        if is_white(s.last()) {
            lemma_trim_end_lowered(s.drop_last());
            assert(lowered(s).drop_last() == lowered(s.drop_last()));
        }
    }
}

/// The name of a header field may be written in any case: a name and its
/// lower-case form stand for the same field.
pub proof fn law_field_names_ignore_case(
    headers: Map<Seq<char>, Seq<char>>,
    name: Seq<char>,
    value: Seq<char>,
)
    requires
        !name.contains(':'),
    ensures
        with_field(headers, name + seq![':'] + value) == with_field(
            headers,
            lowered(name) + seq![':'] + value,
        ),
{
    let small = lowered(name);
    assert(!small.contains(':')) by {
        assert forall|j: int| 0 <= j < small.len() implies small[j] != ':' by {
            assert(name.contains(name[j]));
        }
    }
    lemma_field_splits(name, value);
    lemma_field_splits(small, value);
    lemma_trim_start_lowered(name);
    lemma_trim_end_lowered(trim_start(name));
    let t = trim(name);
    assert(trim(small) == lowered(t));
    assert(lowered(lowered(t)) == lowered(t)) by {
        assert forall|j: int| 0 <= j < t.len() implies lower(lower(t[j])) == lower(t[j]) by {
            lemma_lower(t[j]);
        }
    }
}

pub proof fn lemma_field_splits(name: Seq<char>, value: Seq<char>)
    requires
        !name.contains(':'),
    ensures
        split_once(name + seq![':'] + value, ':') == Some((name, value)),
{
    let s = name + seq![':'] + value;
    let k = name.len() as int;
    lemma_index_of(s, ':');
    assert(s[k] == ':');
    assert forall|j: int| 0 <= j < k implies s[j] != ':' by {
        assert(name.contains(name[j]));
        assert(s[j] == name[j]);
    }
    assert(index_of(s, ':') == Some(k));
    assert(s.take(k) == name);
    assert(s.skip(k + 1) == value);
}

} // verus!
