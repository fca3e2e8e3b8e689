//! What comes of responses that are cut off, too long or malformed.

use vstd::prelude::*;
use vstd::utf8::{encode_utf8, encode_utf8_valid_utf8, is_ascii_chars};

use crate::exchange_laws::{
    can_be_sent, fields_text, fits_a_line, head_text, lemma_ascii_in_two, lemma_field_reads_back,
    lemma_fields_ascii, lemma_head_begins, lemma_line_reads_back,
};
use crate::http::{
    chunk_head, debug_text, head_of, header_lines, lemma_line_feed, url_of, BodyReadView, BodyView,
    ChunkView, FaultKind, HeadReadView, UrlView,
};
use crate::text::{
    is_digit, is_white, law_numerals_read_back, lemma_index_of, lemma_last_index_of,
    lemma_numeral_digits, lowered, number, numeral, split_once, trim,
};

verus! {

proof fn lemma_fields_run_over(
    fields: Seq<(Seq<char>, Seq<char>)>,
    used: nat,
    status: nat,
    headers: Map<Seq<char>, Seq<char>>,
    body: Seq<u8>,
    eof: bool,
)
    requires
        forall|i: int| 0 <= i < fields.len() ==> can_be_sent(#[trigger] fields[i]),
        used + fields_text(fields).len() > 65536,
    ensures
        header_lines(encode_utf8(fields_text(fields)) + body, eof, used, status, headers)
            == HeadReadView::Fail((FaultKind::InvalidInput, "response headers too large"@)),
    decreases fields.len(),
{
    reveal_strlit("\r\n");
    let none = Seq::<char>::empty();
    assert(none + "\r\n"@ == "\r\n"@);
    if fields.len() == 0 {
        lemma_line_reads_back(none, body, eof);
    } else {
        let rest = fields.drop_first();
        assert forall|i: int| 0 <= i < rest.len() implies can_be_sent(#[trigger] rest[i]) by {
            assert(rest[i] == fields[i + 1]);
        }
        let (name, value) = fields[0];
        let line = name + ": "@ + value;
        let n = line.len() + 2;
        lemma_field_reads_back(headers, name, value);
        lemma_fields_ascii(rest);
        lemma_ascii_in_two(line, "\r\n"@);
        lemma_ascii_in_two(line + "\r\n"@, fields_text(rest));
        let tail = encode_utf8(fields_text(rest)) + body;
        assert(encode_utf8(fields_text(fields)) + body == encode_utf8(line + "\r\n"@) + tail);
        lemma_line_reads_back(line, tail, eof);
        if used + n <= 65536 {
            lemma_fields_run_over(
                rest,
                used + n,
                status,
                headers.insert(lowered(name), value),
                body,
                eof,
            );
        }
    }
}

/// A response head of more than 64 KiB is refused.
pub proof fn law_heads_that_are_too_long_fail(
    status: nat,
    reason: Seq<char>,
    fields: Seq<(Seq<char>, Seq<char>)>,
    body: Seq<u8>,
    eof: bool,
)
    requires
        fits_a_line(reason),
        status <= 65535,
        forall|i: int| 0 <= i < fields.len() ==> can_be_sent(#[trigger] fields[i]),
        head_text("HTTP/1.1"@, status, reason, fields).len() > 65536,
    ensures
        head_of(encode_utf8(head_text("HTTP/1.1"@, status, reason, fields)) + body, eof)
            == HeadReadView::Fail((FaultKind::InvalidInput, "response headers too large"@)),
{
    reveal_strlit("HTTP/1.1");
    let version = "HTTP/1.1"@;
    let first = version + " "@ + numeral(status, 10) + " "@ + reason + "\r\n"@;
    lemma_fields_ascii(fields);
    lemma_head_begins(version, status, reason, fields_text(fields), body, eof);
    lemma_fields_run_over(fields, first.len(), status, Map::empty(), body, eof);
}

proof fn lemma_fields_cut_off(
    fields: Seq<(Seq<char>, Seq<char>)>,
    used: nat,
    status: nat,
    headers: Map<Seq<char>, Seq<char>>,
    eof: bool,
)
    requires
        forall|i: int| 0 <= i < fields.len() ==> can_be_sent(#[trigger] fields[i]),
        used + fields_text(fields).len() <= 65536,
    ensures
        ({
            let text = fields_text(fields);
            &&& text.len() >= 2
            &&& is_ascii_chars(text.take(text.len() - 2))
            &&& header_lines(encode_utf8(text.take(text.len() - 2)), eof, used, status, headers)
                == if eof {
                HeadReadView::Fail((FaultKind::UnexpectedEof, "headers ended mid-stream"@))
            } else {
                HeadReadView::More
            }
        }),
    decreases fields.len(),
{
    reveal_strlit("\r\n");
    let text = fields_text(fields);
    let cut = text.take(text.len() - 2);
    if fields.len() == 0 {
        assert(cut == Seq::<char>::empty());
        lemma_ascii_in_two(cut, cut);
        let raw = encode_utf8(cut);
        assert(raw.len() == 0);
        lemma_line_feed(raw);
        assert(raw.take(0) == Seq::<u8>::empty());
        encode_utf8_valid_utf8(cut);
        assert(raw.take(0) == raw);
    } else {
        let rest = fields.drop_first();
        assert forall|i: int| 0 <= i < rest.len() implies can_be_sent(#[trigger] rest[i]) by {
            assert(rest[i] == fields[i + 1]);
        }
        let (name, value) = fields[0];
        let line = name + ": "@ + value;
        let n = line.len() + 2;
        let less = fields_text(rest).take(fields_text(rest).len() - 2);
        lemma_field_reads_back(headers, name, value);
        lemma_ascii_in_two(line, "\r\n"@);
        let next = headers.insert(lowered(name), value);
        assert(text.len() == n + fields_text(rest).len());
        lemma_fields_cut_off(rest, used + n, status, next, eof);
        lemma_ascii_in_two(line + "\r\n"@, less);
        assert(cut == line + "\r\n"@ + less);
        lemma_line_reads_back(line, encode_utf8(less), eof);
    }
}

/// A response head without the empty line at its end is waited for, and is broken
/// where nothing more comes.
pub proof fn law_heads_that_are_cut_off_fail(
    status: nat,
    reason: Seq<char>,
    fields: Seq<(Seq<char>, Seq<char>)>,
    eof: bool,
)
    requires
        fits_a_line(reason),
        status <= 65535,
        forall|i: int| 0 <= i < fields.len() ==> can_be_sent(#[trigger] fields[i]),
        head_text("HTTP/1.1"@, status, reason, fields).len() <= 65536,
    ensures
        ({
            let text = head_text("HTTP/1.1"@, status, reason, fields);
            head_of(encode_utf8(text.take(text.len() - 2)), eof) == if eof {
                HeadReadView::Fail((FaultKind::UnexpectedEof, "headers ended mid-stream"@))
            } else {
                HeadReadView::More
            }
        }),
{
    reveal_strlit("HTTP/1.1");
    let version = "HTTP/1.1"@;
    let first = version + " "@ + numeral(status, 10) + " "@ + reason + "\r\n"@;
    let text = head_text(version, status, reason, fields);
    let rest = fields_text(fields);
    lemma_fields_cut_off(fields, first.len(), status, Map::empty(), eof);
    let less = rest.take(rest.len() - 2);
    assert(text.take(text.len() - 2) == first + less);
    lemma_head_begins(version, status, reason, less, Seq::empty(), eof);
    assert(encode_utf8(less) + Seq::<u8>::empty() == encode_utf8(less));
    assert(encode_utf8(first + less) + Seq::<u8>::empty() == encode_utf8(first + less));
}

/// A response of which no line has come is waited for. One of which nothing has
/// come before it ended is told of as such.
pub proof fn law_lines_are_waited_for(buf: Seq<u8>)
    requires
        forall|i: int| 0 <= i < buf.len() ==> buf[i] != 10,
    ensures
        head_of(buf, false) == HeadReadView::More,
        chunk_head(buf, false) == ChunkView::Wait,
        buf.len() == 0 ==> head_of(buf, true) == HeadReadView::Fail(
            (FaultKind::UnexpectedEof, "no response from engine"@),
        ),
        buf.len() == 0 ==> chunk_head(buf, true) == ChunkView::Fail(
            (FaultKind::UnexpectedEof, "chunked body ended mid-stream"@),
            0,
        ),
{
    lemma_line_feed(buf);
    let none = Seq::<char>::empty();
    lemma_ascii_in_two(none, none);
    encode_utf8_valid_utf8(none);
    if buf.len() == 0 {
        assert(buf.take(0) == encode_utf8(none));
    }
}

/// The size of a chunk is what stands before the first semicolon of its line, in
/// hexadecimal. What else stands there is ignored.
pub proof fn law_chunk_extensions_are_ignored(n: nat, more: Seq<char>, rest: Seq<u8>, eof: bool)
    requires
        0 < n <= u64::MAX,
        fits_a_line(more),
    ensures
        ({
            let line = numeral(n, 16) + ";"@ + more;
            chunk_head(encode_utf8(line + "\r\n"@) + rest, eof) == ChunkView::Size(
                n,
                line.len() as int + 2,
            )
        }),
{
    reveal_strlit(";");
    let size = numeral(n, 16);
    let line = size + ";"@ + more;
    lemma_numeral_digits(n, 16);
    law_numerals_read_back(n, 16, u64::MAX as nat);
    assert forall|i: int| 0 <= i < size.len() implies '\0' <= #[trigger] size[i] <= '\u{7f}'
        && size[i] != '\r' && size[i] != '\n' && size[i] != ';' && !is_white(size[i]) by {
        assert(is_digit(size[i]));
    }
    lemma_ascii_in_two(size, ";"@);
    lemma_ascii_in_two(size + ";"@, more);
    assert(fits_a_line(line)) by {
        assert forall|i: int| 0 <= i < line.len() implies line[i] != '\r' && #[trigger] line[i]
            != '\n' by {
            if i < size.len() {
                assert(line[i] == size[i]);
            } else if i > size.len() {
                assert(line[i] == more[i - size.len() - 1]);
            }
        }
    }
    lemma_line_reads_back(line, rest, eof);
    lemma_index_of(line, ';');
    assert(line[size.len() as int] == ';');
    assert forall|i: int| 0 <= i < size.len() implies line[i] != ';' by {
        assert(line[i] == size[i]);
    }
    assert(line.take(size.len() as int) == size);
    assert(split_once(line, ';') == Some((size, line.skip(size.len() as int + 1))));
    assert(trim(size) == size);
}

/// A chunk whose size is no number is refused, and what stood there is told.
pub proof fn law_malformed_chunk_sizes_fail(size: Seq<char>, rest: Seq<u8>, eof: bool)
    requires
        fits_a_line(size),
        size.len() > 0,
        !is_white(size[0]),
        !is_white(size.last()),
        !size.contains(';'),
        number(size, 16, u64::MAX as nat) is None,
    ensures
        chunk_head(encode_utf8(size + "\r\n"@) + rest, eof) == ChunkView::Fail(
            (FaultKind::InvalidInput, "malformed chunk size "@ + debug_text(size)),
            size.len() as int + 2,
        ),
{
    lemma_line_reads_back(size, rest, eof);
    lemma_index_of(size, ';');
    assert(trim(size) == size);
}

/// A chunk that ends before it has come in full breaks its body, and nothing is read
/// of that any more.
pub proof fn law_short_chunks_fail(b: BodyView, cap: nat)
    requires
        b.kind is Chunked,
        b.left > 0,
        b.rest.len() == 0,
        !b.done,
        cap > 0,
    ensures
        !b.eof ==> b.read(cap) == (b, BodyReadView::Wait),
        b.eof ==> b.read(cap).1 == BodyReadView::Fail(
            (FaultKind::UnexpectedEof, "chunk shorter than declared"@),
        ),
        b.eof ==> b.read(cap).0.read(cap).1 == BodyReadView::End,
{
}

/// A URL whose port is no number, or none that a port can be, is refused, and told.
pub proof fn law_impossible_ports_are_refused(host: Seq<char>, port: Seq<char>, target: Seq<char>)
    requires
        !host.contains('/'),
        !port.contains('/'),
        !port.contains(':'),
        number(port, 10, 65535) is None,
        target.len() == 0 || target[0] == '/',
    ensures
        ({
            let s = "http://"@ + host + ":"@ + port + target;
            url_of(s) == Err::<UrlView, (FaultKind, Seq<char>)>(
                (FaultKind::InvalidInput, "invalid port in "@ + s),
            )
        }),
{
    reveal_strlit("http://");
    reveal_strlit(":");
    let authority = host + ":"@ + port;
    let rest = authority + target;
    let s = "http://"@ + host + ":"@ + port + target;
    assert(s.take(7) == "http://"@);
    assert(s.skip(7) == rest);
    lemma_index_of(rest, '/');
    assert forall|i: int| 0 <= i < authority.len() implies rest[i] != '/' by {
        if i < host.len() {
            assert(rest[i] == host[i]);
        } else if i > host.len() {
            assert(rest[i] == port[i - host.len() - 1]);
        }
    }
    if target.len() > 0 {
        assert(rest[authority.len() as int] == '/');
        assert(rest.take(authority.len() as int) == authority);
    } else {
        assert(rest == authority);
    }
    lemma_last_index_of(authority, ':');
    let k = host.len() as int;
    assert(authority[k] == ':');
    assert forall|i: int| k < i < authority.len() implies authority[i] != ':' by {
        assert(authority[i] == port[i - k - 1]);
    }
    assert(authority.skip(k + 1) == port);
}

} // verus!
