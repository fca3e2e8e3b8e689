//! What a response and a request say to the other side.

use vstd::prelude::*;
use vstd::utf8::{
    decode_utf8, encode_utf8, encode_utf8_decode_utf8, encode_utf8_valid_utf8, is_ascii_chars,
    is_ascii_chars_encode_utf8, valid_utf8,
};

use crate::format::OutputFormat;
use crate::http::{
    answer, framing, head_of, header_lines, lemma_line_feed, line_feed, line_len, redirection,
    request, status_of, text_result, url_of, with_field, AnswerView, BodyKind, BodyView, DrainView,
    FaultKind, HeadReadView, HeadView, UrlView, MAX_HEADER_BYTES, TEXT_LIMIT,
};
use crate::http_laws::{
    law_closed_bodies_read_back, law_lengths_read_back, law_urls_read_back, lemma_field_splits,
};
use crate::route::stream_head_text;
use crate::text::{
    contains_text, index_of, is_digit, is_white, last_index_of, law_numerals_read_back,
    lemma_index_of, lemma_last_index_of, lemma_numeral_digits, lowered, number, numeral, trim,
    trim_end, trim_newlines, trim_start, word_len, words,
};

verus! {

// ---------------------------------------------------------------------------
// Response heads
// ---------------------------------------------------------------------------

/// The header fields as they are sent, each on a line of its own, and the empty
/// line behind them.
pub open spec fn fields_text(fields: Seq<(Seq<char>, Seq<char>)>) -> Seq<char>
    decreases fields.len(),
{
    if fields.len() == 0 {
        "\r\n"@
    } else {
        fields[0].0 + ": "@ + fields[0].1 + "\r\n"@ + fields_text(fields.drop_first())
    }
}

/// A response head as it is sent.
pub open spec fn head_text(
    version: Seq<char>,
    status: nat,
    reason: Seq<char>,
    fields: Seq<(Seq<char>, Seq<char>)>,
) -> Seq<char> {
    version + " "@ + numeral(status, 10) + " "@ + reason + "\r\n"@ + fields_text(fields)
}

/// Fields by their lower-case names. What comes last under a name stands.
pub open spec fn gathered(
    headers: Map<Seq<char>, Seq<char>>,
    fields: Seq<(Seq<char>, Seq<char>)>,
) -> Map<Seq<char>, Seq<char>>
    decreases fields.len(),
{
    if fields.len() == 0 {
        headers
    } else {
        gathered(headers.insert(lowered(fields[0].0), fields[0].1), fields.drop_first())
    }
}

/// Whether a text can stand within a line: it is ASCII, and has no line end.
pub open spec fn fits_a_line(s: Seq<char>) -> bool {
    &&& is_ascii_chars(s)
    &&& forall|i: int| 0 <= i < s.len() ==> s[i] != '\r' && #[trigger] s[i] != '\n'
}

/// Whether a field can be sent: its name is a word, and neither name nor value
/// has white space around it.
pub open spec fn can_be_sent(field: (Seq<char>, Seq<char>)) -> bool {
    &&& fits_a_line(field.0)
    &&& fits_a_line(field.1)
    &&& field.0.len() > 0
    &&& !field.0.contains(':')
    &&& trim(field.0) == field.0
    &&& trim(field.1) == field.1
}

/// ASCII texts one behind the other are encoded one behind the other.
pub proof fn lemma_ascii_in_two(a: Seq<char>, b: Seq<char>)
    requires
        is_ascii_chars(a),
        is_ascii_chars(b),
    ensures
        is_ascii_chars(a + b),
        encode_utf8(a + b) == encode_utf8(a) + encode_utf8(b),
        encode_utf8(a).len() == a.len(),
        encode_utf8(b).len() == b.len(),
{
    let s = a + b;
    assert forall|i: int| 0 <= i < s.len() implies '\0' <= #[trigger] s[i] <= '\u{7f}' by {
        if i < a.len() {
            assert(s[i] == a[i]);
        } else {
            assert(s[i] == b[i - a.len()]);
        }
    }
    is_ascii_chars_encode_utf8(a);
    is_ascii_chars_encode_utf8(b);
    is_ascii_chars_encode_utf8(s);
    assert forall|i: int| 0 <= i < s.len() implies encode_utf8(s)[i] == (encode_utf8(a)
        + encode_utf8(b))[i] by {
        assert(s[i] as u8 == encode_utf8(s)[i]);
        if i < a.len() {
            assert(a[i] as u8 == encode_utf8(a)[i]);
        } else {
            assert(b[i - a.len()] as u8 == encode_utf8(b)[i - a.len()]);
        }
    }
    assert(encode_utf8(s) == encode_utf8(a) + encode_utf8(b));
}

/// A line at the front of the input.
pub proof fn lemma_line_reads_back(text: Seq<char>, rest: Seq<u8>, eof: bool)
    requires
        fits_a_line(text),
    ensures
        ({
            let buf = encode_utf8(text + "\r\n"@) + rest;
            let n = text.len() as int + 2;
            &&& encode_utf8(text + "\r\n"@).len() == n
            &&& line_len(buf, eof) == Some(n)
            &&& valid_utf8(buf.take(n))
            &&& decode_utf8(buf.take(n)) == text + "\r\n"@
            &&& trim_newlines(text + "\r\n"@) == text
            &&& buf.skip(n) == rest
        }),
{
    reveal_strlit("\r\n");
    let line = text + "\r\n"@;
    let raw = encode_utf8(line);
    let buf = raw + rest;
    let k = text.len() as int;
    lemma_ascii_in_two(text, "\r\n"@);
    is_ascii_chars_encode_utf8(line);
    encode_utf8_valid_utf8(line);
    encode_utf8_decode_utf8(line);
    lemma_line_feed(buf);
    assert(line[k + 1] == '\n');
    assert(raw[k + 1] == 10);
    assert(buf[k + 1] == 10);
    assert forall|j: int| 0 <= j < k + 1 implies buf[j] != 10 by {
        assert(line[j] as u8 == raw[j]);
        let c = line[j];
        assert('\0' <= c <= '\u{7f}');
        if j < k {
            assert(line[j] == text[j]);
            assert(text[j] != '\n');
        } else {
            assert(line[j] == '\r');
        }
    }
    assert(line_feed(buf) == Some(k + 1));
    assert(buf.take(k + 2) == raw);
    assert(line.drop_last().drop_last() == text);
    assert(line.drop_last().last() == '\r');
    reveal_with_fuel(trim_newlines, 3);
    if k > 0 {
        assert(text[k - 1] != '\r' && text[k - 1] != '\n');
    }
    assert(buf.skip(k + 2) == rest);
}

/// A header line gives the field that was sent.
pub proof fn lemma_field_reads_back(
    headers: Map<Seq<char>, Seq<char>>,
    name: Seq<char>,
    value: Seq<char>,
)
    requires
        can_be_sent((name, value)),
    ensures
        with_field(headers, name + ": "@ + value) == headers.insert(lowered(name), value),
        fits_a_line(name + ": "@ + value),
{
    reveal_strlit(": ");
    let behind = seq![' '] + value;
    let line = name + ": "@ + value;
    assert(line == name + seq![':'] + behind);
    lemma_field_splits(name, behind);
    assert(behind.drop_first() == value);
    assert(trim_start(behind) == trim_start(value));
    lemma_ascii_in_two(name, ": "@);
    lemma_ascii_in_two(name + ": "@, value);
    assert forall|i: int| 0 <= i < line.len() implies line[i] != '\r' && #[trigger] line[i]
        != '\n' by {
        if i < name.len() {
            assert(line[i] == name[i]);
        } else if i >= name.len() + 2 {
            assert(line[i] == value[i - name.len() - 2]);
        }
    }
}

pub proof fn lemma_fields_ascii(fields: Seq<(Seq<char>, Seq<char>)>)
    requires
        forall|i: int| 0 <= i < fields.len() ==> can_be_sent(#[trigger] fields[i]),
    ensures
        is_ascii_chars(fields_text(fields)),
    decreases fields.len(),
{
    reveal_strlit("\r\n");
    if fields.len() > 0 {
        let rest = fields.drop_first();
        assert forall|i: int| 0 <= i < rest.len() implies can_be_sent(#[trigger] rest[i]) by {
            assert(rest[i] == fields[i + 1]);
        }
        lemma_fields_ascii(rest);
        let (name, value) = fields[0];
        lemma_field_reads_back(Map::empty(), name, value);
        let line = name + ": "@ + value;
        lemma_ascii_in_two(line, "\r\n"@);
        lemma_ascii_in_two(line + "\r\n"@, fields_text(rest));
    }
}

proof fn lemma_fields_read_back(
    fields: Seq<(Seq<char>, Seq<char>)>,
    used: nat,
    status: nat,
    headers: Map<Seq<char>, Seq<char>>,
    body: Seq<u8>,
    eof: bool,
)
    requires
        forall|i: int| 0 <= i < fields.len() ==> can_be_sent(#[trigger] fields[i]),
        used + fields_text(fields).len() <= MAX_HEADER_BYTES,
    ensures
        header_lines(encode_utf8(fields_text(fields)) + body, eof, used, status, headers)
            == (HeadReadView::Done {
            head: HeadView { status, headers: gathered(headers, fields) },
            used: used + fields_text(fields).len(),
        }),
        encode_utf8(fields_text(fields)).len() == fields_text(fields).len(),
    decreases fields.len(),
{
    reveal_strlit("\r\n");
    let none = Seq::<char>::empty();
    assert(none + "\r\n"@ == "\r\n"@);
    if fields.len() == 0 {
        lemma_line_reads_back(none, body, eof);
    } else {
        let rest = fields.drop_first();
        assert forall|i: int| 0 <= i < rest.len() implies can_be_sent(#[trigger] rest[i]) by {
            assert(rest[i] == fields[i + 1]);
        }
        let (name, value) = fields[0];
        let line = name + ": "@ + value;
        let next = headers.insert(lowered(name), value);
        let n = line.len() + 2;
        lemma_field_reads_back(headers, name, value);
        lemma_fields_ascii(rest);
        lemma_ascii_in_two(line, "\r\n"@);
        lemma_ascii_in_two(line + "\r\n"@, fields_text(rest));
        let tail = encode_utf8(fields_text(rest)) + body;
        assert(encode_utf8(fields_text(fields)) + body == encode_utf8(line + "\r\n"@) + tail);
        lemma_line_reads_back(line, tail, eof);
        lemma_fields_read_back(rest, used + n, status, next, body, eof);
    }
}

/// A word at the front of a text, and the rest.
proof fn lemma_word(word: Seq<char>, rest: Seq<char>)
    requires
        word.len() > 0,
        forall|i: int| 0 <= i < word.len() ==> !is_white(#[trigger] word[i]),
        rest.len() > 0,
        is_white(rest[0]),
    ensures
        words(word + rest) == seq![word] + words(rest),
{
    let s = word + rest;
    assert(s[0] == word[0]);
    assert(trim_start(s) == s);
    lemma_word_len_of(word, rest);
    assert(s.take(word.len() as int) == word);
    assert(s.skip(word.len() as int) == rest);
}

proof fn lemma_word_len_of(word: Seq<char>, rest: Seq<char>)
    requires
        forall|i: int| 0 <= i < word.len() ==> !is_white(#[trigger] word[i]),
        rest.len() > 0,
        is_white(rest[0]),
    ensures
        word_len(word + rest) == word.len(),
    decreases word.len(),
{
    let s = word + rest;
    if word.len() == 0 {
        assert(s == rest);
    } else {
        let less = word.drop_first();
        assert forall|i: int| 0 <= i < less.len() implies !is_white(#[trigger] less[i]) by {
            assert(less[i] == word[i + 1]);
        }
        lemma_word_len_of(less, rest);
        assert(s.drop_first() == less + rest);
        assert(s[0] == word[0]);
    }
}

/// White space in front of words does not count.
proof fn lemma_words_behind_blank(s: Seq<char>)
    ensures
        words(" "@ + s) == words(s),
{
    reveal_strlit(" ");
    let t = " "@ + s;
    assert(t.drop_first() == s);
    assert(trim_start(t) == trim_start(s));
}

/// The status stands second in a status line.
proof fn lemma_status_reads_back(version: Seq<char>, status: nat, reason: Seq<char>)
    requires
        version.len() > 0,
        forall|i: int| 0 <= i < version.len() ==> !is_white(#[trigger] version[i]),
        status <= 65535,
    ensures
        status_of(version + " "@ + numeral(status, 10) + " "@ + reason) == Some(status),
{
    reveal_strlit(" ");
    let code = numeral(status, 10);
    lemma_numeral_digits(status, 10);
    law_numerals_read_back(status, 10, 65535);
    assert forall|i: int| 0 <= i < code.len() implies !is_white(#[trigger] code[i]) by {
        assert(is_digit(code[i]));
    }
    let rest = " "@ + reason;
    let line = version + " "@ + code + " "@ + reason;
    assert(line == version + (" "@ + (code + rest)));
    lemma_word(version, " "@ + (code + rest));
    lemma_words_behind_blank(code + rest);
    lemma_word(code, rest);
    let all = words(line);
    assert(all == seq![version] + (seq![code] + words(rest)));
    assert(all[1] == code);
}

/// A response head is read from its status line on.
pub proof fn lemma_head_begins(
    version: Seq<char>,
    status: nat,
    reason: Seq<char>,
    rest: Seq<char>,
    body: Seq<u8>,
    eof: bool,
)
    requires
        fits_a_line(version),
        version.len() > 0,
        forall|i: int| 0 <= i < version.len() ==> !is_white(#[trigger] version[i]),
        fits_a_line(reason),
        status <= 65535,
        is_ascii_chars(rest),
    ensures
        ({
            let first = version + " "@ + numeral(status, 10) + " "@ + reason + "\r\n"@;
            &&& head_of(encode_utf8(first + rest) + body, eof) == header_lines(
                encode_utf8(rest) + body,
                eof,
                first.len(),
                status,
                Map::empty(),
            )
            &&& encode_utf8(first + rest).len() == first.len() + encode_utf8(rest).len()
        }),
{
    reveal_strlit(" ");
    reveal_strlit("\r\n");
    let code = numeral(status, 10);
    lemma_numeral_digits(status, 10);
    assert(fits_a_line(code)) by {
        assert forall|i: int| 0 <= i < code.len() implies '\0' <= #[trigger] code[i] <= '\u{7f}'
            && code[i] != '\r' && code[i] != '\n' by {
            assert(is_digit(code[i]));
        }
    }
    let line = version + " "@ + code + " "@ + reason;
    lemma_ascii_in_two(version, " "@);
    lemma_ascii_in_two(version + " "@, code);
    lemma_ascii_in_two(version + " "@ + code, " "@);
    lemma_ascii_in_two(version + " "@ + code + " "@, reason);
    assert(fits_a_line(line)) by {
        assert forall|i: int| 0 <= i < line.len() implies line[i] != '\r' && #[trigger] line[i]
            != '\n' by {
            let a = version.len() as int;
            let b = a + 1 + code.len();
            if i < a {
                assert(line[i] == version[i]);
            } else if a < i < b {
                assert(line[i] == code[i - a - 1]);
            } else if i > b {
                assert(line[i] == reason[i - b - 1]);
            }
        }
    }
    lemma_ascii_in_two(line, "\r\n"@);
    lemma_ascii_in_two(line + "\r\n"@, rest);
    let tail = encode_utf8(rest) + body;
    assert(encode_utf8(line + "\r\n"@ + rest) + body == encode_utf8(line + "\r\n"@) + tail);
    lemma_line_reads_back(line, tail, eof);
    lemma_status_reads_back(version, status, reason + "\r\n"@);
    assert(line + "\r\n"@ == version + " "@ + code + " "@ + (reason + "\r\n"@));
}

/// A response head reads as the status and the fields that it was sent with, each
/// field under its name in lower case, and ends where the body begins.
pub proof fn law_heads_read_back(
    version: Seq<char>,
    status: nat,
    reason: Seq<char>,
    fields: Seq<(Seq<char>, Seq<char>)>,
    body: Seq<u8>,
    eof: bool,
)
    requires
        fits_a_line(version),
        version.len() > 0,
        forall|i: int| 0 <= i < version.len() ==> !is_white(#[trigger] version[i]),
        fits_a_line(reason),
        status <= 65535,
        forall|i: int| 0 <= i < fields.len() ==> can_be_sent(#[trigger] fields[i]),
        head_text(version, status, reason, fields).len() <= 65536,
    ensures
        ({
            let text = head_text(version, status, reason, fields);
            &&& head_of(encode_utf8(text) + body, eof) == (HeadReadView::Done {
                head: HeadView { status, headers: gathered(Map::empty(), fields) },
                used: text.len(),
            })
            &&& (encode_utf8(text) + body).skip(text.len() as int) == body
        }),
{
    reveal_strlit(" ");
    reveal_strlit("\r\n");
    let rest = fields_text(fields);
    let text = head_text(version, status, reason, fields);
    let first = version + " "@ + numeral(status, 10) + " "@ + reason + "\r\n"@;
    lemma_fields_ascii(fields);
    lemma_head_begins(version, status, reason, rest, body, eof);
    assert(text == first + rest);
    lemma_fields_read_back(fields, first.len(), status, Map::empty(), body, eof);
    assert((encode_utf8(text) + body).skip(text.len() as int) == body);
}

/// A text of which no character is white space has none around it.
proof fn lemma_no_white_around(s: Seq<char>)
    requires
        s.len() > 0 ==> !is_white(s[0]) && !is_white(s[s.len() - 1]),
    ensures
        trim(s) == s,
{
    assert(trim_start(s) == s);
    assert(trim_end(s) == s);
}

/// The fields that the head of a stream has.
spec fn stream_fields(media: Seq<char>) -> Seq<(Seq<char>, Seq<char>)> {
    seq![
        ("Content-Type"@, media),
        ("Cache-Control"@, "no-store"@),
        ("Access-Control-Allow-Origin"@, "*"@),
        ("Connection"@, "close"@),
    ]
}

proof fn lemma_stream_fields(media: Seq<char>)
    requires
        media == "audio/aac"@ || media == "audio/mpeg"@ || media == "video/mp4"@,
    ensures
        forall|i: int|
            0 <= i < stream_fields(media).len() ==> can_be_sent(
                #[trigger] stream_fields(media)[i],
            ),
        9 <= media.len() <= 10,
{
    reveal_strlit("audio/aac");
    reveal_strlit("audio/mpeg");
    reveal_strlit("video/mp4");
    reveal_strlit("Content-Type");
    reveal_strlit("Cache-Control");
    reveal_strlit("no-store");
    reveal_strlit("Access-Control-Allow-Origin");
    reveal_strlit("*");
    reveal_strlit("Connection");
    reveal_strlit("close");
    let fields = stream_fields(media);
    assert forall|i: int| 0 <= i < fields.len() implies can_be_sent(#[trigger] fields[i]) by {
        lemma_no_white_around(fields[i].0);
        lemma_no_white_around(fields[i].1);
        assert(!fields[i].0.contains(':'));
    }
}

#[verifier::spinoff_prover]
#[verifier::rlimit(40)]
proof fn lemma_stream_head_is_a_head(fmt: OutputFormat)
    ensures
        stream_head_text(fmt) == head_text("HTTP/1.1"@, 200, "OK"@, stream_fields(fmt.media_type())),
        stream_head_text(fmt).len() <= 200,
{
    let media = fmt.media_type();
    let fields = stream_fields(media);
    lemma_stream_fields(media);
    reveal_strlit("HTTP/1.1 200 OK\r\nContent-Type: ");
    reveal_strlit(
        "\r\nCache-Control: no-store\r\nAccess-Control-Allow-Origin: *\r\nConnection: close\r\n\r\n",
    );
    reveal_strlit("HTTP/1.1");
    reveal_strlit("OK");
    reveal_strlit(" ");
    reveal_strlit(": ");
    reveal_strlit("\r\n");
    reveal_strlit("Content-Type");
    reveal_strlit("Cache-Control");
    reveal_strlit("no-store");
    reveal_strlit("Access-Control-Allow-Origin");
    reveal_strlit("*");
    reveal_strlit("Connection");
    reveal_strlit("close");
    reveal_with_fuel(numeral, 4);
    assert(numeral(200, 10) == seq!['2', '0', '0']);
    reveal_with_fuel(fields_text, 5);
    let d1 = fields.drop_first();
    let d2 = d1.drop_first();
    let d3 = d2.drop_first();
    assert(d1[0] == fields[1]);
    assert(d2[0] == fields[2]);
    assert(d3[0] == fields[3]);
    assert(d3.drop_first().len() == 0);
    let tail = "Cache-Control"@ + ": "@ + "no-store"@ + "\r\n"@ + ("Access-Control-Allow-Origin"@
        + ": "@ + "*"@ + "\r\n"@ + ("Connection"@ + ": "@ + "close"@ + "\r\n"@ + "\r\n"@));
    assert(fields_text(fields) == "Content-Type"@ + ": "@ + media + "\r\n"@ + tail);
    let rest =
        "\r\nCache-Control: no-store\r\nAccess-Control-Allow-Origin: *\r\nConnection: close\r\n\r\n"@;
    assert(rest == "\r\n"@ + tail);
    let first = "HTTP/1.1"@ + " "@ + numeral(200, 10) + " "@ + "OK"@ + "\r\n"@;
    assert("HTTP/1.1 200 OK\r\nContent-Type: "@ == first + ("Content-Type"@ + ": "@));
    assert(stream_head_text(fmt) == first + fields_text(fields));
}

/// The names of the fields, in lower case.
proof fn lemma_stream_names()
    ensures
        lowered("Content-Type"@) == "content-type"@,
        lowered("Cache-Control"@) == "cache-control"@,
        lowered("Access-Control-Allow-Origin"@) == "access-control-allow-origin"@,
        lowered("Connection"@) == "connection"@,
        "content-type"@.len() == 12,
        "cache-control"@.len() == 13,
        "access-control-allow-origin"@.len() == 27,
        "connection"@.len() == 10,
        "content-length"@.len() == 14,
        "transfer-encoding"@.len() == 17,
        "location"@.len() == 8,
{
    reveal_strlit("Content-Type");
    reveal_strlit("Cache-Control");
    reveal_strlit("Access-Control-Allow-Origin");
    reveal_strlit("Connection");
    reveal_strlit("content-type");
    reveal_strlit("cache-control");
    reveal_strlit("access-control-allow-origin");
    reveal_strlit("connection");
    reveal_strlit("content-length");
    reveal_strlit("transfer-encoding");
    reveal_strlit("location");
    assert(lowered("Content-Type"@) == "content-type"@);
    assert(lowered("Cache-Control"@) == "cache-control"@);
    assert(lowered("Access-Control-Allow-Origin"@) == "access-control-allow-origin"@);
    assert(lowered("Connection"@) == "connection"@);
}

/// Who reads the head of a stream learns that it succeeds, and what comes: AAC,
/// MP3 or MP4, by the format. All that follows is the body, up to the end of the
/// connection: nothing announces an end before, or another framing.
#[verifier::spinoff_prover]
#[verifier::rlimit(40)]
pub proof fn law_stream_heads_say_what_comes(
    fmt: OutputFormat,
    u: UrlView,
    hop: nat,
    body: Seq<u8>,
    eof: bool,
)
    ensures
        ({
            let input = encode_utf8(stream_head_text(fmt)) + body;
            let media = match fmt {
                OutputFormat::Adts => "audio/aac"@,
                OutputFormat::Mp3 => "audio/mpeg"@,
                OutputFormat::Fmp4 => "video/mp4"@,
            };
            &&& head_of(input, eof) matches HeadReadView::Done { head, used }
            &&& head.status == 200
            &&& head.headers == map![
                "content-type"@ => media,
                "cache-control"@ => "no-store"@,
                "access-control-allow-origin"@ => "*"@,
                "connection"@ => "close"@,
            ]
            &&& input.skip(used as int) == body
            &&& answer(u, hop, input, eof) == AnswerView::Done(
                200,
                BodyView::fresh(BodyKind::ToClose, body, eof),
            )
        }),
{
    let media = fmt.media_type();
    let fields = stream_fields(media);
    lemma_stream_head_is_a_head(fmt);
    lemma_stream_fields(media);
    lemma_stream_names();
    reveal_strlit("HTTP/1.1");
    reveal_strlit("OK");
    law_heads_read_back("HTTP/1.1"@, 200, "OK"@, fields, body, eof);
    reveal_with_fuel(gathered, 5);
    let d1 = fields.drop_first();
    let d2 = d1.drop_first();
    let d3 = d2.drop_first();
    assert(d1[0] == fields[1]);
    assert(d2[0] == fields[2]);
    assert(d3[0] == fields[3]);
    assert(d3.drop_first().len() == 0);
    let expected = map![
        "content-type"@ => media,
        "cache-control"@ => "no-store"@,
        "access-control-allow-origin"@ => "*"@,
        "connection"@ => "close"@,
    ];
    assert(gathered(Map::empty(), fields) =~= expected);
    assert(!expected.contains_key("content-length"@));
    assert(!expected.contains_key("transfer-encoding"@));
}

// ---------------------------------------------------------------------------
// URLs
// ---------------------------------------------------------------------------

/// What a URL says: a host, a port, or 80 where it names none, and a target, or
/// `/` where it names none.
pub proof fn law_urls_say_where_to_go(host: Seq<char>, port: nat, target: Seq<char>)
    requires
        host.len() > 0,
        !host.contains('/'),
        port <= 65535,
        target.len() == 0 || target[0] == '/',
    ensures
        ({
            let goal = if target.len() == 0 {
                "/"@
            } else {
                target
            };
            &&& url_of("http://"@ + host + ":"@ + numeral(port, 10) + target) == Ok::<
                UrlView,
                (FaultKind, Seq<char>),
            >(UrlView { host, port, target: goal })
            &&& !host.contains(':') ==> url_of("http://"@ + host + target) == Ok::<
                UrlView,
                (FaultKind, Seq<char>),
            >(UrlView { host, port: 80, target: goal })
        }),
{
    reveal_strlit("http://");
    reveal_strlit(":");
    let digits = numeral(port, 10);
    lemma_numeral_digits(port, 10);
    law_numerals_read_back(port, 10, 65535);
    let named = host + ":"@ + digits;
    assert("http://"@ + host + ":"@ + digits + target == "http://"@ + named + target);
    assert(!named.contains('/')) by {
        assert forall|j: int| 0 <= j < named.len() implies named[j] != '/' by {
            if j < host.len() {
                assert(host.contains(host[j]));
                assert(named[j] == host[j]);
            } else if j > host.len() {
                assert(is_digit(digits[j - host.len() - 1]));
            }
        }
    }
    lemma_authority(named, target);
    lemma_authority(host, target);
    let c = host.len() as int;
    lemma_last_index_of(named, ':');
    assert(named[c] == ':');
    assert forall|j: int| c < j < named.len() implies named[j] != ':' by {
        assert(is_digit(digits[j - c - 1]));
    }
    assert(last_index_of(named, ':') == Some(c));
    assert(named.take(c) == host);
    assert(named.skip(c + 1) == digits);
    if !host.contains(':') {
        lemma_last_index_of(host, ':');
        assert(last_index_of(host, ':') is None) by {
            if let Some(i) = last_index_of(host, ':') {
                assert(host.contains(host[i]));
            }
        }
    }
}

/// The authority of a URL ends where its target begins.
proof fn lemma_authority(authority: Seq<char>, target: Seq<char>)
    requires
        !authority.contains('/'),
        target.len() == 0 || target[0] == '/',
    ensures
        ({
            let s = "http://"@ + authority + target;
            &&& "http://"@.is_prefix_of(s)
            &&& s.skip(7) == authority + target
            &&& target.len() > 0 ==> index_of(s.skip(7), '/') == Some(authority.len() as int)
                && s.skip(7).take(authority.len() as int) == authority && s.skip(7).skip(
                authority.len() as int,
            ) == target
            &&& target.len() == 0 ==> index_of(s.skip(7), '/') is None && s.skip(7) == authority
        }),
{
    reveal_strlit("http://");
    let s = "http://"@ + authority + target;
    assert(s.subrange(0, 7) == "http://"@);
    let rest = s.skip(7);
    assert(rest == authority + target);
    let k = authority.len() as int;
    lemma_index_of(rest, '/');
    assert forall|j: int| 0 <= j < k implies rest[j] != '/' by {
        assert(authority.contains(authority[j]));
        assert(rest[j] == authority[j]);
    }
    if target.len() > 0 {
        assert(rest[k] == '/');
        assert(rest.take(k) == authority);
        assert(rest.skip(k) == target);
    } else {
        assert(rest == authority);
    }
}

/// Only `http://` is spoken, and only with a host: any other URL is refused, and
/// the fault names it.
pub proof fn law_other_urls_are_refused(s: Seq<char>)
    ensures
        !"http://"@.is_prefix_of(s) ==> url_of(s) == Err::<UrlView, (FaultKind, Seq<char>)>(
            (FaultKind::InvalidInput, "only http:// urls are supported: "@ + s),
        ),
        s == "http://"@ || "http:///"@.is_prefix_of(s) ==> url_of(s) == Err::<
            UrlView,
            (FaultKind, Seq<char>),
        >((FaultKind::InvalidInput, "url has no host: "@ + s)),
{
    reveal_strlit("http://");
    reveal_strlit("http:///");
    let rest = s.skip(7);
    lemma_index_of(rest, '/');
    if s == "http://"@ {
        assert(s.subrange(0, 7) == "http://"@);
        assert(rest.len() == 0);
    }
    if "http:///"@.is_prefix_of(s) {
        assert(s.subrange(0, 8) == "http:///"@);
        assert forall|i: int| 0 <= i < 8 implies s[i] == "http:///"@[i] by {
            assert(s.subrange(0, 8)[i] == s[i]);
        }
        assert(s.subrange(0, 7) == "http://"@);
        assert(rest[0] == '/');
        assert(rest.take(0).len() == 0);
    }
}

// ---------------------------------------------------------------------------
// Requests
// ---------------------------------------------------------------------------

spec fn request_fields(u: UrlView) -> Seq<(Seq<char>, Seq<char>)> {
    seq![
        ("Host"@, u.host + ":"@ + numeral(u.port, 10)),
        ("User-Agent"@, "rust-acestream-proxy"@),
        ("Connection"@, "close"@),
        ("Accept"@, "*/*"@),
    ]
}

proof fn lemma_request_fields(u: UrlView)
    requires
        fits_a_line(u.host),
        u.host.len() > 0,
        !is_white(u.host[0]),
    ensures
        forall|i: int|
            0 <= i < request_fields(u).len() ==> can_be_sent(#[trigger] request_fields(u)[i]),
        lowered("Host"@) == "host"@,
        lowered("User-Agent"@) == "user-agent"@,
        lowered("Connection"@) == "connection"@,
        lowered("Accept"@) == "accept"@,
        "host"@.len() == 4,
        "user-agent"@.len() == 10,
        "connection"@.len() == 10,
        "accept"@.len() == 6,
        "user-agent"@ != "connection"@,
{
    reveal_strlit("Host");
    reveal_strlit("User-Agent");
    reveal_strlit("rust-acestream-proxy");
    reveal_strlit("Connection");
    reveal_strlit("close");
    reveal_strlit("Accept");
    reveal_strlit("*/*");
    reveal_strlit(":");
    reveal_strlit("host");
    reveal_strlit("user-agent");
    reveal_strlit("connection");
    reveal_strlit("accept");
    assert(lowered("Host"@) == "host"@);
    assert(lowered("User-Agent"@) == "user-agent"@);
    assert(lowered("Connection"@) == "connection"@);
    assert(lowered("Accept"@) == "accept"@);
    assert("user-agent"@[0] != "connection"@[0]);
    let digits = numeral(u.port, 10);
    lemma_numeral_digits(u.port, 10);
    assert(is_ascii_chars(digits)) by {
        assert forall|i: int| 0 <= i < digits.len() implies '\0' <= #[trigger] digits[i]
            <= '\u{7f}' by {
            assert(is_digit(digits[i]));
        }
    }
    let fields = request_fields(u);
    let value = fields[0].1;
    lemma_ascii_in_two(u.host, ":"@);
    lemma_ascii_in_two(u.host + ":"@, digits);
    assert forall|i: int| 0 <= i < value.len() implies value[i] != '\r' && #[trigger] value[i]
        != '\n' by {
        if i < u.host.len() {
            assert(value[i] == u.host[i]);
        } else if i > u.host.len() {
            assert(value[i] == digits[i - u.host.len() - 1]);
            assert(is_digit(digits[i - u.host.len() - 1]));
        }
    }
    assert(value[0] == u.host[0]);
    assert(value[value.len() - 1] == digits[digits.len() - 1]);
    assert(is_digit(digits[digits.len() - 1]));
    assert forall|i: int| 0 <= i < fields.len() implies can_be_sent(#[trigger] fields[i]) by {
        lemma_no_white_around(fields[i].0);
        lemma_no_white_around(fields[i].1);
        assert(!fields[i].0.contains(':'));
    }
}

/// A request asks for the target of its URL by GET, names the host and the port
/// that it goes to, and wants the connection closed behind the answer. It ends
/// with its header, and has no body.
#[verifier::spinoff_prover]
#[verifier::rlimit(40)]
pub proof fn law_requests_read_back(u: UrlView, eof: bool)
    requires
        fits_a_line(u.host),
        u.host.len() > 0,
        !is_white(u.host[0]),
        u.host.len() + numeral(u.port, 10).len() <= 1000,
    ensures
        ({
            let first = "GET "@ + u.target + " HTTP/1.1\r\n"@;
            let text = request(u);
            let rest = text.skip(first.len() as int);
            &&& first.is_prefix_of(text)
            &&& header_lines(encode_utf8(rest), eof, 0, 0, Map::empty()) == (HeadReadView::Done {
                head: HeadView {
                    status: 0,
                    headers: map![
                        "host"@ => u.host + ":"@ + numeral(u.port, 10),
                        "user-agent"@ => "rust-acestream-proxy"@,
                        "connection"@ => "close"@,
                        "accept"@ => "*/*"@,
                    ],
                },
                used: rest.len(),
            })
        }),
{
    let fields = request_fields(u);
    lemma_request_fields(u);
    reveal_strlit("GET ");
    reveal_strlit(" HTTP/1.1\r\n");
    reveal_strlit(" HTTP/1.1\r\nHost: ");
    reveal_strlit(
        "\r\nUser-Agent: rust-acestream-proxy\r\nConnection: close\r\nAccept: */*\r\n\r\n",
    );
    reveal_strlit(": ");
    reveal_strlit("\r\n");
    reveal_strlit("Host");
    reveal_strlit("User-Agent");
    reveal_strlit("rust-acestream-proxy");
    reveal_strlit("Connection");
    reveal_strlit("close");
    reveal_strlit("Accept");
    reveal_strlit("*/*");
    reveal_strlit(":");
    let first = "GET "@ + u.target + " HTTP/1.1\r\n"@;
    let text = request(u);
    let host = fields[0].1;
    reveal_with_fuel(fields_text, 5);
    reveal_with_fuel(gathered, 5);
    let d1 = fields.drop_first();
    let d2 = d1.drop_first();
    let d3 = d2.drop_first();
    assert(d1[0] == fields[1]);
    assert(d2[0] == fields[2]);
    assert(d3[0] == fields[3]);
    assert(d3.drop_first().len() == 0);
    let tail = "User-Agent"@ + ": "@ + "rust-acestream-proxy"@ + "\r\n"@ + ("Connection"@ + ": "@
        + "close"@ + "\r\n"@ + ("Accept"@ + ": "@ + "*/*"@ + "\r\n"@ + "\r\n"@));
    assert(fields_text(fields) == "Host"@ + ": "@ + host + "\r\n"@ + tail);
    assert("\r\nUser-Agent: rust-acestream-proxy\r\nConnection: close\r\nAccept: */*\r\n\r\n"@
        == "\r\n"@ + tail);
    assert(" HTTP/1.1\r\nHost: "@ == " HTTP/1.1\r\n"@ + ("Host"@ + ": "@));
    assert(text == first + fields_text(fields));
    let rest = text.skip(first.len() as int);
    assert(rest == fields_text(fields));
    assert(text.subrange(0, first.len() as int) == first);
    let nothing = Seq::<u8>::empty();
    lemma_fields_read_back(fields, 0, 0, Map::empty(), nothing, eof);
    assert(encode_utf8(rest) + nothing == encode_utf8(rest));
    assert(gathered(Map::empty(), fields) =~= map![
        "host"@ => u.host + ":"@ + numeral(u.port, 10),
        "user-agent"@ => "rust-acestream-proxy"@,
        "connection"@ => "close"@,
        "accept"@ => "*/*"@,
    ]);
}

// ---------------------------------------------------------------------------
// Answers
// ---------------------------------------------------------------------------

/// How a body is delimited: by chunks where its transfer encoding is `chunked`, in
/// whatever case that is written; otherwise by the length that is given in
/// decimal; and where there is neither, or the length cannot be read, by the end
/// of the connection.
pub proof fn law_framing(headers: Map<Seq<char>, Seq<char>>, n: nat)
    requires
        n <= u64::MAX,
    ensures
        ({
            let chunked = headers.contains_key("transfer-encoding"@) && contains_text(
                lowered(headers["transfer-encoding"@]),
                "chunked"@,
            );
            &&& chunked <==> framing(headers) == BodyKind::Chunked
            &&& !chunked && headers.contains_key("content-length"@) && headers["content-length"@]
                == numeral(n, 10) ==> framing(headers) == BodyKind::Length(n as u64)
            &&& !chunked && !headers.contains_key("content-length"@) ==> framing(headers)
                == BodyKind::ToClose
            &&& !chunked && headers.contains_key("content-length"@) && number(
                headers["content-length"@],
                10,
                u64::MAX as nat,
            ) is None ==> framing(headers) == BodyKind::ToClose
        }),
{
    law_numerals_read_back(n, 10, u64::MAX as nat);
}

/// A response is what was sent: its status, and its body, framed as its fields
/// say. Only a redirect is something else.
pub proof fn law_responses_read_back(
    u: UrlView,
    hop: nat,
    status: nat,
    reason: Seq<char>,
    fields: Seq<(Seq<char>, Seq<char>)>,
    body: Seq<u8>,
    eof: bool,
)
    requires
        fits_a_line(reason),
        status <= 65535,
        forall|i: int| 0 <= i < fields.len() ==> can_be_sent(#[trigger] fields[i]),
        head_text("HTTP/1.1"@, status, reason, fields).len() <= 65536,
        hop > 0 || !(status == 301 || status == 302 || status == 303 || status == 307 || status
            == 308) || !gathered(Map::empty(), fields).contains_key("location"@),
    ensures
        answer(
            u,
            hop,
            encode_utf8(head_text("HTTP/1.1"@, status, reason, fields)) + body,
            eof,
        ) == AnswerView::Done(
            status,
            BodyView::fresh(framing(gathered(Map::empty(), fields)), body, eof),
        ),
{
    reveal_strlit("HTTP/1.1");
    law_heads_read_back("HTTP/1.1"@, status, reason, fields, body, eof);
}

/// A redirect is followed where it says where to: to another URL as it is, and to
/// another target on the same host and port. Only the five statuses that redirect
/// do, and only once.
pub proof fn law_redirects_lead_on(u: UrlView, hop: nat, head: HeadView)
    requires
        u.port <= 65535,
        !u.host.contains('/'),
    ensures
        ({
            let redirects = head.status == 301 || head.status == 302 || head.status == 303
                || head.status == 307 || head.status == 308;
            match redirection(u, hop, head) {
                None => !redirects || hop > 0 || !head.headers.contains_key("location"@),
                Some(url) => {
                    let location = head.headers["location"@];
                    &&& redirects && hop == 0 && head.headers.contains_key("location"@)
                    &&& "http://"@.is_prefix_of(location) ==> url == location
                    &&& location.len() > 0 && location[0] == '/' ==> url_of(url) == Ok::<
                        UrlView,
                        (FaultKind, Seq<char>),
                    >(UrlView { target: location, ..u })
                    &&& !"http://"@.is_prefix_of(location) ==> url == "http://"@ + u.host + ":"@
                        + numeral(u.port, 10) + location
                },
            }
        }),
{
    reveal_strlit("http://");
    if let Some(url) = redirection(u, hop, head) {
        let location = head.headers["location"@];
        if location.len() > 0 && location[0] == '/' {
            assert(!"http://"@.is_prefix_of(location)) by {
                assert("http://"@[0] != location[0]);
                if "http://"@.is_prefix_of(location) {
                    assert(location.subrange(0, 7)[0] == location[0]);
                }
            }
            law_urls_read_back(UrlView { target: location, ..u });
        }
    }
}

/// What a small resource comes to as a text: the bytes of its body as UTF-8, once
/// they are complete. Any status but 200 is an error that names it, and so is a
/// body that breaks or is no text.
pub proof fn law_texts_are_the_body(status: nat, got: Seq<u8>, how: DrainView, text: Seq<char>)
    ensures
        status != 200 ==> text_result(status, got, how) == Some(
            Err::<Seq<char>, Seq<char>>("http "@ + numeral(status, 10)),
        ),
        status == 200 && how is Wait ==> text_result(status, got, how) is None,
        status == 200 && how is Fail ==> text_result(status, got, how) == Some(
            Err::<Seq<char>, Seq<char>>(how->Fail_0.1),
        ),
        status == 200 && how is End && got == encode_utf8(text) ==> text_result(status, got, how)
            == Some(Ok::<Seq<char>, Seq<char>>(text)),
        status == 200 && how is End && !valid_utf8(got) ==> text_result(status, got, how) == Some(
            Err::<Seq<char>, Seq<char>>("stream did not contain valid UTF-8"@),
        ),
{
    encode_utf8_valid_utf8(text);
    encode_utf8_decode_utf8(text);
}

/// A small resource is read to its end where that comes within a mebibyte, and so far
/// where it does not.
pub proof fn law_texts_are_read_up_to_a_mebibyte(body: Seq<u8>, length: u64)
    ensures
        ({
            let (_, got, how) = BodyView::fresh(BodyKind::ToClose, body, true).drain(
                TEXT_LIMIT as nat,
            );
            how is End && got == if body.len() <= 1048576 {
                body
            } else {
                body.take(1048576)
            }
        }),
        length <= body.len() && length <= 1048576 ==> {
            let (_, got, how) = BodyView::fresh(BodyKind::Length(length), body, true).drain(
                TEXT_LIMIT as nat,
            );
            how is End && got == body.take(length as int)
        },
{
    law_closed_bodies_read_back(body, TEXT_LIMIT as nat);
    law_lengths_read_back(length, body, true, TEXT_LIMIT as nat);
}

} // verus!
