//! What the scanner promises of a whole stream, however it is cut into chunks.

use vstd::prelude::*;

use crate::mp4::{
    add_span, bare, boundary, coalesce, extend, head, lemma_head_prefix, may_open, moof_at, Head,
    PieceView, Scan, Span, MOOF,
};

verus! {

/// One byte of output with what its piece says of it.
pub struct Mark {
    pub byte: u8,
    /// Whether it is part of the init segment.
    pub init: bool,
    /// Whether a fragment is announced to start at it.
    pub starts: bool,
}

/// The bytes of a piece, each with what the piece says of it: a fragment start
/// is announced at the first byte.
pub open spec fn piece_marks(p: PieceView) -> Seq<Mark> {
    Seq::new(
        p.content().len(),
        |i: int| Mark { byte: p.content()[i], init: p is Init, starts: p.starts() && i == 0 },
    )
}

/// The marks of a list of pieces, end to end.
pub open spec fn marks(pieces: Seq<PieceView>) -> Seq<Mark>
    decreases pieces.len(),
{
    if pieces.len() == 0 {
        Seq::empty()
    } else {
        marks(pieces.drop_last()) + piece_marks(pieces.last())
    }
}

/// The bytes of a list of pieces, end to end.
pub open spec fn flat(pieces: Seq<PieceView>) -> Seq<u8>
    decreases pieces.len(),
{
    if pieces.len() == 0 {
        Seq::empty()
    } else {
        flat(pieces.drop_last()) + pieces.last().content()
    }
}

/// Pushing a list of chunks, one after the other: the state after the last and
/// all the pieces, in order.
pub open spec fn feed(st: Scan, chunks: Seq<Seq<u8>>) -> (Scan, Seq<PieceView>)
    decreases chunks.len(),
{
    if chunks.len() == 0 {
        (st, Seq::empty())
    } else {
        let (mid, pieces) = feed(st, chunks.drop_last());
        let (end, spans) = mid.push(chunks.last());
        (end, pieces + coalesce(spans))
    }
}

/// A list of chunks, end to end.
pub open spec fn stream(chunks: Seq<Seq<u8>>) -> Seq<u8>
    decreases chunks.len(),
{
    if chunks.len() == 0 {
        Seq::empty()
    } else {
        stream(chunks.drop_last()) + chunks.last()
    }
}

spec fn span_marks(s: Span) -> Seq<Mark> {
    match s {
        Span::Init(data) => piece_marks(PieceView::Init(data)),
        Span::Start(data) => piece_marks(PieceView::Media { data, fragment_start: true }),
        Span::More(data) => piece_marks(PieceView::Media { data, fragment_start: false }),
        Span::Bare(data) => piece_marks(PieceView::Media { data, fragment_start: false }),
    }
}

spec fn all_marks(spans: Seq<Span>) -> Seq<Mark>
    decreases spans.len(),
{
    if spans.len() == 0 {
        Seq::empty()
    } else {
        span_marks(spans[0]) + all_marks(spans.drop_first())
    }
}

proof fn lemma_marks_push(p: Seq<PieceView>, x: PieceView)
    ensures
        marks(p.push(x)) == marks(p) + piece_marks(x),
{
    assert(p.push(x).drop_last() == p);
}

/// The marks of two lists of pieces, one behind the other.
pub proof fn lemma_marks_concat(a: Seq<PieceView>, b: Seq<PieceView>)
    ensures
        marks(a + b) == marks(a) + marks(b),
    decreases b.len(),
{
    if b.len() == 0 {
        assert(a + b == a);
    } else {
        lemma_marks_concat(a, b.drop_last());
        assert((a + b).drop_last() == a + b.drop_last());
        assert(marks(a + b) == marks(a) + marks(b));
    }
}

proof fn lemma_add_span_marks(p: Seq<PieceView>, s: Span)
    requires
        s matches Span::More(_) ==> p.len() > 0 && p.last() is Media ==> p.last().content().len()
            > 0,
    ensures
        marks(add_span(p, s)) == marks(p) + span_marks(s),
{
    match s {
        Span::More(more) => {
            if p.len() > 0 && p.last() is Media {
                let run = p.last();
                let longer = PieceView::Media {
                    data: run->data + more,
                    fragment_start: run->fragment_start,
                };
                lemma_marks_push(p.drop_last(), longer);
                lemma_marks_push(p.drop_last(), run);
                assert(p.drop_last().push(run) == p);
                assert(piece_marks(longer) == piece_marks(run) + span_marks(s));
            } else {
                lemma_marks_push(p, PieceView::Media { data: more, fragment_start: false });
            }
        },
        Span::Init(data) => lemma_marks_push(p, PieceView::Init(data)),
        Span::Start(data) => lemma_marks_push(p, PieceView::Media { data, fragment_start: true }),
        Span::Bare(data) => lemma_marks_push(p, PieceView::Media { data, fragment_start: false }),
    }
}

spec fn span_data(s: Span) -> Seq<u8> {
    match s {
        Span::Init(data) => data,
        Span::Start(data) => data,
        Span::More(data) => data,
        Span::Bare(data) => data,
    }
}

/// No span is empty.
spec fn solid(spans: Seq<Span>) -> bool {
    forall|i: int| 0 <= i < spans.len() ==> span_data(#[trigger] spans[i]).len() > 0
}

/// No piece is empty.
spec fn filled(pieces: Seq<PieceView>) -> bool {
    forall|i: int| 0 <= i < pieces.len() ==> (#[trigger] pieces[i]).content().len() > 0
}

proof fn lemma_extend_marks(p: Seq<PieceView>, spans: Seq<Span>)
    requires
        filled(p),
        solid(spans),
    ensures
        marks(extend(p, spans)) == marks(p) + all_marks(spans),
        filled(extend(p, spans)),
    decreases spans.len(),
{
    if spans.len() > 0 {
        let q = add_span(p, spans[0]);
        assert(span_data(spans[0]).len() > 0);
        lemma_add_span_marks(p, spans[0]);
        assert(filled(q)) by {
            assert forall|i: int| 0 <= i < q.len() implies (#[trigger] q[i]).content().len() > 0 by {
                if i < q.len() - 1 {
                    assert(p[i].content().len() > 0);
                }
            }
        }
        assert(solid(spans.drop_first())) by {
            assert forall|i: int| 0 <= i < spans.drop_first().len() implies span_data(
                #[trigger] spans.drop_first()[i],
            ).len() > 0 by {
                assert(span_data(spans[i + 1]).len() > 0);
            }
        }
        lemma_extend_marks(q, spans.drop_first());
        assert(marks(p) + span_marks(spans[0]) + all_marks(spans.drop_first()) == marks(p)
            + all_marks(spans));
    }
}

proof fn lemma_solid_cons(s: Span, rest: Seq<Span>)
    requires
        span_data(s).len() > 0,
        solid(rest),
    ensures
        solid(seq![s] + rest),
        all_marks(seq![s] + rest) == span_marks(s) + all_marks(rest),
{
    let all = seq![s] + rest;
    assert forall|i: int| 0 <= i < all.len() implies span_data(#[trigger] all[i]).len() > 0 by {
        if i > 0 {
            assert(span_data(rest[i - 1]).len() > 0);
        }
    }
    assert(all.drop_first() == rest);
}

/// A scanner that has not failed lets no empty span through.
proof fn lemma_scan_solid(st: Scan, buf: Seq<u8>)
    requires
        !st.failed,
    ensures
        solid(st.scan(buf).1),
    decreases buf.len(),
{
    if buf.len() == 0 {
    } else if st.body_left > 0 {
        let n: int = if st.body_left <= buf.len() {
            st.body_left as int
        } else {
            buf.len() as int
        };
        let next = Scan { body_left: (st.body_left - n) as nat, ..st.past(buf.take(n)) };
        lemma_scan_solid(next, buf.skip(n));
        lemma_solid_cons(st.span(buf.take(n)), next.scan(buf.skip(n)).1);
    } else {
        match head(buf) {
            Head::Partial => {},
            Head::Bad { len } => {},
            Head::Opens { len, total, kind } => {
                if st.started || may_open(kind) {
                    let (next, first) = opened(st, buf);
                    lemma_scan_solid(next, buf.skip(len));
                    lemma_solid_cons(first, next.scan(buf.skip(len)).1);
                }
            },
        }
    }
}

/// The state behind a header that opens a box, and the span of the header.
spec fn opened(st: Scan, buf: Seq<u8>) -> (Scan, Span) {
    let len = head(buf)->Opens_len;
    let kind = head(buf)->kind;
    let at = Scan { in_init: st.in_init && kind != MOOF, started: true, ..st };
    let next = Scan { body_left: (head(buf)->total - len) as nat, ..at.past(buf.take(len)) };
    let first = if kind == MOOF {
        Span::Start(buf.take(len))
    } else {
        at.span(buf.take(len))
    };
    (next, first)
}

/// The marks of the pieces that a push returns are those of its spans.
proof fn lemma_push_marks(st: Scan, chunk: Seq<u8>)
    requires
        st.sound(),
    ensures
        marks(coalesce(st.push(chunk).1)) == all_marks(st.push(chunk).1),
{
    let here = Scan { header: Seq::empty(), ..st };
    let buf = st.header + chunk;
    let spans = here.scan(buf).1;
    if st.failed {
        reveal_with_fuel(extend, 2);
        reveal_with_fuel(all_marks, 2);
        assert(spans == seq![Span::Bare(buf)]);
        assert(spans.drop_first() == Seq::<Span>::empty());
        let p = PieceView::Media { data: buf, fragment_start: false };
        lemma_marks_push(Seq::empty(), p);
        assert(coalesce(spans) == Seq::<PieceView>::empty().push(p));
        assert(marks(coalesce(spans)) == all_marks(spans));
    } else {
        lemma_scan_solid(here, buf);
        lemma_extend_marks(Seq::empty(), spans);
        assert(marks(Seq::<PieceView>::empty()) + all_marks(spans) == all_marks(spans));
    }
}

/// A piece at which a fragment starts is not empty.
pub proof fn lemma_starts_filled(st: Scan, chunk: Seq<u8>)
    ensures
        forall|i: int|
            0 <= i < coalesce(st.push(chunk).1).len() && (#[trigger] coalesce(
                st.push(chunk).1,
            )[i]).starts() ==> coalesce(st.push(chunk).1)[i].content().len() > 0,
{
    let here = Scan { header: Seq::empty(), ..st };
    let buf = st.header + chunk;
    let spans = here.scan(buf).1;
    if st.failed {
        reveal_with_fuel(extend, 2);
        assert(spans.drop_first() == Seq::<Span>::empty());
        assert(coalesce(spans) == seq![PieceView::Media { data: buf, fragment_start: false }]);
    } else {
        lemma_scan_solid(here, buf);
        lemma_extend_marks(Seq::empty(), spans);
    }
}

/// Scanning `a` and then `b` is scanning both at once, but for the grouping.
spec fn cut_ok(st: Scan, a: Seq<u8>, b: Seq<u8>) -> bool {
    let (s1, sp1) = st.scan(a);
    let (s2, sp2) = s1.push(b);
    let (s3, sp3) = st.scan(a + b);
    s2 == s3 && all_marks(sp1) + all_marks(sp2) == all_marks(sp3)
}

/// Cutting a run of bytes in two changes nothing but the grouping.
proof fn lemma_scan_cut(st: Scan, a: Seq<u8>, b: Seq<u8>)
    requires
        st.header.len() == 0,
    ensures
        cut_ok(st, a, b),
    decreases a.len(),
{
    if st.failed || a.len() == 0 {
        lemma_cut_plain(st, a, b);
    } else if st.body_left > a.len() {
        lemma_cut_in_body(st, a, b);
    } else if st.body_left > 0 {
        let n = st.body_left as int;
        lemma_scan_cut(Scan { body_left: 0, ..st.past(a.take(n)) }, a.skip(n), b);
        lemma_cut_behind_body(st, a, b);
    } else {
        match head(a) {
            Head::Opens { len, total, kind } if st.started || may_open(kind) => {
                lemma_scan_cut(opened(st, a).0, a.skip(len), b);
                lemma_cut_behind_header(st, a, b);
            },
            _ => lemma_cut_at_boundary(st, a, b),
        }
    }
}

proof fn lemma_cut_plain(st: Scan, a: Seq<u8>, b: Seq<u8>)
    requires
        st.header.len() == 0,
        st.failed || a.len() == 0,
    ensures
        cut_ok(st, a, b),
{
    let s1 = st.scan(a).0;
    assert(s1 == Scan { header: Seq::empty(), ..s1 });
    assert(s1.header + b == b);
    if st.failed {
        lemma_cons(Span::Bare(a), Seq::empty());
        lemma_cons(Span::Bare(b), Seq::empty());
        lemma_cons(Span::Bare(a + b), Seq::empty());
        assert(seq![Span::Bare(a)] + Seq::<Span>::empty() == seq![Span::Bare(a)]);
        assert(seq![Span::Bare(b)] + Seq::<Span>::empty() == seq![Span::Bare(b)]);
        assert(seq![Span::Bare(a + b)] + Seq::<Span>::empty() == seq![Span::Bare(a + b)]);
        assert(span_marks(Span::Bare(a)) + span_marks(Span::Bare(b)) == span_marks(
            Span::Bare(a + b),
        ));
    } else {
        assert(a + b == b);
        assert(all_marks(Seq::<Span>::empty()) + all_marks(st.scan(b).1) == all_marks(
            st.scan(b).1,
        ));
    }
}

proof fn lemma_cut_behind_body(st: Scan, a: Seq<u8>, b: Seq<u8>)
    requires
        st.header.len() == 0,
        !st.failed,
        0 < st.body_left <= a.len(),
        cut_ok(
            Scan { body_left: 0, ..st.past(a.take(st.body_left as int)) },
            a.skip(st.body_left as int),
            b,
        ),
    ensures
        cut_ok(st, a, b),
{
    let n = st.body_left as int;
    let ab = a + b;
    let next = Scan { body_left: 0, ..st.past(a.take(n)) };
    assert(ab.take(n) == a.take(n));
    assert(ab.skip(n) == a.skip(n) + b);
    let span = st.span(a.take(n));
    lemma_cons(span, next.scan(a.skip(n)).1);
    lemma_cons(span, next.scan(ab.skip(n)).1);
    let (s1, sp1) = next.scan(a.skip(n));
    let sp2 = s1.push(b).1;
    assert(span_marks(span) + all_marks(sp1) + all_marks(sp2) == span_marks(span) + (all_marks(sp1)
        + all_marks(sp2)));
}

proof fn lemma_cut_behind_header(st: Scan, a: Seq<u8>, b: Seq<u8>)
    requires
        st.header.len() == 0,
        !st.failed,
        st.body_left == 0,
        a.len() > 0,
        head(a) is Opens,
        st.started || may_open(head(a)->kind),
        cut_ok(opened(st, a).0, a.skip(head(a)->Opens_len), b),
    ensures
        cut_ok(st, a, b),
{
    lemma_head_prefix(a, b);
    let len = head(a)->Opens_len;
    let ab = a + b;
    let (next, first) = opened(st, a);
    assert(ab.take(len) == a.take(len));
    assert(ab.skip(len) == a.skip(len) + b);
    assert(opened(st, ab) == (next, first));
    lemma_scan_opens(st, a);
    lemma_scan_opens(st, ab);
    lemma_cons(first, next.scan(a.skip(len)).1);
    lemma_cons(first, next.scan(ab.skip(len)).1);
    let (s1, sp1) = next.scan(a.skip(len));
    let sp2 = s1.push(b).1;
    assert(span_marks(first) + all_marks(sp1) + all_marks(sp2) == span_marks(first) + (all_marks(
        sp1,
    ) + all_marks(sp2)));
}

/// Scanning a header that opens a box, and then what stands behind it.
proof fn lemma_scan_opens(st: Scan, buf: Seq<u8>)
    requires
        !st.failed,
        st.body_left == 0,
        buf.len() > 0,
        head(buf) is Opens,
        st.started || may_open(head(buf)->kind),
    ensures
        ({
            let (next, first) = opened(st, buf);
            let rest = next.scan(buf.skip(head(buf)->Opens_len));
            st.scan(buf) == (rest.0, seq![first] + rest.1)
        }),
{
}

proof fn lemma_cut_at_boundary(st: Scan, a: Seq<u8>, b: Seq<u8>)
    requires
        st.header.len() == 0,
        !st.failed,
        st.body_left == 0,
        a.len() > 0,
        head(a) is Opens ==> !st.started && !may_open(head(a)->kind),
    ensures
        cut_ok(st, a, b),
{
    lemma_head_prefix(a, b);
    let s1 = st.scan(a).0;
    match head(a) {
        Head::Partial => {
            assert(Scan { header: Seq::empty(), ..s1 } == st);
            assert(all_marks(Seq::<Span>::empty()) + all_marks(st.scan(a + b).1) == all_marks(
                st.scan(a + b).1,
            ));
        },
        Head::Bad { len } => lemma_bare_cut(s1, a, b, len),
        Head::Opens { len, .. } => lemma_bare_cut(s1, a, b, len),
    }
}

/// How many bytes of the current body `buf` holds.
spec fn within(st: Scan, buf: Seq<u8>) -> int {
    if st.body_left <= buf.len() {
        st.body_left as int
    } else {
        buf.len() as int
    }
}

/// The state behind the part of a body that `buf` holds.
spec fn passed(st: Scan, buf: Seq<u8>) -> Scan {
    let n = within(st, buf);
    Scan { body_left: (st.body_left - n) as nat, ..st.past(buf.take(n)) }
}

/// Scanning part of a body, and then what stands behind it.
proof fn lemma_scan_body(st: Scan, buf: Seq<u8>)
    requires
        !st.failed,
        st.body_left > 0,
        buf.len() > 0,
    ensures
        ({
            let n = within(st, buf);
            let rest = passed(st, buf).scan(buf.skip(n));
            st.scan(buf) == (rest.0, seq![st.span(buf.take(n))] + rest.1)
        }),
{
}

/// A cut inside a box body.
#[verifier::rlimit(60)]
proof fn lemma_cut_in_body(st: Scan, a: Seq<u8>, b: Seq<u8>)
    requires
        st.header.len() == 0,
        !st.failed,
        0 < a.len() < st.body_left,
    ensures
        cut_ok(st, a, b),
{
    let ab = a + b;
    let n = a.len() as int;
    assert(a.take(n) == a);
    assert(a.skip(n) == Seq::<u8>::empty());
    lemma_scan_body(st, a);
    let next = passed(st, a);
    assert(next.scan(Seq::empty()) == (next, Seq::<Span>::empty()));
    lemma_cons(st.span(a), Seq::empty());
    assert(next == Scan { header: Seq::empty(), ..next });
    assert(next.header + b == b);
    if b.len() == 0 {
        assert(ab == a);
        assert(next.scan(b) == (next, Seq::<Span>::empty()));
        assert(all_marks(st.scan(a).1) + Seq::<Mark>::empty() == all_marks(st.scan(a).1));
    } else {
        let m = within(next, b);
        lemma_scan_body(next, b);
        lemma_scan_body(st, ab);
        assert(ab.take(n + m) == a + b.take(m));
        assert(ab.skip(n + m) == b.skip(m));
        let after = passed(next, b);
        assert(after == passed(st, ab));
        let rest = after.scan(b.skip(m)).1;
        lemma_cons(next.span(b.take(m)), rest);
        lemma_cons(st.span(a + b.take(m)), rest);
        let x = span_marks(st.span(a));
        let y = span_marks(next.span(b.take(m)));
        assert(x + y == span_marks(st.span(a + b.take(m))));
        assert(x + (y + all_marks(rest)) == x + y + all_marks(rest));
    }
}

proof fn lemma_cons(s: Span, rest: Seq<Span>)
    ensures
        all_marks(seq![s] + rest) == span_marks(s) + all_marks(rest),
{
    assert((seq![s] + rest).drop_first() == rest);
}

/// Behind a failure, the bytes of a further chunk come out as they are.
proof fn lemma_bare_cut(s1: Scan, a: Seq<u8>, b: Seq<u8>, len: int)
    requires
        0 < len <= a.len(),
        s1.failed,
        s1.header.len() == 0,
    ensures
        s1.push(b).0 == s1,
        all_marks(bare(a, len)) + all_marks(s1.push(b).1) == all_marks(bare(a + b, len)),
{
    let ab = a + b;
    assert(s1 == Scan { header: Seq::empty(), ..s1 });
    assert(s1.header + b == b);
    assert(ab.take(len) == a.take(len));
    assert(ab.skip(len) == a.skip(len) + b);
    reveal_with_fuel(all_marks, 3);
    let none = Seq::<Span>::empty();
    assert(seq![Span::Bare(b)].drop_first() == none);
    assert(seq![Span::Bare(a.skip(len))].drop_first() == none);
    assert(seq![Span::Bare(ab.skip(len))].drop_first() == none);
    assert(bare(a, len).drop_first() == if len < a.len() {
        seq![Span::Bare(a.skip(len))]
    } else {
        none
    });
    assert(bare(ab, len).drop_first() == if len < ab.len() {
        seq![Span::Bare(ab.skip(len))]
    } else {
        none
    });
    assert(all_marks(bare(a, len)) + all_marks(s1.push(b).1) == all_marks(bare(ab, len)));
}

spec fn mark_bytes(m: Seq<Mark>) -> Seq<u8> {
    Seq::new(m.len(), |i: int| m[i].byte)
}

proof fn lemma_flat(pieces: Seq<PieceView>)
    ensures
        flat(pieces) == mark_bytes(marks(pieces)),
    decreases pieces.len(),
{
    if pieces.len() > 0 {
        lemma_flat(pieces.drop_last());
    }
    assert(flat(pieces) == mark_bytes(marks(pieces)));
}

/// Scanning loses and invents no byte, and leaves a sound state.
proof fn lemma_scan_bytes(st: Scan, buf: Seq<u8>)
    requires
        st.header.len() == 0,
        st.sound(),
    ensures
        mark_bytes(all_marks(st.scan(buf).1)) + st.scan(buf).0.header == buf,
        st.scan(buf).0.sound(),
        st.scan(buf).0.header.len() < 16,
    decreases buf.len(),
{
    let (end, spans) = st.scan(buf);
    if st.failed {
        lemma_cons(Span::Bare(buf), Seq::empty());
        assert(spans == seq![Span::Bare(buf)] + Seq::<Span>::empty());
        assert(mark_bytes(all_marks(spans)) + end.header == buf);
    } else if buf.len() == 0 {
        assert(mark_bytes(all_marks(spans)) + end.header == buf);
    } else if st.body_left > 0 {
        lemma_scan_body(st, buf);
        let n = within(st, buf);
        let next = passed(st, buf);
        lemma_scan_bytes(next, buf.skip(n));
        let span = st.span(buf.take(n));
        lemma_cons(span, next.scan(buf.skip(n)).1);
        lemma_bytes_cons(span, buf.take(n), next.scan(buf.skip(n)).1, end.header, buf);
    } else {
        match head(buf) {
            Head::Opens { len, total, kind } if st.started || may_open(kind) => {
                lemma_scan_opens(st, buf);
                let (next, first) = opened(st, buf);
                lemma_scan_bytes(next, buf.skip(len));
                lemma_cons(first, next.scan(buf.skip(len)).1);
                lemma_bytes_cons(first, buf.take(len), next.scan(buf.skip(len)).1, end.header, buf);
            },
            Head::Opens { len, total, kind } => lemma_bare_bytes(buf, len),
            Head::Bad { len } => lemma_bare_bytes(buf, len),
            Head::Partial => {
                assert(mark_bytes(all_marks(spans)) + end.header == buf);
            },
        }
    }
}

proof fn lemma_bytes_cons(s: Span, data: Seq<u8>, rest: Seq<Span>, held: Seq<u8>, buf: Seq<u8>)
    requires
        span_data(s) == data,
        data.len() <= buf.len(),
        data == buf.take(data.len() as int),
        mark_bytes(all_marks(rest)) + held == buf.skip(data.len() as int),
    ensures
        mark_bytes(all_marks(seq![s] + rest)) + held == buf,
{
    lemma_cons(s, rest);
    assert(mark_bytes(span_marks(s)) == data);
    assert(mark_bytes(span_marks(s) + all_marks(rest)) == data + mark_bytes(all_marks(rest)));
    assert(data + mark_bytes(all_marks(rest)) + held == data + buf.skip(data.len() as int));
    assert(data + buf.skip(data.len() as int) == buf);
}

proof fn lemma_bare_bytes(buf: Seq<u8>, len: int)
    requires
        0 < len <= buf.len(),
    ensures
        mark_bytes(all_marks(bare(buf, len))) + Seq::<u8>::empty() == buf,
{
    let none = Seq::<Span>::empty();
    let tail = if len < buf.len() {
        seq![Span::Bare(buf.skip(len))]
    } else {
        none
    };
    lemma_cons(Span::Bare(buf.skip(len)), none);
    assert(seq![Span::Bare(buf.skip(len))] + none == seq![Span::Bare(buf.skip(len))]);
    assert(mark_bytes(all_marks(tail)) + Seq::<u8>::empty() == buf.skip(len));
    lemma_bytes_cons(Span::Bare(buf.take(len)), buf.take(len), tail, Seq::empty(), buf);
}

// ---------------------------------------------------------------------------
// The laws
// ---------------------------------------------------------------------------

/// No byte is lost, invented or reordered: the pieces that a push returns, with
/// what is held back after it, are what was held back before it, with the
/// chunk. At most fifteen bytes are ever held back, all of an incomplete box
/// header.
pub proof fn law_lossless(st: Scan, chunk: Seq<u8>)
    requires
        st.sound(),
    ensures
        flat(coalesce(st.push(chunk).1)) + st.push(chunk).0.header == st.header + chunk,
        st.push(chunk).0.header.len() <= 15,
        st.push(chunk).0.sound(),
{
    lemma_push_marks(st, chunk);
    lemma_flat(coalesce(st.push(chunk).1));
    lemma_scan_bytes(Scan { header: Seq::empty(), ..st }, st.header + chunk);
}

/// Where a chunk ends does not matter: pushing two chunks leaves the scanner as
/// pushing both at once does, and every byte comes out in the same order, part
/// of the init segment or not, at a fragment start or not.
pub proof fn law_two_chunks(st: Scan, a: Seq<u8>, b: Seq<u8>)
    requires
        st.sound(),
    ensures
        st.push(a).0.push(b).0 == st.push(a + b).0,
        marks(coalesce(st.push(a).1)) + marks(coalesce(st.push(a).0.push(b).1)) == marks(
            coalesce(st.push(a + b).1),
        ),
{
    let here = Scan { header: Seq::empty(), ..st };
    lemma_scan_bytes(here, st.header + a);
    lemma_scan_cut(here, st.header + a, b);
    assert(st.header + a + b == st.header + (a + b));
    lemma_push_marks(st, a);
    lemma_push_marks(st, a + b);
    lemma_push_marks(st.push(a).0, b);
}

/// A stream cut into any chunks whatever leaves the scanner as the whole stream
/// pushed at once does, and gives the same bytes with the same marks.
pub proof fn law_any_chunks(chunks: Seq<Seq<u8>>)
    ensures
        feed(Scan::fresh(), chunks).0 == Scan::fresh().push(stream(chunks)).0,
        marks(feed(Scan::fresh(), chunks).1) == marks(
            coalesce(Scan::fresh().push(stream(chunks)).1),
        ),
        feed(Scan::fresh(), chunks).0.sound(),
    decreases chunks.len(),
{
    let fresh = Scan::fresh();
    if chunks.len() == 0 {
        assert(fresh.header + stream(chunks) == Seq::<u8>::empty());
        assert(fresh == Scan { header: Seq::empty(), ..fresh });
    } else {
        let before = stream(chunks.drop_last());
        law_any_chunks(chunks.drop_last());
        law_two_chunks(fresh, before, chunks.last());
        let (mid, pieces) = feed(fresh, chunks.drop_last());
        lemma_marks_concat(pieces, coalesce(mid.push(chunks.last()).1));
        law_lossless(mid, chunks.last());
    }
}

/// Once the structure has broken, every further chunk passes through as one
/// piece, and the scanner stays as it is.
pub proof fn law_broken_passes_through(st: Scan, chunk: Seq<u8>)
    requires
        st.sound(),
        st.failed,
    ensures
        st.push(chunk).0 == st,
        coalesce(st.push(chunk).1) == seq![PieceView::Media { data: chunk, fragment_start: false }],
        st.segment() is None,
{
    assert(st == Scan { header: Seq::empty(), ..st });
    assert(st.header + chunk == chunk);
    reveal_with_fuel(extend, 2);
    assert(seq![Span::Bare(chunk)].drop_first() == Seq::<Span>::empty());
    assert(coalesce(st.push(chunk).1) == seq![
        PieceView::Media { data: chunk, fragment_start: false },
    ]);
}

// ---------------------------------------------------------------------------
// Fragments and the init segment
// ---------------------------------------------------------------------------

/// Whether a `moof` begins at one of the first `k` bytes.
pub open spec fn moof_before(s: Seq<u8>, left: nat, k: int) -> bool {
    exists|j: int| 0 <= j < k && #[trigger] moof_at(s, left, j)
}

/// `moof_at`, out of the solver's sight.
#[verifier::opaque]
spec fn moof(s: Seq<u8>, left: nat, k: int) -> bool {
    moof_at(s, left, k)
}

spec fn had_moof(s: Seq<u8>, left: nat, k: int) -> bool {
    exists|j: int| 0 <= j < k && #[trigger] moof(s, left, j)
}

proof fn lemma_moof(s: Seq<u8>, left: nat)
    ensures
        forall|k: int| #[trigger] moof(s, left, k) == moof_at(s, left, k),
        forall|k: int| #[trigger] moof_at(s, left, k) == moof(s, left, k),
        forall|k: int| #[trigger] had_moof(s, left, k) == moof_before(s, left, k),
        forall|k: int| #[trigger] moof_before(s, left, k) == had_moof(s, left, k),
{
    reveal(moof);
    assert forall|k: int| #[trigger] had_moof(s, left, k) == moof_before(s, left, k) by {
        if had_moof(s, left, k) {
            let j = choose|j: int| 0 <= j < k && #[trigger] moof(s, left, j);
            assert(moof_at(s, left, j));
        }
        if moof_before(s, left, k) {
            let j = choose|j: int| 0 <= j < k && #[trigger] moof_at(s, left, j);
            assert(moof(s, left, j));
        }
    }
}

/// Box boundaries do not depend on body bytes that lie behind.
proof fn lemma_boundary_skip(s: Seq<u8>, left: nat, c: int, k: int)
    requires
        0 <= c <= left,
        c <= k <= s.len(),
    ensures
        boundary(s, left, k) == boundary(s.skip(c), (left - c) as nat, k - c),
        moof(s, left, k) == moof(s.skip(c), (left - c) as nat, k - c),
{
    reveal(moof);
    assert(s.skip(c).skip(k - c) == s.skip(k));
    if k > left {
        assert(s.skip(c).skip(left - c) == s.skip(left as int));
    }
}

/// Behind a box that opens at the front, the boundaries are those behind its
/// size.
proof fn lemma_boundary_open(s: Seq<u8>, k: int)
    requires
        head(s) is Opens,
        0 < k <= s.len(),
    ensures
        boundary(s, 0, k) == boundary(s, head(s)->total, k),
        moof(s, 0, k) == moof(s, head(s)->total, k),
{
    reveal(moof);
    assert(s.skip(0) == s);
}

/// What a scan says of the bytes of `buf` is what the box structure says, where
/// the scan set out with `from` and ended with `end`.
spec fn layout(buf: Seq<u8>, from: Scan, m: Seq<Mark>, end: Scan) -> bool {
    let left = from.body_left;
    &&& forall|k: int| 0 <= k < m.len() ==> (#[trigger] m[k]).starts == moof(buf, left, k)
    &&& forall|k: int|
        0 <= k < m.len() ==> (#[trigger] m[k]).init == (from.in_init && !had_moof(
            buf,
            left,
            k + 1,
        ))
    &&& forall|k: int| m.len() <= k <= buf.len() ==> !#[trigger] moof(buf, left, k)
    &&& end.in_init == (from.in_init && !had_moof(buf, left, buf.len() as int))
    &&& end.in_init ==> end.init == from.init + mark_bytes(m)
    &&& !from.in_init ==> end.init == from.init
    &&& from.in_init && !end.in_init ==> exists|p: int|
        0 <= p < m.len() && #[trigger] moof(buf, left, p) && !had_moof(buf, left, p)
            && end.init == from.init + buf.take(p)
}

spec fn layout_ok(st: Scan, buf: Seq<u8>) -> bool {
    layout(buf, st, all_marks(st.scan(buf).1), st.scan(buf).0)
}

/// Moofs before a position, here and behind the first `n` bytes.
proof fn lemma_moofs_behind(buf: Seq<u8>, left: nat, left2: nat, n: int, k: int)
    requires
        0 < n <= k <= buf.len(),
        forall|k: int|
            n <= k <= buf.len() ==> #[trigger] moof(buf, left, k) == moof(
                buf.skip(n),
                left2,
                k - n,
            ),
        forall|k: int| 0 < k < n ==> !#[trigger] moof(buf, left, k),
    ensures
        had_moof(buf, left, k) == (moof(buf, left, 0) || had_moof(
            buf.skip(n),
            left2,
            k - n,
        )),
{
    if had_moof(buf.skip(n), left2, k - n) {
        let j = choose|j: int| 0 <= j < k - n && #[trigger] moof(buf.skip(n), left2, j);
        assert(moof(buf, left, j + n));
    }
    if had_moof(buf, left, k) && !moof(buf, left, 0) {
        let j = choose|j: int| 0 <= j < k && #[trigger] moof(buf, left, j);
        assert(j >= n);
        assert(moof(buf.skip(n), left2, j - n));
    }
}

/// The layout of a span and what stands behind it.
proof fn lemma_layout_cons(
    st: Scan,
    next: Scan,
    first: Seq<Mark>,
    start: bool,
    n: int,
    buf: Seq<u8>,
    m2: Seq<Mark>,
    end: Scan,
)
    requires
        0 < n <= buf.len(),
        first.len() == n,
        mark_bytes(first) == buf.take(n),
        m2.len() <= buf.len() - n,
        layout(buf.skip(n), next, m2, end),
        forall|k: int|
            n <= k <= buf.len() ==> #[trigger] moof(buf, st.body_left, k) == moof(
                buf.skip(n),
                next.body_left,
                k - n,
            ),
        forall|k: int| 0 < k < n ==> !#[trigger] moof(buf, st.body_left, k),
        moof(buf, st.body_left, 0) == start,
        next.in_init == (st.in_init && !start),
        forall|k: int|
            0 <= k < n ==> (#[trigger] first[k]).starts == (start && k == 0) && first[k].init
                == next.in_init,
        next.init == if next.in_init {
            st.init + buf.take(n)
        } else {
            st.init
        },
    ensures
        layout(buf, st, first + m2, end),
{
    let left = st.body_left;
    let tail = buf.skip(n);
    let m = first + m2;
    assert forall|k: int| n <= k <= buf.len() implies #[trigger] had_moof(buf, left, k) == (start
        || had_moof(tail, next.body_left, k - n)) by {
        lemma_moofs_behind(buf, left, next.body_left, n, k);
    }
    assert forall|k: int| 0 <= k <= n implies #[trigger] had_moof(buf, left, k) == (k > 0
        && start) by {
        if start && k > 0 {
            assert(moof(buf, left, 0));
        }
    }
    assert forall|k: int| 0 <= k < m.len() implies (#[trigger] m[k]).starts == moof(
        buf,
        left,
        k,
    ) by {
        if k >= n {
            assert(m[k] == m2[k - n]);
        }
    }
    assert forall|k: int| 0 <= k < m.len() implies (#[trigger] m[k]).init == (st.in_init
        && !had_moof(buf, left, k + 1)) by {
        if k >= n {
            assert(m[k] == m2[k - n]);
            assert(had_moof(buf, left, k + 1) == (start || had_moof(
                tail,
                next.body_left,
                k - n + 1,
            )));
        }
    }
    assert forall|k: int| m.len() <= k <= buf.len() implies !#[trigger] moof(buf, left, k) by {
        assert(!moof(tail, next.body_left, k - n));
    }
    assert(mark_bytes(m) == buf.take(n) + mark_bytes(m2));
    if end.in_init {
        assert(end.init == st.init + mark_bytes(m));
    }
    if st.in_init && !end.in_init {
        if start {
            assert(moof(buf, left, 0));
            assert(!had_moof(buf, left, 0));
            assert(st.init + buf.take(0) == st.init);
        } else {
            let p = choose|p: int|
                0 <= p < m2.len() && #[trigger] moof(tail, next.body_left, p) && !had_moof(
                    tail,
                    next.body_left,
                    p,
                ) && end.init == next.init + tail.take(p);
            assert(moof(buf, left, p + n));
            assert(!had_moof(buf, left, p + n));
            assert(st.init + buf.take(n) + tail.take(p) == st.init + buf.take(p + n));
        }
    }
}

proof fn lemma_layout(st: Scan, buf: Seq<u8>)
    requires
        st.header.len() == 0,
        st.sound(),
        !st.scan(buf).0.failed,
    ensures
        layout_ok(st, buf),
    decreases buf.len(),
{
    if st.failed {
    } else if buf.len() == 0 {
        lemma_layout_none(st, buf);
    } else if st.body_left > 0 {
        lemma_scan_body(st, buf);
        lemma_layout(passed(st, buf), buf.skip(within(st, buf)));
        lemma_layout_body(st, buf);
    } else if head(buf) is Opens {
        lemma_scan_opens(st, buf);
        lemma_layout(opened(st, buf).0, buf.skip(head(buf)->Opens_len));
        lemma_layout_open(st, buf);
    } else {
        lemma_layout_none(st, buf);
    }
}

proof fn lemma_layout_body(st: Scan, buf: Seq<u8>)
    requires
        st.header.len() == 0,
        st.sound(),
        !st.failed,
        st.body_left > 0,
        buf.len() > 0,
        layout_ok(passed(st, buf), buf.skip(within(st, buf))),
    ensures
        layout_ok(st, buf),
{
    lemma_scan_body(st, buf);
    let n = within(st, buf);
    let next = passed(st, buf);
    lemma_scan_bytes(next, buf.skip(n));
    let (end, rest) = next.scan(buf.skip(n));
    let m2 = all_marks(rest);
    assert(m2.len() <= buf.len() - n) by {
        assert((mark_bytes(m2) + end.header).len() == buf.len() - n);
    }
    lemma_cons(st.span(buf.take(n)), rest);
    let first = span_marks(st.span(buf.take(n)));
    assert(mark_bytes(first) == buf.take(n));
    assert forall|k: int| n <= k <= buf.len() implies #[trigger] moof(buf, st.body_left, k) == moof(
        buf.skip(n),
        next.body_left,
        k - n,
    ) by {
        lemma_boundary_skip(buf, st.body_left, n, k);
    }
    assert forall|k: int| 0 <= k < n implies !#[trigger] moof(buf, st.body_left, k) by {
        reveal(moof);
    }
    lemma_layout_cons(st, next, first, false, n, buf, m2, end);
}

proof fn lemma_layout_open(st: Scan, buf: Seq<u8>)
    requires
        st.header.len() == 0,
        st.sound(),
        !st.failed,
        st.body_left == 0,
        buf.len() > 0,
        head(buf) is Opens,
        st.started || may_open(head(buf)->kind),
        layout_ok(opened(st, buf).0, buf.skip(head(buf)->Opens_len)),
    ensures
        layout_ok(st, buf),
{
    lemma_scan_opens(st, buf);
    let len = head(buf)->Opens_len;
    let start = head(buf)->kind == MOOF;
    let (next, first) = opened(st, buf);
    lemma_scan_bytes(next, buf.skip(len));
    let (end, rest) = next.scan(buf.skip(len));
    let m2 = all_marks(rest);
    assert(m2.len() <= buf.len() - len) by {
        assert((mark_bytes(m2) + end.header).len() == buf.len() - len);
    }
    lemma_cons(first, rest);
    let marked = span_marks(first);
    assert(mark_bytes(marked) == buf.take(len));
    assert forall|k: int| len <= k <= buf.len() implies #[trigger] moof(buf, 0, k) == moof(
        buf.skip(len),
        next.body_left,
        k - len,
    ) by {
        lemma_boundary_open(buf, k);
        lemma_boundary_skip(buf, head(buf)->total, len, k);
    }
    assert forall|k: int| 0 < k < len implies !#[trigger] moof(buf, 0, k) by {
        lemma_boundary_open(buf, k);
        reveal(moof);
    }
    assert(moof(buf, 0, 0) == start) by {
        reveal(moof);
        assert(buf.skip(0) == buf);
    }
    lemma_layout_cons(st, next, marked, start, len, buf, m2, end);
}

/// Where nothing comes out, nothing begins.
proof fn lemma_layout_none(st: Scan, buf: Seq<u8>)
    requires
        !st.failed,
        buf.len() == 0 || (st.body_left == 0 && head(buf) is Partial),
    ensures
        layout_ok(st, buf),
{
    assert forall|k: int| 0 <= k <= buf.len() implies !#[trigger] moof(
        buf,
        st.body_left,
        k,
    ) by {
        reveal(moof);
        assert(buf.skip(0) == buf);
    }
    assert(!had_moof(buf, st.body_left, buf.len() as int));
    assert(st.init + mark_bytes(Seq::<Mark>::empty()) == st.init);
}

/// A fragment start is announced at a byte exactly where a `moof` box begins,
/// and a byte counts as part of the init segment exactly where no `moof` has
/// begun up to it: of any stream that parses, and wherever its chunks end.
pub proof fn law_fragments(chunks: Seq<Seq<u8>>)
    requires
        !feed(Scan::fresh(), chunks).0.failed,
    ensures
        ({
            let all = stream(chunks);
            let m = marks(feed(Scan::fresh(), chunks).1);
            &&& m.len() <= all.len() <= m.len() + 15
            &&& forall|k: int| 0 <= k < m.len() ==> (#[trigger] m[k]).byte == all[k]
            &&& forall|k: int| 0 <= k < m.len() ==> (#[trigger] m[k]).starts == moof_at(all, 0, k)
            &&& forall|k: int|
                0 <= k < m.len() ==> (#[trigger] m[k]).init == !moof_before(all, 0, k + 1)
            &&& forall|k: int| m.len() <= k <= all.len() ==> !#[trigger] moof_at(all, 0, k)
        }),
{
    let fresh = Scan::fresh();
    let all = stream(chunks);
    law_any_chunks(chunks);
    assert(fresh.header + all == all);
    assert(fresh == Scan { header: Seq::empty(), ..fresh });
    lemma_push_marks(fresh, all);
    lemma_scan_bytes(fresh, all);
    lemma_layout(fresh, all);
    lemma_moof(all, 0);
    let m = marks(feed(fresh, chunks).1);
    assert(mark_bytes(m) + fresh.scan(all).0.header == all);
    assert forall|k: int| 0 <= k < m.len() implies (#[trigger] m[k]).byte == all[k] by {
        assert((mark_bytes(m) + fresh.scan(all).0.header)[k] == mark_bytes(m)[k]);
    }
}

/// The init segment is everything before the first `moof`. It is to be had as
/// soon as that `moof` has been identified, of any stream that parses, unless
/// there is nothing before it.
pub proof fn law_init_segment(chunks: Seq<Seq<u8>>)
    requires
        !feed(Scan::fresh(), chunks).0.failed,
    ensures
        ({
            let all = stream(chunks);
            match feed(Scan::fresh(), chunks).0.segment() {
                Some(segment) => {
                    &&& segment.len() > 0
                    &&& segment.len() <= all.len()
                    &&& segment == all.take(segment.len() as int)
                    &&& moof_at(all, 0, segment.len() as int)
                    &&& !moof_before(all, 0, segment.len() as int)
                },
                None => moof_at(all, 0, 0) || !moof_before(all, 0, all.len() as int),
            }
        }),
{
    let fresh = Scan::fresh();
    let all = stream(chunks);
    law_any_chunks(chunks);
    assert(fresh.header + all == all);
    assert(fresh == Scan { header: Seq::empty(), ..fresh });
    lemma_scan_bytes(fresh, all);
    lemma_layout(fresh, all);
    lemma_moof(all, 0);
    let end = fresh.scan(all).0;
    if !end.in_init {
        let m = all_marks(fresh.scan(all).1);
        let p = choose|p: int|
            0 <= p < m.len() && #[trigger] moof(all, 0, p) && !had_moof(all, 0, p)
                && end.init == fresh.init + all.take(p);
        assert(m.len() <= all.len()) by {
            assert((mark_bytes(m) + end.header).len() == all.len());
        }
        assert(fresh.init + all.take(p) == all.take(p));
    }
}

} // verus!
