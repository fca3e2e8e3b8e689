//! What the scanner takes for a box.

use vstd::prelude::*;

use crate::mp4::{be32, be64, boundary, head, moof_at, Head, Scan};

verus! {

/// A number as four octets, the highest first.
pub open spec fn four(n: nat) -> Seq<u8> {
    seq![
        (n / 0x100_0000 % 0x100) as u8,
        (n / 0x1_0000 % 0x100) as u8,
        (n / 0x100 % 0x100) as u8,
        (n % 0x100) as u8,
    ]
}

/// A box with its size in four octets: how long it is, what it is, what it holds.
pub open spec fn short_box(kind: Seq<u8>, body: Seq<u8>) -> Seq<u8> {
    four(8 + body.len()) + kind + body
}

/// A box with its size in eight octets, behind what it is.
pub open spec fn long_box(kind: Seq<u8>, body: Seq<u8>) -> Seq<u8> {
    four(1) + kind + four((16 + body.len()) / 0x1_0000_0000) + four(
        (16 + body.len()) % 0x1_0000_0000,
    ) + body
}

/// `moof` in ASCII.
pub open spec fn moof() -> Seq<u8> {
    seq![0x6d, 0x6f, 0x6f, 0x66]
}

/// `ftyp` in ASCII.
pub open spec fn ftyp() -> Seq<u8> {
    seq![0x66, 0x74, 0x79, 0x70]
}

/// `styp` in ASCII.
pub open spec fn styp() -> Seq<u8> {
    seq![0x73, 0x74, 0x79, 0x70]
}

/// Whether `s` begins with a box of `size` bytes and that type, with a header of
/// `len` bytes.
spec fn begins_with(s: Seq<u8>, len: int, size: nat, kind: Seq<u8>) -> bool {
    head(s) == (Head::Opens { len, total: size, kind: be32(kind, 0) })
}

proof fn lemma_four(n: nat, s: Seq<u8>, at: int)
    requires
        n < 0x1_0000_0000,
        0 <= at,
        at + 4 <= s.len(),
        forall|k: int| 0 <= k < 4 ==> #[trigger] s[at + k] == four(n)[k],
    ensures
        be32(s, at) == n,
{
    assert(s[at + 0] == four(n)[0]);
    assert(s[at + 1] == four(n)[1]);
    assert(s[at + 2] == four(n)[2]);
    assert(s[at + 3] == four(n)[3]);
}

proof fn lemma_kinds(a: Seq<u8>, b: Seq<u8>)
    requires
        a.len() == 4,
        b.len() == 4,
    ensures
        be32(a, 0) == be32(b, 0) <==> a == b,
{
    if be32(a, 0) == be32(b, 0) {
        assert(a[0] == b[0] && a[1] == b[1] && a[2] == b[2] && a[3] == b[3]);
        assert(a == b);
    }
}

proof fn lemma_short(kind: Seq<u8>, body: Seq<u8>, rest: Seq<u8>)
    requires
        kind.len() == 4,
        short_box(kind, body).len() < 0x1_0000_0000,
    ensures
        begins_with(short_box(kind, body) + rest, 8, short_box(kind, body).len(), kind),
{
    let s = short_box(kind, body) + rest;
    let n = (8 + body.len()) as nat;
    assert forall|k: int| 0 <= k < 4 implies #[trigger] s[0 + k] == four(n)[k] by {}
    lemma_four(n, s, 0);
    assert(s[4] == kind[0] && s[5] == kind[1] && s[6] == kind[2] && s[7] == kind[3]);
    assert(be32(s, 4) == be32(kind, 0));
}

proof fn lemma_long(kind: Seq<u8>, body: Seq<u8>, rest: Seq<u8>)
    requires
        kind.len() == 4,
        long_box(kind, body).len() <= u64::MAX,
    ensures
        begins_with(long_box(kind, body) + rest, 16, long_box(kind, body).len(), kind),
{
    let s = long_box(kind, body) + rest;
    let n = (16 + body.len()) as nat;
    assert forall|k: int| 0 <= k < 4 implies #[trigger] s[0 + k] == four(1)[k] by {}
    lemma_four(1, s, 0);
    assert(s[4] == kind[0] && s[5] == kind[1] && s[6] == kind[2] && s[7] == kind[3]);
    assert(be32(s, 4) == be32(kind, 0));
    assert forall|k: int| 0 <= k < 4 implies #[trigger] s[8 + k] == four(n / 0x1_0000_0000)[k] by {}
    assert forall|k: int| 0 <= k < 4 implies #[trigger] s[12 + k] == four(
        n % 0x1_0000_0000,
    )[k] by {}
    lemma_four(n / 0x1_0000_0000, s, 8);
    lemma_four(n % 0x1_0000_0000, s, 12);
    assert(be64(s, 8) == n);
}

proof fn lemma_inside(s: Seq<u8>, len: int, size: nat, kind: Seq<u8>, k: int)
    requires
        begins_with(s, len, size, kind),
        0 < k < size,
    ensures
        !boundary(s, 0, k),
{
    assert(s.skip(0) == s);
    assert(boundary(s, 0, k) == boundary(s, size, k));
}

proof fn lemma_behind(s: Seq<u8>, len: int, size: nat, kind: Seq<u8>, k: int)
    requires
        begins_with(s, len, size, kind),
        0 < size <= s.len(),
        0 <= k,
    ensures
        boundary(s, 0, size + k) == boundary(s.skip(size as int), 0, k),
{
    let rest = s.skip(size as int);
    assert(s.skip(0) == s);
    assert(rest.skip(0) == rest);
    assert(boundary(s, 0, size + k) == boundary(s, size, size + k));
    if k > 0 {
        match head(rest) {
            Head::Opens { total, .. } => {
                if total > 0 {
                    assert(boundary(s, size, size + k) == boundary(rest, total, k));
                    assert(boundary(rest, 0, k) == boundary(rest, total, k));
                }
            },
            _ => {},
        }
    }
}

proof fn lemma_box(s: Seq<u8>, len: int, size: nat, kind: Seq<u8>, k: int)
    requires
        kind.len() == 4,
        begins_with(s, len, size, kind),
        0 < size <= s.len(),
    ensures
        0 < k < size ==> !boundary(s, 0, k),
        0 <= k ==> boundary(s, 0, size + k) == boundary(s.skip(size as int), 0, k),
        moof_at(s, 0, 0) <==> kind == moof(),
{
    if 0 < k < size {
        lemma_inside(s, len, size, kind, k);
    }
    if 0 <= k {
        lemma_behind(s, len, size, kind, k);
    }
    assert(s.skip(0) == s);
    lemma_kinds(kind, moof());
}

/// A stream of boxes is followed from one box to the next, whichever way their
/// sizes are written: the next box begins where the one before ends, and nowhere
/// in it. A fragment begins with a box that is named `moof`, and with no other.
pub proof fn law_boxes_are_followed(kind: Seq<u8>, body: Seq<u8>, rest: Seq<u8>, k: int)
    requires
        kind.len() == 4,
    ensures
        ({
            let b = short_box(kind, body);
            let s = b + rest;
            b.len() < 0x1_0000_0000 ==> {
                &&& 0 < k < b.len() ==> !boundary(s, 0, k)
                &&& 0 <= k ==> boundary(s, 0, b.len() + k) == boundary(rest, 0, k)
                &&& moof_at(s, 0, 0) <==> kind == moof()
            }
        }),
        ({
            let b = long_box(kind, body);
            let s = b + rest;
            b.len() <= u64::MAX ==> {
                &&& 0 < k < b.len() ==> !boundary(s, 0, k)
                &&& 0 <= k ==> boundary(s, 0, b.len() + k) == boundary(rest, 0, k)
                &&& moof_at(s, 0, 0) <==> kind == moof()
            }
        }),
{
    let short = short_box(kind, body);
    if short.len() < 0x1_0000_0000 {
        lemma_short(kind, body, rest);
        lemma_box(short + rest, 8, short.len(), kind, k);
        assert((short + rest).skip(short.len() as int) == rest);
    }
    let long = long_box(kind, body);
    if long.len() <= u64::MAX {
        lemma_long(kind, body, rest);
        lemma_box(long + rest, 16, long.len(), kind, k);
        assert((long + rest).skip(long.len() as int) == rest);
    }
}

/// A stream opens with `ftyp`, `styp` or `moof`: where it opens with another box,
/// its structure is taken to be broken, and where it opens with one of these, that
/// box is let through.
pub proof fn law_streams_open_with_a_known_box(kind: Seq<u8>, body: Seq<u8>, rest: Seq<u8>)
    requires
        kind.len() == 4,
        short_box(kind, body).len() < 0x1_0000_0000,
    ensures
        ({
            let b = short_box(kind, body);
            if kind == ftyp() || kind == styp() || kind == moof() {
                &&& !Scan::fresh().push(b).0.failed
                &&& Scan::fresh().push(b).0.in_init == (kind != moof())
            } else {
                Scan::fresh().push(b + rest).0.failed
            }
        }),
{
    let b = short_box(kind, body);
    let fresh = Scan::fresh();
    lemma_short(kind, body, rest);
    lemma_short(kind, body, Seq::empty());
    assert(b + Seq::<u8>::empty() == b);
    lemma_kinds(kind, ftyp());
    lemma_kinds(kind, styp());
    lemma_kinds(kind, moof());
    assert(fresh.header + b == b);
    assert(fresh.header + (b + rest) == b + rest);
    assert(fresh == Scan { header: Seq::empty(), ..fresh });
    if kind == ftyp() || kind == styp() || kind == moof() {
        let seen = Scan { started: true, in_init: kind != moof(), ..fresh };
        let next = Scan { body_left: body.len(), ..seen.past(b.take(8)) };
        assert(b.skip(8) == body);
        assert(fresh.scan(b).0 == next.scan(body).0);
        if body.len() > 0 {
            assert(body.take(body.len() as int) == body);
            let done = Scan { body_left: 0, ..next.past(body) };
            assert(body.skip(body.len() as int).len() == 0);
            assert(next.scan(body).0 == done.scan(body.skip(body.len() as int)).0);
        }
    }
}

/// A box that claims to be shorter than its own header breaks the structure of the
/// stream, wherever it comes. So does one that claims to go on to the end.
pub proof fn law_impossible_sizes_break_the_stream(st: Scan, size: nat, kind: Seq<u8>, rest: Seq<u8>)
    requires
        st.sound(),
        !st.failed,
        st.header.len() == 0,
        st.body_left == 0,
        kind.len() == 4,
    ensures
        size < 8 && size != 1 ==> st.push(four(size) + kind + rest).0.failed,
        size < 16 ==> st.push(four(1) + kind + four(0) + four(size) + rest).0.failed,
{
    assert(st == Scan { header: Seq::empty(), ..st });
    if size < 8 {
        let s = four(size) + kind + rest;
        assert(st.header + s == s);
        assert forall|k: int| 0 <= k < 4 implies #[trigger] s[0 + k] == four(size)[k] by {}
        lemma_four(size, s, 0);
    }
    if size < 16 {
        let s = four(1) + kind + four(0) + four(size) + rest;
        assert(st.header + s == s);
        assert forall|k: int| 0 <= k < 4 implies #[trigger] s[0 + k] == four(1)[k] by {}
        lemma_four(1, s, 0);
        assert forall|k: int| 0 <= k < 4 implies #[trigger] s[8 + k] == four(0)[k] by {}
        lemma_four(0, s, 8);
        assert forall|k: int| 0 <= k < 4 implies #[trigger] s[12 + k] == four(size)[k] by {}
        lemma_four(size, s, 12);
    }
}

} // verus!
