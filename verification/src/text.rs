//! Text as sequences of characters.
//!
//! The functions that read text work on slices of `char`, so that an index is
//! a position in the character sequence that the contracts speak of.

use vstd::prelude::*;
use vstd::slice::slice_subrange;

verus! {

/// `String::push`: appends one character.
pub assume_specification[ String::push ](s: &mut String, c: char)
    ensures
        final(s)@ == old(s)@.push(c),
;

// ---------------------------------------------------------------------------
// Strings and characters
// ---------------------------------------------------------------------------

/// The texts of a list of strings.
pub open spec fn texts(list: Seq<String>) -> Seq<Seq<char>> {
    Seq::new(list.len(), |i: int| list[i]@)
}

/// The text of an optional string.
pub open spec fn text_of(s: Option<String>) -> Option<Seq<char>> {
    match s {
        Some(t) => Some(t@),
        None => None,
    }
}

/// The characters of `s`.
pub(crate) fn to_chars(s: &str) -> (v: Vec<char>)
    ensures
        v@ == s@,
{
    let mut v: Vec<char> = Vec::new();
    for c in it: s.chars()
        invariant
            it.seq() == s@,
            v@ == s@.take(it.index() as int),
    {
        v.push(c);
        assert(s@.take(it.index() as int + 1) == s@.take(it.index() as int).push(c));
    }
    assert(s@.take(s@.len() as int) == s@);
    v
}

/// The string that holds the characters `v`.
pub(crate) fn to_text(v: &[char]) -> (s: String)
    ensures
        s@ == v@,
{
    let mut s = String::new();
    let mut i: usize = 0;
    while i < v.len()
        invariant
            i <= v.len(),
            s@ == v@.take(i as int),
        decreases v.len() - i,
    {
        s.push(v[i]);
        assert(v@.take(i + 1) == v@.take(i as int).push(v@[i as int]));
        i += 1;
    }
    assert(v@.take(v@.len() as int) == v@);
    s
}

/// Whether two texts are the same.
pub(crate) fn same_text(a: &str, b: &str) -> (r: bool)
    ensures
        r == (a@ == b@),
{
    let x = to_chars(a);
    let y = to_chars(b);
    same_chars(x.as_slice(), y.as_slice())
}

/// Whether two character sequences are the same.
pub(crate) fn same_chars(a: &[char], b: &[char]) -> (r: bool)
    ensures
        r == (a@ == b@),
{
    if a.len() != b.len() {
        return false;
    }
    let mut i: usize = 0;
    while i < a.len()
        invariant
            i <= a.len(),
            a.len() == b.len(),
            forall|j: int| 0 <= j < i ==> a@[j] == b@[j],
        decreases a.len() - i,
    {
        if a[i] != b[i] {
            return false;
        }
        i += 1;
    }
    assert(a@ == b@);
    true
}

// ---------------------------------------------------------------------------
// Searching and splitting
// ---------------------------------------------------------------------------

/// The first position at which `c` stands in `s`.
pub open spec fn index_of(s: Seq<char>, c: char) -> Option<int>
    decreases s.len(),
{
    if s.len() == 0 {
        None
    } else if s[0] == c {
        Some(0)
    } else {
        match index_of(s.drop_first(), c) {
            Some(i) => Some(i + 1),
            None => None,
        }
    }
}

/// The last position at which `c` stands in `s`.
pub open spec fn last_index_of(s: Seq<char>, c: char) -> Option<int>
    decreases s.len(),
{
    if s.len() == 0 {
        None
    } else if s.last() == c {
        Some(s.len() - 1)
    } else {
        last_index_of(s.drop_last(), c)
    }
}

/// `index_of` gives a position of `c` before which there is no other, and none
/// only where `c` does not stand in `s`.
pub proof fn lemma_index_of(s: Seq<char>, c: char)
    ensures
        match index_of(s, c) {
            Some(i) => 0 <= i < s.len() && s[i] == c && forall|j: int| 0 <= j < i ==> s[j] != c,
            None => forall|j: int| 0 <= j < s.len() ==> s[j] != c,
        },
    decreases s.len(),
{
    if s.len() > 0 && s[0] != c {
        let rest = s.drop_first();
        lemma_index_of(rest, c);
        assert forall|j: int| 0 < j < s.len() implies s[j] == rest[j - 1] by {}
    }
}

/// `last_index_of` gives a position of `c` after which there is no other, and
/// none only where `c` does not stand in `s`.
pub proof fn lemma_last_index_of(s: Seq<char>, c: char)
    ensures
        match last_index_of(s, c) {
            Some(i) => 0 <= i < s.len() && s[i] == c && forall|j: int|
                i < j < s.len() ==> s[j] != c,
            None => forall|j: int| 0 <= j < s.len() ==> s[j] != c,
        },
    decreases s.len(),
{
    if s.len() > 0 && s.last() != c {
        let rest = s.drop_last();
        lemma_last_index_of(rest, c);
        assert forall|j: int| 0 <= j < s.len() - 1 implies s[j] == rest[j] by {}
    }
}

/// The position of the first `c` in `s`.
pub(crate) fn find(s: &[char], c: char) -> (r: Option<usize>)
    ensures
        match r {
            Some(i) => i < s@.len() && index_of(s@, c) == Some(i as int),
            None => index_of(s@, c) is None,
        },
{
    let mut i: usize = 0;
    while i < s.len()
        invariant
            i <= s.len(),
            forall|j: int| 0 <= j < i ==> s@[j] != c,
        decreases s.len() - i,
    {
        if s[i] == c {
            proof {
                lemma_index_of(s@, c);
            }
            return Some(i);
        }
        i += 1;
    }
    proof {
        lemma_index_of(s@, c);
    }
    None
}

/// Whether `c` stands in `s`.
pub(crate) fn contains_char(s: &[char], c: char) -> (r: bool)
    ensures
        r == s@.contains(c),
{
    proof {
        lemma_index_of(s@, c);
    }
    match find(s, c) {
        Some(i) => {
            assert(s@[i as int] == c);
            true
        },
        None => false,
    }
}

/// The position of the last `c` in `s`.
pub(crate) fn rfind(s: &[char], c: char) -> (r: Option<usize>)
    ensures
        match r {
            Some(i) => i < s@.len() && last_index_of(s@, c) == Some(i as int),
            None => last_index_of(s@, c) is None,
        },
{
    let mut i: usize = s.len();
    while i > 0
        invariant
            i <= s.len(),
            forall|j: int| i <= j < s@.len() ==> s@[j] != c,
        decreases i,
    {
        i -= 1;
        if s[i] == c {
            proof {
                lemma_last_index_of(s@, c);
            }
            return Some(i);
        }
    }
    proof {
        lemma_last_index_of(s@, c);
    }
    None
}

/// The text before and the text after the first `c`, where there is one.
pub open spec fn split_once(s: Seq<char>, c: char) -> Option<(Seq<char>, Seq<char>)> {
    match index_of(s, c) {
        Some(i) => Some((s.take(i), s.skip(i + 1))),
        None => None,
    }
}

/// The parts of `s` between its separators `c`, in order: one more than there
/// are separators.
pub open spec fn split(s: Seq<char>, c: char) -> Seq<Seq<char>>
    decreases s.len(),
    via split_shrinks
{
    match index_of(s, c) {
        Some(i) => seq![s.take(i)] + split(s.skip(i + 1), c),
        None => seq![s],
    }
}

#[via_fn]
proof fn split_shrinks(s: Seq<char>, c: char) {
    lemma_index_of(s, c);
}

/// Whether `p` stands somewhere in `s`.
pub open spec fn contains_text(s: Seq<char>, p: Seq<char>) -> bool {
    exists|i: int| 0 <= i <= s.len() - p.len() && #[trigger] s.subrange(i, i + p.len()) == p
}

/// Whether `s` begins with `p`.
pub(crate) fn starts_with(s: &[char], p: &[char]) -> (r: bool)
    ensures
        r == p@.is_prefix_of(s@),
{
    if p.len() > s.len() {
        return false;
    }
    let head = slice_subrange(s, 0, p.len());
    proof {
        assert(s@.subrange(0, p@.len() as int) == s@.take(p@.len() as int));
    }
    same_chars(head, p)
}

/// Whether `p` stands somewhere in `s`.
pub(crate) fn has_text(s: &[char], p: &[char]) -> (r: bool)
    ensures
        r == contains_text(s@, p@),
{
    if p.len() > s.len() {
        return false;
    }
    let last: usize = s.len() - p.len();
    let mut i: usize = 0;
    while i < last
        invariant
            p.len() <= s.len(),
            last == s.len() - p.len(),
            i <= last,
            forall|j: int| 0 <= j < i ==> #[trigger] s@.subrange(j, j + p@.len()) != p@,
        decreases last - i,
    {
        if same_chars(slice_subrange(s, i, i + p.len()), p) {
            return true;
        }
        i += 1;
    }
    let r = same_chars(slice_subrange(s, last, s.len()), p);
    assert(r ==> s@.subrange(last as int, last + p@.len()) == p@);
    assert forall|j: int| 0 <= j <= last implies r || #[trigger] s@.subrange(j, j + p@.len()) != p@ by {}
    r
}

// ---------------------------------------------------------------------------
// White space and case
// ---------------------------------------------------------------------------

/// Unicode's `White_Space` characters.
pub open spec fn is_white(c: char) -> bool {
    let n = c as int;
    ||| 0x9 <= n <= 0xd
    ||| n == 0x20
    ||| n == 0x85
    ||| n == 0xa0
    ||| n == 0x1680
    ||| 0x2000 <= n <= 0x200a
    ||| n == 0x2028
    ||| n == 0x2029
    ||| n == 0x202f
    ||| n == 0x205f
    ||| n == 0x3000
}

fn white(c: char) -> (r: bool)
    ensures
        r == is_white(c),
{
    let n: u32 = c as u32;
    (0x9 <= n && n <= 0xd) || n == 0x20 || n == 0x85 || n == 0xa0 || n == 0x1680 || (0x2000 <= n
        && n <= 0x200a) || n == 0x2028 || n == 0x2029 || n == 0x202f || n == 0x205f || n == 0x3000
}

/// `s` without the white space it begins with.
pub open spec fn trim_start(s: Seq<char>) -> Seq<char>
    decreases s.len(),
{
    if s.len() > 0 && is_white(s[0]) {
        trim_start(s.drop_first())
    } else {
        s
    }
}

/// `s` without the white space it ends with.
pub open spec fn trim_end(s: Seq<char>) -> Seq<char>
    decreases s.len(),
{
    if s.len() > 0 && is_white(s.last()) {
        trim_end(s.drop_last())
    } else {
        s
    }
}

/// `s` without the white space around it.
pub open spec fn trim(s: Seq<char>) -> Seq<char> {
    trim_end(trim_start(s))
}

/// `s` without the carriage returns and line feeds it ends with.
pub open spec fn trim_newlines(s: Seq<char>) -> Seq<char>
    decreases s.len(),
{
    if s.len() > 0 && (s.last() == '\r' || s.last() == '\n') {
        trim_newlines(s.drop_last())
    } else {
        s
    }
}

/// How many characters stand before the first white space of `s`.
pub open spec fn word_len(s: Seq<char>) -> int
    decreases s.len(),
{
    if s.len() == 0 || is_white(s[0]) {
        0
    } else {
        1 + word_len(s.drop_first())
    }
}

/// The words of `s`: its longest runs without white space, in order.
pub open spec fn words(s: Seq<char>) -> Seq<Seq<char>>
    decreases s.len(),
    via words_shrink
{
    let t = trim_start(s);
    if t.len() == 0 {
        Seq::empty()
    } else {
        seq![t.take(word_len(t))] + words(t.skip(word_len(t)))
    }
}

#[via_fn]
proof fn words_shrink(s: Seq<char>) {
    lemma_trim_start_len(s);
    lemma_word_len(trim_start(s));
}

proof fn lemma_trim_start_len(s: Seq<char>)
    ensures
        trim_start(s).len() <= s.len(),
        trim_start(s).len() > 0 ==> !is_white(trim_start(s)[0]),
    decreases s.len(),
{
    if s.len() > 0 && is_white(s[0]) {
        lemma_trim_start_len(s.drop_first());
    }
}

proof fn lemma_word_len(s: Seq<char>)
    ensures
        0 <= word_len(s) <= s.len(),
        s.len() > 0 && !is_white(s[0]) ==> word_len(s) > 0,
    decreases s.len(),
{
    if s.len() > 0 && !is_white(s[0]) {
        lemma_word_len(s.drop_first());
    }
}

/// `s` without the white space it begins with.
fn skip_white(s: &[char]) -> (r: &[char])
    ensures
        r@ == trim_start(s@),
{
    let mut i: usize = 0;
    assert(s@.skip(0) == s@);
    while i < s.len() && white(s[i])
        invariant
            i <= s.len(),
            trim_start(s@.skip(i as int)) == trim_start(s@),
        decreases s.len() - i,
    {
        assert(s@.skip(i as int).drop_first() == s@.skip(i + 1));
        i += 1;
    }
    assert(s@.subrange(i as int, s@.len() as int) == s@.skip(i as int));
    slice_subrange(s, i, s.len())
}

/// `s` without the white space around it.
pub(crate) fn trimmed(s: &[char]) -> (r: &[char])
    ensures
        r@ == trim(s@),
{
    let t = skip_white(s);
    let mut n: usize = t.len();
    assert(t@.take(n as int) == t@);
    while n > 0 && white(t[n - 1])
        invariant
            n <= t.len(),
            trim_end(t@.take(n as int)) == trim_end(t@),
        decreases n,
    {
        assert(t@.take(n as int).drop_last() == t@.take(n - 1));
        n -= 1;
    }
    assert(t@.subrange(0, n as int) == t@.take(n as int));
    slice_subrange(t, 0, n)
}

/// `s` without the carriage returns and line feeds it ends with.
pub(crate) fn without_newlines(s: &[char]) -> (r: &[char])
    ensures
        r@ == trim_newlines(s@),
{
    let mut n: usize = s.len();
    assert(s@.take(n as int) == s@);
    while n > 0 && (s[n - 1] == '\r' || s[n - 1] == '\n')
        invariant
            n <= s.len(),
            trim_newlines(s@.take(n as int)) == trim_newlines(s@),
        decreases n,
    {
        assert(s@.take(n as int).drop_last() == s@.take(n - 1));
        n -= 1;
    }
    assert(s@.subrange(0, n as int) == s@.take(n as int));
    slice_subrange(s, 0, n)
}

/// The length of the word that `s` begins with.
fn measure_word(s: &[char]) -> (n: usize)
    ensures
        n == word_len(s@),
        n <= s.len(),
{
    let mut n: usize = 0;
    assert(s@.skip(0) == s@);
    while n < s.len() && !white(s[n])
        invariant
            n <= s.len(),
            n + word_len(s@.skip(n as int)) == word_len(s@),
        decreases s.len() - n,
    {
        assert(s@.skip(n as int).drop_first() == s@.skip(n + 1));
        n += 1;
    }
    n
}

/// The second word of `s`.
pub(crate) fn second_word(s: &[char]) -> (r: Option<&[char]>)
    ensures
        match r {
            Some(w) => words(s@).len() > 1 && w@ == words(s@)[1],
            None => words(s@).len() <= 1,
        },
{
    proof {
        reveal_with_fuel(words, 3);
    }
    let t = skip_white(s);
    if t.len() == 0 {
        return None;
    }
    let n: usize = measure_word(t);
    assert(t@.subrange(n as int, t@.len() as int) == t@.skip(n as int));
    let u = skip_white(slice_subrange(t, n, t.len()));
    if u.len() == 0 {
        return None;
    }
    let m: usize = measure_word(u);
    assert(u@.subrange(0, m as int) == u@.take(m as int));
    Some(slice_subrange(u, 0, m))
}

/// The lower-case form of an ASCII letter; any other character itself.
pub open spec fn lower(c: char) -> char {
    if 'A' <= c <= 'Z' {
        (c as int + 32) as char
    } else {
        c
    }
}

/// `s` with its ASCII letters in lower case.
pub open spec fn lowered(s: Seq<char>) -> Seq<char> {
    Seq::new(s.len(), |i: int| lower(s[i]))
}

/// `s` with its ASCII letters in lower case.
pub(crate) fn to_lower(s: &[char]) -> (r: Vec<char>)
    ensures
        r@ == lowered(s@),
{
    let mut r: Vec<char> = Vec::new();
    let mut i: usize = 0;
    while i < s.len()
        invariant
            i <= s.len(),
            r@ == lowered(s@).take(i as int),
        decreases s.len() - i,
    {
        let c: char = s[i];
        let d: char = if 'A' <= c && c <= 'Z' {
            ((c as u8) + 32) as char
        } else {
            c
        };
        r.push(d);
        assert(lowered(s@).take(i + 1) == lowered(s@).take(i as int).push(lower(c)));
        i += 1;
    }
    assert(lowered(s@).take(s@.len() as int) == lowered(s@));
    r
}

// ---------------------------------------------------------------------------
// Numbers
// ---------------------------------------------------------------------------

/// The value of a digit, in either case, in a base of up to sixteen.
pub open spec fn digit_value(c: char, base: nat) -> Option<nat> {
    let v = if '0' <= c <= '9' {
        Some((c as int - '0' as int) as nat)
    } else if 'a' <= c <= 'f' {
        Some((c as int - 'a' as int + 10) as nat)
    } else if 'A' <= c <= 'F' {
        Some((c as int - 'A' as int + 10) as nat)
    } else {
        None
    };
    match v {
        Some(d) if d < base => Some(d),
        _ => None,
    }
}

/// The value of a run of digits, most significant first; the empty run is 0.
pub open spec fn digits_value(s: Seq<char>, base: nat) -> Option<nat>
    decreases s.len(),
{
    if s.len() == 0 {
        Some(0)
    } else {
        match (digits_value(s.drop_last(), base), digit_value(s.last(), base)) {
            (Some(v), Some(d)) => Some(v * base + d),
            _ => None,
        }
    }
}

/// The number that `s` writes: an optional `+`, then at least one digit and
/// nothing else, of a value of at most `max`.
pub open spec fn number(s: Seq<char>, base: nat, max: nat) -> Option<nat> {
    let digits = if s.len() > 0 && s[0] == '+' {
        s.drop_first()
    } else {
        s
    };
    match digits_value(digits, base) {
        Some(v) if digits.len() > 0 && v <= max => Some(v),
        _ => None,
    }
}

/// The digit of value `d` in lower case.
pub open spec fn digit(d: nat) -> char {
    if d < 10 {
        ('0' as int + d) as char
    } else {
        ('a' as int + d - 10) as char
    }
}

/// `n` written in base `base` (two to sixteen), without leading zeros.
pub open spec fn numeral(n: nat, base: nat) -> Seq<char>
    decreases n,
{
    if base < 2 || n < base {
        seq![digit(n)]
    } else {
        proof {
            vstd::arithmetic::div_mod::lemma_div_decreases(n as int, base as int);
        }
        numeral(n / base, base).push(digit(n % base))
    }
}

/// A run of digits with a run of one or more digits behind it is worth at least
/// as much as alone.
proof fn lemma_digits_grow(s: Seq<char>, k: int, base: nat)
    requires
        0 <= k <= s.len(),
        base >= 2,
        digits_value(s, base) is Some,
    ensures
        digits_value(s.take(k), base) is Some,
        digits_value(s.take(k), base)->0 <= digits_value(s, base)->0,
    decreases s.len() - k,
{
    if k == s.len() {
        assert(s.take(k) == s);
    } else {
        lemma_digits_grow(s, k + 1, base);
        assert(s.take(k + 1).drop_last() == s.take(k));
        let v = digits_value(s.take(k), base)->0;
        assert(v * base >= v) by (nonlinear_arith)
            requires
                base >= 2,
                v >= 0,
        ;
    }
}

fn value_of_digit(c: char, base: u64) -> (r: Option<u64>)
    requires
        2 <= base <= 16,
    ensures
        match r {
            Some(d) => digit_value(c, base as nat) == Some(d as nat) && d < base,
            None => digit_value(c, base as nat) is None,
        },
{
    let d: u64 = if '0' <= c && c <= '9' {
        (c as u64) - ('0' as u64)
    } else if 'a' <= c && c <= 'f' {
        (c as u64) - ('a' as u64) + 10
    } else if 'A' <= c && c <= 'F' {
        (c as u64) - ('A' as u64) + 10
    } else {
        return None;
    };
    if d < base {
        Some(d)
    } else {
        None
    }
}

/// Reads the number that `s` writes.
pub(crate) fn parse_number(s: &[char], base: u64, max: u64) -> (r: Option<u64>)
    requires
        2 <= base <= 16,
    ensures
        match r {
            Some(v) => number(s@, base as nat, max as nat) == Some(v as nat),
            None => number(s@, base as nat, max as nat) is None,
        },
{
    let signed: bool = s.len() > 0 && s[0] == '+';
    let from: usize = if signed {
        1
    } else {
        0
    };
    let digits = slice_subrange(s, from, s.len());
    proof {
        assert(digits@ == if s@.len() > 0 && s@[0] == '+' {
            s@.drop_first()
        } else {
            s@
        });
    }
    if digits.len() == 0 {
        return None;
    }
    let mut v: u64 = 0;
    let mut i: usize = 0;
    while i < digits.len()
        invariant
            2 <= base <= 16,
            digits@ == (if s@.len() > 0 && s@[0] == '+' {
                s@.drop_first()
            } else {
                s@
            }),
            i <= digits.len(),
            v <= max,
            digits_value(digits@.take(i as int), base as nat) == Some(v as nat),
        decreases digits.len() - i,
    {
        let ghost head = digits@.take(i + 1);
        assert(head.drop_last() == digits@.take(i as int));
        assert(head.last() == digits@[i as int]);
        let next: Option<u64> = match value_of_digit(digits[i], base) {
            None => None,
            Some(d) => match v.checked_mul(base) {
                None => None,
                Some(m) => match m.checked_add(d) {
                    None => None,
                    Some(w) => if w <= max {
                        Some(w)
                    } else {
                        None
                    },
                },
            },
        };
        match next {
            None => {
                proof {
                    if digits_value(digits@, base as nat) is Some {
                        lemma_digits_grow(digits@, i + 1, base as nat);
                        let d = digit_value(head.last(), base as nat)->0;
                        assert(v * base + d > max);
                    }
                }
                return None;
            },
            Some(w) => {
                v = w;
            },
        }
        i += 1;
    }
    assert(digits@.take(digits@.len() as int) == digits@);
    Some(v)
}

/// Appends `n` in base `base` to `out`.
pub(crate) fn push_numeral(out: &mut String, n: u128, base: u128)
    requires
        2 <= base <= 16,
    ensures
        final(out)@ == old(out)@ + numeral(n as nat, base as nat),
    decreases n,
{
    proof {
        vstd::arithmetic::div_mod::lemma_mod_bound(n as int, base as int);
    }
    if n >= base {
        proof {
            vstd::arithmetic::div_mod::lemma_div_decreases(n as int, base as int);
        }
        push_numeral(out, n / base, base);
    } else {
        proof {
            vstd::arithmetic::div_mod::lemma_small_mod(n as nat, base as nat);
        }
    }
    let d: u8 = (n % base) as u8;
    let c: char = if d < 10 {
        (48 + d) as char
    } else {
        (87 + d) as char
    };
    out.push(c);
}

/// `n` in decimal.
pub(crate) fn decimal(n: u64) -> (s: String)
    ensures
        s@ == numeral(n as nat, 10),
{
    let mut s = String::new();
    push_numeral(&mut s, n as u128, 10);
    s
}

/// The characters that numerals are made of.
pub open spec fn is_digit(c: char) -> bool {
    '0' <= c <= '9' || 'a' <= c <= 'f'
}

/// A numeral is one or more digits.
pub proof fn lemma_numeral_digits(n: nat, base: nat)
    requires
        2 <= base <= 16,
    ensures
        numeral(n, base).len() > 0,
        forall|i: int| 0 <= i < numeral(n, base).len() ==> is_digit(#[trigger] numeral(n, base)[i]),
        digits_value(numeral(n, base), base) == Some(n),
    decreases n,
{
    let s = numeral(n, base);
    if n < base {
        assert(s == seq![digit(n)]);
        assert(s.drop_last() == Seq::<char>::empty());
        assert(digit_value(digit(n), base) == Some(n));
        assert(digits_value(s.drop_last(), base) == Some(0nat));
        assert(0nat * base == 0) by (nonlinear_arith);
    } else {
        vstd::arithmetic::div_mod::lemma_div_decreases(n as int, base as int);
        vstd::arithmetic::div_mod::lemma_mod_bound(n as int, base as int);
        vstd::arithmetic::div_mod::lemma_fundamental_div_mod(n as int, base as int);
        let head = numeral(n / base, base);
        let d = n % base;
        lemma_numeral_digits(n / base, base);
        assert(s == head.push(digit(d)));
        assert(s.drop_last() == head);
        assert(digit_value(digit(d), base) == Some(d));
        assert((n / base) * base == base * (n / base)) by (nonlinear_arith);
    }
}

/// What a numeral begins with is a numeral, of a number that is no larger. It is
/// not zero where the number is not.
pub proof fn lemma_numeral_front(n: nat, base: nat, k: int) -> (m: nat)
    requires
        base >= 2,
        n > 0,
        0 < k <= numeral(n, base).len(),
    ensures
        0 < m <= n,
        numeral(n, base).take(k) == numeral(m, base),
    decreases n,
{
    let s = numeral(n, base);
    if k == s.len() {
        assert(s.take(k) == s);
        n
    } else {
        let less = n / base;
        assert(n >= base);
        assert(0 < less < n) by (nonlinear_arith)
            requires
                n >= base >= 2,
                less == n / base,
        ;
        assert(s.take(k) == numeral(less, base).take(k));
        lemma_numeral_front(less, base, k)
    }
}

/// Reading a numeral gives the number that it was written for.
pub proof fn law_numerals_read_back(n: nat, base: nat, max: nat)
    requires
        2 <= base <= 16,
        n <= max,
    ensures
        number(numeral(n, base), base, max) == Some(n),
{
    lemma_numeral_digits(n, base);
    let s = numeral(n, base);
    assert(is_digit(s[0]));
}

/// White space among the ASCII characters is the blank, the tabulators and the line
/// ends. What stands between white space is what is left when that is trimmed.
pub proof fn law_white_space_is_trimmed(before: Seq<char>, s: Seq<char>, behind: Seq<char>)
    requires
        forall|i: int| 0 <= i < before.len() ==> is_blank(#[trigger] before[i]),
        forall|i: int| 0 <= i < behind.len() ==> is_blank(#[trigger] behind[i]),
        s.len() > 0 ==> '!' <= s[0] <= '~' && '!' <= s.last() <= '~',
    ensures
        trim(before + s + behind) == s,
{
    lemma_front_trimmed(before, s + behind);
    assert(before + s + behind == before + (s + behind));
    lemma_end_trimmed(s, behind);
    if s.len() > 0 {
        assert(trim_start(s + behind) == s + behind);
    } else {
        lemma_front_trimmed(behind, s);
        assert(s + behind == behind + s);
        assert(trim_start(s) == s);
        assert(trim_end(s) == s);
    }
}

/// Whether a character is a blank, a tabulator or a line end.
pub open spec fn is_blank(c: char) -> bool {
    c == ' ' || c == '\t' || c == '\n' || c == '\r' || c == '\u{b}' || c == '\u{c}'
}

proof fn lemma_front_trimmed(before: Seq<char>, s: Seq<char>)
    requires
        forall|i: int| 0 <= i < before.len() ==> is_blank(#[trigger] before[i]),
    ensures
        trim_start(before + s) == trim_start(s),
    decreases before.len(),
{
    if before.len() > 0 {
        let rest = before.drop_first();
        assert forall|i: int| 0 <= i < rest.len() implies is_blank(#[trigger] rest[i]) by {
            assert(rest[i] == before[i + 1]);
        }
        lemma_front_trimmed(rest, s);
        assert((before + s).drop_first() == rest + s);
    } else {
        assert(before + s == s);
    }
}

proof fn lemma_end_trimmed(s: Seq<char>, behind: Seq<char>)
    requires
        forall|i: int| 0 <= i < behind.len() ==> is_blank(#[trigger] behind[i]),
        s.len() > 0 ==> '!' <= s.last() <= '~',
    ensures
        trim_end(s + behind) == s,
    decreases behind.len(),
{
    if behind.len() > 0 {
        let rest = behind.drop_last();
        assert forall|i: int| 0 <= i < rest.len() implies is_blank(#[trigger] rest[i]) by {
            assert(rest[i] == behind[i]);
        }
        lemma_end_trimmed(s, rest);
        assert((s + behind).drop_last() == s + rest);
        assert((s + behind).last() == behind.last());
        assert(is_blank(behind[behind.len() - 1]));
    } else {
        assert(s + behind == s);
    }
}

} // verus!
