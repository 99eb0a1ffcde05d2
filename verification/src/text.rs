//! A mathematical model of document text.
//!
//! A document is a sequence of characters. Its positions can be counted in
//! characters, in UTF-8 bytes, in UTF-16 code units and in lines; every one of
//! these counts is a sum of widths over a prefix of the characters, so the
//! conversions between them share one small theory.
use vstd::prelude::*;
use vstd::utf8;

verus! {

/// The sum of the widths of all characters of `s`.
pub open spec fn measure(s: Seq<char>, width: spec_fn(char) -> nat) -> nat
    decreases s.len(),
{
    if s.len() == 0 {
        0
    } else {
        measure(s.drop_last(), width) + width(s.last())
    }
}

/// The length of the longest prefix of `s` whose measure is at most `x`: the
/// index of the character that offset `x` falls into.
pub open spec fn locate(s: Seq<char>, width: spec_fn(char) -> nat, x: int) -> nat
    decreases s.len(),
{
    if s.len() == 0 || measure(s, width) <= x {
        s.len()
    } else {
        locate(s.drop_last(), width, x)
    }
}

/// Number of bytes that UTF-8 takes for a character.
pub open spec fn utf8_width(c: char) -> nat {
    if (c as u32) < 0x80 {
        1
    } else if (c as u32) < 0x800 {
        2
    } else if (c as u32) < 0x10000 {
        3
    } else {
        4
    }
}

/// Number of code units that UTF-16 takes for a character.
pub open spec fn utf16_width(c: char) -> nat {
    if (c as u32) < 0x10000 {
        1
    } else {
        2
    }
}

/// One for a line feed, zero for anything else.
pub open spec fn newline_width(c: char) -> nat {
    if c == '\n' {
        1
    } else {
        0
    }
}

pub open spec fn utf8_widths() -> spec_fn(char) -> nat {
    |c: char| utf8_width(c)
}

pub open spec fn utf16_widths() -> spec_fn(char) -> nat {
    |c: char| utf16_width(c)
}

pub open spec fn newline_widths() -> spec_fn(char) -> nat {
    |c: char| newline_width(c)
}

/// Length of `s` in UTF-8 bytes.
pub open spec fn utf8_len(s: Seq<char>) -> nat {
    measure(s, utf8_widths())
}

/// Length of `s` in UTF-16 code units.
pub open spec fn utf16_len(s: Seq<char>) -> nat {
    measure(s, utf16_widths())
}

/// Number of line feeds in `s`.
pub open spec fn newlines(s: Seq<char>) -> nat {
    measure(s, newline_widths())
}

/// Byte offset of the character with index `c`.
pub open spec fn byte_of_char(s: Seq<char>, c: int) -> nat {
    utf8_len(s.take(c))
}

/// UTF-16 offset of the character with index `c`.
pub open spec fn utf16_of_char(s: Seq<char>, c: int) -> nat {
    utf16_len(s.take(c))
}

/// Line of the character with index `c`.
pub open spec fn line_of_char(s: Seq<char>, c: int) -> nat {
    newlines(s.take(c))
}

/// Index of the character that byte offset `b` falls into.
pub open spec fn char_of_byte(s: Seq<char>, b: int) -> nat {
    locate(s, utf8_widths(), b)
}

/// Index of the character that UTF-16 offset `u` falls into.
pub open spec fn char_of_utf16(s: Seq<char>, u: int) -> nat {
    locate(s, utf16_widths(), u)
}

/// Number of lines: one more than there are line feeds.
pub open spec fn line_count(s: Seq<char>) -> nat {
    newlines(s) + 1
}

/// Index of the first character of line `n`; the end of the text where there
/// is no such line.
pub open spec fn line_start(s: Seq<char>, n: nat) -> nat
    decreases s.len(),
{
    if n == 0 || s.len() == 0 {
        0
    } else if newlines(s.drop_last()) >= n {
        line_start(s.drop_last(), n)
    } else {
        s.len()
    }
}

/// A byte offset at which a character begins, or the end of the text.
pub open spec fn is_boundary(s: Seq<char>, b: int) -> bool {
    0 <= b <= utf8_len(s) && byte_of_char(s, char_of_byte(s, b) as int) == b
}

/// Byte offset of the character that byte offset `b` falls into; the end of the
/// text where `b` lies past it.
pub open spec fn floor_byte(s: Seq<char>, b: int) -> nat {
    byte_of_char(s, char_of_byte(s, b) as int)
}

pub proof fn lemma_measure_concat(a: Seq<char>, b: Seq<char>, width: spec_fn(char) -> nat)
    ensures
        measure(a + b, width) == measure(a, width) + measure(b, width),
    decreases b.len(),
{
    if b.len() == 0 {
        assert(a + b =~= a);
    } else {
        lemma_measure_concat(a, b.drop_last(), width);
        assert((a + b).drop_last() =~= a + b.drop_last());
        assert((a + b).last() == b.last());
    }
}

/// The measure of a longer prefix is that of the shorter one plus that of the
/// characters between them.
pub proof fn lemma_measure_between(s: Seq<char>, width: spec_fn(char) -> nat, i: int, j: int)
    requires
        0 <= i <= j <= s.len(),
    ensures
        measure(s.take(j), width) == measure(s.take(i), width) + measure(s.subrange(i, j), width),
{
    lemma_measure_concat(s.take(i), s.subrange(i, j), width);
    assert(s.take(j) =~= s.take(i) + s.subrange(i, j));
}

pub proof fn lemma_measure_step(s: Seq<char>, width: spec_fn(char) -> nat, i: int)
    requires
        0 <= i < s.len(),
    ensures
        measure(s.take(i + 1), width) == measure(s.take(i), width) + width(s[i]),
{
    assert(s.take(i + 1).drop_last() =~= s.take(i));
    assert(s.take(i + 1).last() == s[i]);
}

pub proof fn lemma_measure_monotone(s: Seq<char>, width: spec_fn(char) -> nat, i: int, j: int)
    requires
        0 <= i <= j <= s.len(),
    ensures
        measure(s.take(i), width) <= measure(s.take(j), width),
{
    lemma_measure_between(s, width, i, j);
}

pub proof fn lemma_measure_whole(s: Seq<char>, width: spec_fn(char) -> nat)
    ensures
        measure(s.take(s.len() as int), width) == measure(s, width),
        measure(s.take(0), width) == 0,
{
    assert(s.take(s.len() as int) =~= s);
    assert(s.take(0).len() == 0);
}

/// Where every character has a width of at least one, a text measures at least
/// as much as it has characters.
pub proof fn lemma_measure_at_least_len(s: Seq<char>, width: spec_fn(char) -> nat)
    requires
        forall|c: char| #[trigger] width(c) >= 1,
    ensures
        measure(s, width) >= s.len(),
    decreases s.len(),
{
    if s.len() > 0 {
        lemma_measure_at_least_len(s.drop_last(), width);
        assert(width(s.last()) >= 1);
    }
}

pub proof fn lemma_measure_le(s: Seq<char>, small: spec_fn(char) -> nat, large: spec_fn(char) -> nat)
    requires
        forall|c: char| #[trigger] small(c) <= large(c),
    ensures
        measure(s, small) <= measure(s, large),
    decreases s.len(),
{
    if s.len() > 0 {
        lemma_measure_le(s.drop_last(), small, large);
        assert(small(s.last()) <= large(s.last()));
    }
}

/// The located character begins at or before the offset, and the next one
/// begins after it.
pub proof fn lemma_locate(s: Seq<char>, width: spec_fn(char) -> nat, x: int)
    requires
        0 <= x,
    ensures
        locate(s, width, x) <= s.len(),
        measure(s.take(locate(s, width, x) as int), width) <= x,
        locate(s, width, x) < s.len() ==> x < measure(
            s.take(locate(s, width, x) as int + 1),
            width,
        ),
    decreases s.len(),
{
    lemma_measure_whole(s, width);
    if s.len() == 0 || measure(s, width) <= x {
    } else {
        let t = s.drop_last();
        lemma_locate(t, width, x);
        let c = locate(t, width, x) as int;
        assert(s.take(c) =~= t.take(c));
        if c < t.len() {
            assert(s.take(c + 1) =~= t.take(c + 1));
        } else {
            assert(s.take(c + 1) =~= s);
        }
    }
}

/// Only one index satisfies what [`lemma_locate`] states.
pub proof fn lemma_locate_unique(s: Seq<char>, width: spec_fn(char) -> nat, x: int, c: int)
    requires
        0 <= c <= s.len(),
        measure(s.take(c), width) <= x,
        c < s.len() ==> x < measure(s.take(c + 1), width),
    ensures
        locate(s, width, x) == c,
{
    lemma_locate(s, width, x);
    let d = locate(s, width, x) as int;
    if c < d {
        lemma_measure_monotone(s, width, c + 1, d);
    } else if d < c {
        lemma_measure_monotone(s, width, d + 1, c);
    }
}

/// Where every character is at least one wide, the offset at which a character
/// begins locates that character.
pub proof fn lemma_locate_start(s: Seq<char>, width: spec_fn(char) -> nat, c: int)
    requires
        0 <= c <= s.len(),
        forall|ch: char| #[trigger] width(ch) >= 1,
    ensures
        locate(s, width, measure(s.take(c), width) as int) == c,
{
    if c < s.len() {
        lemma_measure_step(s, width, c);
        assert(width(s[c]) >= 1);
    }
    lemma_locate_unique(s, width, measure(s.take(c), width) as int, c);
}

/// Line `n` begins where `n` line feeds have been passed for the first time.
pub proof fn lemma_line_start(s: Seq<char>, n: nat)
    ensures
        line_start(s, n) <= s.len(),
        n <= newlines(s) ==> line_of_char(s, line_start(s, n) as int) == n,
        n > newlines(s) ==> line_start(s, n) == s.len(),
        0 < n <= newlines(s) ==> line_start(s, n) > 0 && s[line_start(s, n) - 1] == '\n',
    decreases s.len(),
{
    if n == 0 || s.len() == 0 {
        lemma_measure_whole(s, newline_widths());
    } else {
        let t = s.drop_last();
        lemma_line_start(t, n);
        let p = line_start(t, n) as int;
        assert(s.take(p) =~= t.take(p));
        lemma_measure_whole(s, newline_widths());
    }
}

/// A character on line `n` stands at or after the start of that line, and no
/// line feed stands between the two.
pub proof fn lemma_line_start_before(s: Seq<char>, c: int)
    requires
        0 <= c <= s.len(),
    ensures
        line_start(s, line_of_char(s, c)) <= c,
        line_of_char(s, c) <= newlines(s),
        newlines(s.subrange(line_start(s, line_of_char(s, c)) as int, c)) == 0,
{
    let n = line_of_char(s, c);
    let p = line_start(s, n) as int;
    lemma_measure_monotone(s, newline_widths(), c, s.len() as int);
    lemma_measure_whole(s, newline_widths());
    lemma_line_start(s, n);
    if c < p {
        lemma_measure_monotone(s, newline_widths(), c, p - 1);
        lemma_measure_step(s, newline_widths(), p - 1);
    }
    assert(p <= c);
    lemma_measure_between(s, newline_widths(), p, c);
}

/// The lines of a prefix start where the lines of the text do.
pub proof fn lemma_line_start_prefix(s: Seq<char>, i: int, n: nat)
    requires
        0 <= i <= s.len(),
        n <= newlines(s.take(i)),
    ensures
        line_start(s, n) == line_start(s.take(i), n),
    decreases s.len(),
{
    if i == s.len() {
        assert(s.take(i) =~= s);
    } else {
        let t = s.drop_last();
        assert(t.take(i) =~= s.take(i));
        lemma_line_start_prefix(t, i, n);
        lemma_measure_monotone(t, newline_widths(), i, t.len() as int);
        lemma_measure_whole(t, newline_widths());
    }
}

/// After a line feed the next line starts.
pub proof fn lemma_line_start_after_newline(s: Seq<char>, i: int)
    requires
        0 <= i < s.len(),
        s[i] == '\n',
    ensures
        line_start(s, newlines(s.take(i)) + 1) == i + 1,
        newlines(s.take(i + 1)) == newlines(s.take(i)) + 1,
{
    lemma_measure_step(s, newline_widths(), i);
    assert(s.take(i + 1).drop_last() =~= s.take(i));
    lemma_line_start_prefix(s, i + 1, newlines(s.take(i)) + 1);
}

/// The lines that begin in the second of two joined texts start where they do
/// in that text, moved by the length of the first.
pub proof fn lemma_line_start_concat(a: Seq<char>, b: Seq<char>, k: nat)
    requires
        1 <= k <= newlines(b),
    ensures
        line_start(a + b, newlines(a) + k) == a.len() + line_start(b, k),
    decreases b.len(),
{
    let t = b.drop_last();
    assert((a + b).drop_last() =~= a + t);
    lemma_measure_concat(a, t, newline_widths());
    if newlines(t) >= k {
        lemma_line_start_concat(a, t, k);
    }
}

/// A line starts at or before a character exactly when the character is on that
/// line or on a later one.
pub proof fn lemma_line_start_order(s: Seq<char>, n: nat, c: int)
    requires
        n <= newlines(s),
        0 <= c <= s.len(),
    ensures
        line_start(s, n) <= c <==> n <= line_of_char(s, c),
{
    let p = line_start(s, n) as int;
    lemma_line_start(s, n);
    if p <= c {
        lemma_measure_monotone(s, newline_widths(), p, c);
    } else {
        lemma_measure_monotone(s, newline_widths(), c, p - 1);
        lemma_measure_step(s, newline_widths(), p - 1);
    }
}

/// Later lines start later.
pub proof fn lemma_line_start_monotone(s: Seq<char>, m: nat, n: nat)
    requires
        m <= n,
    ensures
        line_start(s, m) <= line_start(s, n) <= s.len(),
{
    lemma_line_start(s, m);
    lemma_line_start(s, n);
    if n <= newlines(s) {
        lemma_line_start_order(s, m, line_start(s, n) as int);
    }
}

/// A character begins at or before the offsets that fall into it or into a
/// later one, and only those.
pub proof fn lemma_byte_order(s: Seq<char>, c: int, b: int)
    requires
        0 <= c <= s.len(),
        0 <= b,
    ensures
        byte_of_char(s, c) <= b <==> c <= char_of_byte(s, b),
{
    let d = char_of_byte(s, b) as int;
    lemma_locate(s, utf8_widths(), b);
    if c <= d {
        lemma_measure_monotone(s, utf8_widths(), c, d);
    } else {
        lemma_measure_monotone(s, utf8_widths(), d + 1, c);
    }
}

/// The offset of a character is a boundary and falls into that character.
pub proof fn lemma_char_boundary(s: Seq<char>, c: int)
    requires
        0 <= c <= s.len(),
    ensures
        is_boundary(s, byte_of_char(s, c) as int),
        char_of_byte(s, byte_of_char(s, c) as int) == c,
{
    lemma_locate_start(s, utf8_widths(), c);
    lemma_measure_monotone(s, utf8_widths(), c, s.len() as int);
    lemma_measure_whole(s, utf8_widths());
}

/// What stands between the start of a line and a character on it.
pub proof fn lemma_line_prefix(s: Seq<char>, c: int)
    requires
        0 <= c <= s.len(),
    ensures
        ({
            let n = line_of_char(s, c);
            let first = line_start(s, n) as int;
            &&& first <= c <= line_start(s, n + 1)
            &&& line_start(s, n + 1) <= s.len()
            &&& is_boundary(s, byte_of_char(s, first) as int)
            &&& char_of_byte(s, byte_of_char(s, first) as int) == first
            &&& byte_of_char(s, c) == byte_of_char(s, first) + utf8_len(s.subrange(first, c))
            &&& utf16_of_char(s, c) == utf16_of_char(s, first) + utf16_len(s.subrange(first, c))
        }),
{
    let n = line_of_char(s, c);
    let first = line_start(s, n) as int;
    lemma_line_start_before(s, c);
    lemma_line_start(s, n + 1);
    if n + 1 <= newlines(s) {
        lemma_line_start_order(s, n + 1, c);
    }
    lemma_char_boundary(s, first);
    lemma_measure_between(s, utf8_widths(), first, c);
    lemma_measure_between(s, utf16_widths(), first, c);
}

/// White space, as Unicode defines it.
pub open spec fn is_white_space(c: char) -> bool {
    let code = c as u32;
    ||| 0x09 <= code <= 0x0d
    ||| code == 0x20
    ||| code == 0x85
    ||| code == 0xa0
    ||| code == 0x1680
    ||| 0x2000 <= code <= 0x200a
    ||| code == 0x2028
    ||| code == 0x2029
    ||| code == 0x202f
    ||| code == 0x205f
    ||| code == 0x3000
}

/// Every character is white space.
pub open spec fn all_white_space(s: Seq<char>) -> bool {
    forall|i: int| 0 <= i < s.len() ==> is_white_space(#[trigger] s[i])
}

/// The text without the white space at its end.
pub open spec fn trimmed_end(s: Seq<char>) -> Seq<char>
    decreases s.len(),
{
    if s.len() > 0 && is_white_space(s.last()) {
        trimmed_end(s.drop_last())
    } else {
        s
    }
}

/// Every character is an ASCII character.
pub open spec fn all_ascii(s: Seq<char>) -> bool {
    forall|i: int| 0 <= i < s.len() ==> (#[trigger] s[i] as u32) < 0x80
}

/// ASCII characters take one byte and one code unit each.
pub proof fn lemma_ascii_widths(s: Seq<char>)
    requires
        all_ascii(s),
    ensures
        utf8_len(s) == s.len(),
        utf16_len(s) == s.len(),
    decreases s.len(),
{
    if s.len() > 0 {
        let t = s.drop_last();
        assert forall|i: int| 0 <= i < t.len() implies (#[trigger] t[i] as u32) < 0x80 by {
            assert(t[i] == s[i]);
        }
        lemma_ascii_widths(t);
        assert((s[s.len() - 1] as u32) < 0x80);
    }
}

/// UTF-16 never takes more code units than UTF-8 takes bytes, and neither takes
/// fewer than there are characters.
pub proof fn lemma_len_order(s: Seq<char>)
    ensures
        s.len() <= utf16_len(s) <= utf8_len(s),
{
    lemma_measure_at_least_len(s, utf16_widths());
    lemma_measure_le(s, utf16_widths(), utf8_widths());
}

/// A text has at most as many line feeds as it has bytes.
pub proof fn lemma_newlines_le_bytes(s: Seq<char>)
    ensures
        newlines(s) <= utf8_len(s),
{
    lemma_measure_le(s, newline_widths(), utf8_widths());
}

pub proof fn lemma_encode_concat(a: Seq<char>, b: Seq<char>)
    ensures
        utf8::encode_utf8(a + b) == utf8::encode_utf8(a) + utf8::encode_utf8(b),
    decreases a.len(),
{
    if a.len() == 0 {
        assert(a + b =~= b);
    } else {
        lemma_encode_concat(a.drop_first(), b);
        assert((a + b).drop_first() =~= a.drop_first() + b);
        assert((a + b)[0] == a[0]);
    }
}

/// The number of bytes of the encoding is the length in bytes.
pub proof fn lemma_encode_len(s: Seq<char>)
    ensures
        utf8::encode_utf8(s).len() == utf8_len(s),
    decreases s.len(),
{
    if s.len() > 0 {
        let front = s.drop_last();
        let back = seq![s.last()];
        assert(s =~= front + back);
        lemma_encode_concat(front, back);
        lemma_encode_len(front);
        assert(utf8::encode_utf8(back) =~= utf8::encode_scalar(s.last() as u32)) by {
            reveal_with_fuel(utf8::encode_utf8, 2);
        }
        utf8::char_is_scalar(s.last());
    }
}

/// Two texts with the same encoding are the same text.
pub proof fn lemma_encode_injective(a: Seq<char>, b: Seq<char>)
    requires
        utf8::encode_utf8(a) == utf8::encode_utf8(b),
    ensures
        a == b,
{
    utf8::encode_utf8_decode_utf8(a);
    utf8::encode_utf8_decode_utf8(b);
}

/// The encoding of a text is cut at the offset of a character exactly where the
/// text is.
pub proof fn lemma_encode_cut(s: Seq<char>, c: int)
    requires
        0 <= c <= s.len(),
    ensures
        byte_of_char(s, c) <= utf8_len(s),
        utf8::encode_utf8(s).subrange(0, byte_of_char(s, c) as int) == utf8::encode_utf8(s.take(c)),
        utf8::encode_utf8(s).subrange(byte_of_char(s, c) as int, utf8_len(s) as int)
            == utf8::encode_utf8(s.skip(c)),
{
    assert(s =~= s.take(c) + s.skip(c));
    lemma_encode_concat(s.take(c), s.skip(c));
    lemma_encode_len(s);
    lemma_encode_len(s.take(c));
    let b = byte_of_char(s, c) as int;
    let whole = utf8::encode_utf8(s);
    assert(whole.subrange(0, b) =~= utf8::encode_utf8(s.take(c)));
    assert(whole.subrange(b, utf8_len(s) as int) =~= utf8::encode_utf8(s.skip(c)));
}

/// The offset of a character is a boundary of the encoding.
proof fn lemma_char_starts_at_boundary(s: Seq<char>, c: int)
    requires
        0 <= c <= s.len(),
    ensures
        utf8::is_char_boundary(utf8::encode_utf8(s), byte_of_char(s, c) as int),
    decreases c,
{
    utf8::encode_utf8_valid_utf8(s);
    if c == 0 {
        lemma_measure_whole(s, utf8_widths());
    } else {
        let rest = s.drop_first();
        let first = seq![s[0]];
        let bytes = utf8::encode_utf8(s);
        lemma_char_starts_at_boundary(rest, c - 1);
        utf8::encode_utf8_first_scalar(s);
        assert(s.take(c) =~= first + rest.take(c - 1));
        lemma_measure_concat(first, rest.take(c - 1), utf8_widths());
        lemma_encode_len(first);
        assert(utf8::encode_utf8(first) =~= utf8::encode_scalar(s[0] as u32)) by {
            reveal_with_fuel(utf8::encode_utf8, 2);
        }
        assert(utf8::pop_first_scalar(bytes) =~= utf8::encode_utf8(rest));
        lemma_encode_cut(s, c);
        lemma_encode_len(s);
        assert(byte_of_char(s, c) == utf8::length_of_first_scalar(bytes) + byte_of_char(rest, c - 1));
    }
}

/// The boundaries of the encoding are the offsets of characters.
pub proof fn lemma_is_boundary(s: Seq<char>, b: int)
    requires
        0 <= b,
    ensures
        utf8::is_char_boundary(utf8::encode_utf8(s), b) == is_boundary(s, b),
{
    let bytes = utf8::encode_utf8(s);
    utf8::encode_utf8_valid_utf8(s);
    lemma_encode_len(s);
    if is_boundary(s, b) {
        lemma_locate(s, utf8_widths(), b);
        lemma_char_starts_at_boundary(s, char_of_byte(s, b) as int);
    }
    if utf8::is_char_boundary(bytes, b) {
        assert(b <= bytes.len());
        let front = bytes.subrange(0, b);
        let back = bytes.subrange(b, bytes.len() as int);
        utf8::valid_utf8_split(bytes, b);
        utf8::decode_utf8_split(bytes, b);
        utf8::encode_utf8_decode_utf8(s);
        utf8::decode_utf8_encode_utf8(front);
        let head = utf8::decode_utf8(front);
        let c = head.len() as int;
        assert(s =~= head + utf8::decode_utf8(back));
        assert(s.take(c) =~= head);
        lemma_encode_len(head);
        assert(byte_of_char(s, c) == b);
        lemma_locate_start(s, utf8_widths(), c);
    }
}

/// Cutting a text at a boundary, seen from the encodings of the two parts.
pub proof fn lemma_cut_at_boundary(s: Seq<char>, b: int, front: Seq<char>, back: Seq<char>)
    requires
        is_boundary(s, b),
        utf8::encode_utf8(front) == utf8::encode_utf8(s).subrange(0, b),
        utf8::encode_utf8(back) == utf8::encode_utf8(s).subrange(
            b,
            utf8::encode_utf8(s).len() as int,
        ),
    ensures
        front == s.take(char_of_byte(s, b) as int),
        back == s.skip(char_of_byte(s, b) as int),
{
    let c = char_of_byte(s, b) as int;
    lemma_locate(s, utf8_widths(), b);
    lemma_encode_cut(s, c);
    lemma_encode_len(s);
    lemma_encode_injective(front, s.take(c));
    lemma_encode_injective(back, s.skip(c));
}

/// A boundary of a text is one of every prefix that reaches as far, and falls
/// into the same character there.
pub proof fn lemma_boundary_in_prefix(s: Seq<char>, b: int, e: int)
    requires
        is_boundary(s, b),
        is_boundary(s, e),
        b <= e,
    ensures
        char_of_byte(s, b) <= char_of_byte(s, e) <= s.len(),
        is_boundary(s.take(char_of_byte(s, e) as int), b),
        char_of_byte(s.take(char_of_byte(s, e) as int), b) == char_of_byte(s, b),
{
    let c = char_of_byte(s, b) as int;
    let d = char_of_byte(s, e) as int;
    lemma_locate(s, utf8_widths(), b);
    lemma_locate(s, utf8_widths(), e);
    if d < c {
        lemma_measure_monotone(s, utf8_widths(), d + 1, c);
    }
    let prefix = s.take(d);
    assert(prefix.take(c) =~= s.take(c));
    lemma_locate_start(prefix, utf8_widths(), c);
    lemma_measure_monotone(prefix, utf8_widths(), c, d);
    lemma_measure_whole(prefix, utf8_widths());
}

/// Rounding down yields a boundary at or below the offset, and the next
/// character begins above the offset.
pub proof fn lemma_floor_byte(s: Seq<char>, b: int)
    requires
        0 <= b,
    ensures
        is_boundary(s, floor_byte(s, b) as int),
        floor_byte(s, b) <= b,
        char_of_byte(s, floor_byte(s, b) as int) == char_of_byte(s, b),
        char_of_byte(s, b) <= s.len(),
        b >= utf8_len(s) ==> floor_byte(s, b) == utf8_len(s),
        forall|d: int| floor_byte(s, b) < d <= b ==> !is_boundary(s, d),
{
    let c = char_of_byte(s, b) as int;
    lemma_locate(s, utf8_widths(), b);
    lemma_locate_start(s, utf8_widths(), c);
    lemma_measure_whole(s, utf8_widths());
    lemma_measure_monotone(s, utf8_widths(), c, s.len() as int);
    assert forall|d: int| floor_byte(s, b) < d <= b implies !is_boundary(s, d) by {
        lemma_locate(s, utf8_widths(), d);
        let e = char_of_byte(s, d) as int;
        if e < c {
            lemma_measure_monotone(s, utf8_widths(), e, c);
        } else if e > c {
            lemma_measure_monotone(s, utf8_widths(), c + 1, e);
        }
    }
}

// ── Laws ─────────────────────────────────────────────────────────────────────
/// Bytes, code units and line feeds of two joined texts add up.
pub proof fn law_lengths_add_up(a: Seq<char>, b: Seq<char>)
    ensures
        utf8_len(a + b) == utf8_len(a) + utf8_len(b),
        utf16_len(a + b) == utf16_len(a) + utf16_len(b),
        newlines(a + b) == newlines(a) + newlines(b),
        utf8_len(a) == utf8::encode_utf8(a).len(),
{
    lemma_measure_concat(a, b, utf8_widths());
    lemma_measure_concat(a, b, utf16_widths());
    lemma_measure_concat(a, b, newline_widths());
    lemma_encode_len(a);
}

/// A single character takes as many bytes as its encoding has, two code units if
/// it lies beyond the basic plane and one otherwise, and ends a line exactly if it
/// is a line feed.
pub proof fn law_length_of_a_character(c: char)
    ensures
        utf8_len(seq![c]) == utf8::encode_utf8(seq![c]).len(),
        utf16_len(seq![c]) == if c as u32 <= 0xffff {
            1nat
        } else {
            2nat
        },
        newlines(seq![c]) == if c == '\n' {
            1nat
        } else {
            0nat
        },
        utf8_len(seq![]) == 0,
        utf16_len(seq![]) == 0,
        newlines(seq![]) == 0,
{
    let s = seq![c];
    lemma_encode_len(s);
    assert(s.drop_last().len() == 0);
    assert(measure(s.drop_last(), utf16_widths()) == 0);
    assert(measure(s.drop_last(), newline_widths()) == 0);
    assert(s.last() == c);
}

/// An offset falls into the character that begins at or before it, where the next
/// one begins after it. Offsets past the end fall on the end.
pub proof fn law_offsets_fall_into_characters(s: Seq<char>, x: int)
    requires
        0 <= x,
    ensures
        char_of_byte(s, x) <= s.len(),
        utf8_len(s.take(char_of_byte(s, x) as int)) <= x,
        char_of_byte(s, x) < s.len() ==> x < utf8_len(s.take(char_of_byte(s, x) as int + 1)),
        char_of_utf16(s, x) <= s.len(),
        utf16_len(s.take(char_of_utf16(s, x) as int)) <= x,
        char_of_utf16(s, x) < s.len() ==> x < utf16_len(s.take(char_of_utf16(s, x) as int + 1)),
{
    lemma_locate(s, utf8_widths(), x);
    lemma_locate(s, utf16_widths(), x);
}

/// The offsets of a character are the lengths of what stands before it.
pub proof fn law_offsets_of_a_character(s: Seq<char>, c: int)
    requires
        0 <= c <= s.len(),
    ensures
        byte_of_char(s, c) == utf8::encode_utf8(s.take(c)).len(),
        utf16_of_char(s, c) == utf16_len(s.take(c)),
        line_of_char(s, c) == newlines(s.take(c)),
        char_of_byte(s, utf8::encode_utf8(s.take(c)).len() as int) == c,
        char_of_utf16(s, utf16_len(s.take(c)) as int) == c,
{
    lemma_encode_len(s.take(c));
    lemma_char_boundary(s, c);
    lemma_locate_start(s, utf16_widths(), c);
}

/// A line starts at the start of the text or just past a line feed, and is
/// numbered by the line feeds before it. There is one line more than there are
/// line feeds; later ones start at the end.
pub proof fn law_lines_start_after_line_feeds(s: Seq<char>, i: int, n: nat)
    requires
        0 <= i <= s.len(),
        i == 0 || s[i - 1] == '\n',
    ensures
        line_start(s, newlines(s.take(i))) == i,
        line_count(s) == newlines(s) + 1,
        n >= line_count(s) ==> line_start(s, n) == s.len(),
{
    if i > 0 {
        lemma_line_start_after_newline(s, i - 1);
    } else {
        lemma_measure_whole(s, newline_widths());
    }
    lemma_line_start(s, n);
}

/// The boundaries of a text are the offsets at which its characters begin, and its
/// end. Rounding down leads to the last one at or before an offset.
pub proof fn law_boundaries(s: Seq<char>, b: int)
    requires
        0 <= b,
    ensures
        is_boundary(s, b) <==> exists|c: int|
            0 <= c <= s.len() && #[trigger] utf8::encode_utf8(s.take(c)).len() == b,
        exists|c: int|
            0 <= c <= s.len() && #[trigger] utf8::encode_utf8(s.take(c)).len() == floor_byte(s, b),
        floor_byte(s, b) <= b,
        forall|c: int|
            0 <= c <= s.len() && (#[trigger] utf8::encode_utf8(s.take(c))).len() <= b
                ==> utf8::encode_utf8(s.take(c)).len() <= floor_byte(s, b),
{
    let d = char_of_byte(s, b) as int;
    lemma_floor_byte(s, b);
    lemma_encode_len(s.take(d));
    assert(utf8::encode_utf8(s.take(d)).len() == floor_byte(s, b));
    assert forall|c: int|
        0 <= c <= s.len() && (#[trigger] utf8::encode_utf8(s.take(c))).len()
            <= b implies utf8::encode_utf8(s.take(c)).len() <= floor_byte(s, b) by {
        lemma_encode_len(s.take(c));
        lemma_char_boundary(s, c);
    }
    if exists|c: int| 0 <= c <= s.len() && #[trigger] utf8::encode_utf8(s.take(c)).len() == b {
        let c = choose|c: int|
            0 <= c <= s.len() && #[trigger] utf8::encode_utf8(s.take(c)).len() == b;
        lemma_encode_len(s.take(c));
        lemma_char_boundary(s, c);
    }
}

/// A text is its trimmed part and the white space after it, and the trimmed part
/// does not end in white space.
pub proof fn law_trimmed_end(s: Seq<char>)
    ensures
        trimmed_end(s).len() <= s.len(),
        trimmed_end(s) == s.take(trimmed_end(s).len() as int),
        forall|i: int|
            trimmed_end(s).len() <= i < s.len() ==> is_white_space(#[trigger] s[i]),
        trimmed_end(s).len() > 0 ==> !is_white_space(s[trimmed_end(s).len() - 1]),
    decreases s.len(),
{
    if s.len() > 0 && is_white_space(s.last()) {
        let t = s.drop_last();
        law_trimmed_end(t);
        let n = trimmed_end(t).len() as int;
        assert(t.take(n) =~= s.take(n));
        assert forall|i: int| n <= i < s.len() implies is_white_space(#[trigger] s[i]) by {
            if i < t.len() {
                assert(t[i] == s[i]);
            }
        }
    } else {
        assert(s.take(s.len() as int) =~= s);
    }
}

/// Which characters are white space: the controls from tab to carriage return, the
/// space, next line, and the spaces and separators beyond ASCII. A text is white
/// space if all its characters are, and ASCII if all are below 128.
pub proof fn law_white_space(s: Seq<char>, c: char)
    ensures
        is_white_space(c) <==> {
            let code = c as u32;
            code == 9 || code == 10 || code == 11 || code == 12 || code == 13 || code == 32 || code
                == 133 || code == 160 || code == 5760 || (8192 <= code && code <= 8202) || code
                == 8232 || code == 8233 || code == 8239 || code == 8287 || code == 12288
        },
        all_white_space(s) <==> forall|i: int| 0 <= i < s.len() ==> is_white_space(#[trigger] s[i]),
        all_ascii(s) <==> forall|i: int| 0 <= i < s.len() ==> (#[trigger] s[i] as u32) < 128,
{
}

} // verus!
