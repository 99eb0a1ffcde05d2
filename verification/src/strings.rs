//! String operations on byte offsets, described by the text model.
use crate::text;
use vstd::prelude::*;
use vstd::utf8;

verus! {

/// Length in UTF-8 bytes.
pub fn byte_len(s: &str) -> (n: usize)
    ensures
        n == text::utf8_len(s@),
{
    proof {
        text::lemma_encode_len(s@);
    }
    s.as_bytes().len()
}

/// Whether a character begins at a byte offset, or the text ends there.
pub fn is_char_boundary(s: &str, byte: usize) -> (r: bool)
    ensures
        r == text::is_boundary(s@, byte as int),
{
    proof {
        text::lemma_is_boundary(s@, byte as int);
    }
    s.is_char_boundary(byte)
}

/// The characters between two boundaries.
pub fn slice<'a>(s: &'a str, start: usize, end: usize) -> (part: &'a str)
    requires
        text::is_boundary(s@, start as int),
        text::is_boundary(s@, end as int),
        start <= end,
    ensures
        part@ == s@.subrange(
            text::char_of_byte(s@, start as int) as int,
            text::char_of_byte(s@, end as int) as int,
        ),
{
    let ghost whole = s@;
    let ghost first = text::char_of_byte(whole, start as int) as int;
    let ghost last = text::char_of_byte(whole, end as int) as int;
    proof {
        text::lemma_is_boundary(whole, end as int);
    }
    let (head, tail) = s.split_at(end);
    proof {
        text::lemma_cut_at_boundary(whole, end as int, head@, tail@);
        text::lemma_boundary_in_prefix(whole, start as int, end as int);
        text::lemma_is_boundary(head@, start as int);
    }
    let (front, part) = head.split_at(start);
    proof {
        text::lemma_cut_at_boundary(head@, start as int, front@, part@);
        assert(part@ =~= whole.subrange(first, last));
    }
    part
}

/// Length in UTF-16 code units.
pub fn utf16_count(s: &str) -> (n: usize)
    ensures
        n == text::utf16_len(s@),
{
    let ghost whole = s@;
    let limit = byte_len(s);
    let mut n: usize = 0;
    proof {
        text::lemma_measure_whole(whole, text::utf16_widths());
    }
    for c in chars: s.chars()
        invariant
            chars.seq() == whole,
            limit == text::utf8_len(whole),
            n == text::utf16_of_char(whole, chars.index() as int),
    {
        proof {
            let i = chars.index() as int;
            text::lemma_measure_step(whole, text::utf16_widths(), i);
            text::lemma_measure_monotone(whole, text::utf16_widths(), i + 1, whole.len() as int);
            text::lemma_measure_whole(whole, text::utf16_widths());
            text::lemma_len_order(whole);
        }
        n = n + if (c as u32) < 0x10000 {
            1
        } else {
            2
        };
    }
    n
}

/// Whether two strings hold the same text.
pub fn equal(a: &str, b: &str) -> (r: bool)
    ensures
        r == (a@ == b@),
{
    let left = a.as_bytes();
    let right = b.as_bytes();
    if left.len() != right.len() {
        return false;
    }
    let mut i: usize = 0;
    while i < left.len()
        invariant
            i <= left@.len() == right@.len(),
            left@ == utf8::encode_utf8(a@),
            right@ == utf8::encode_utf8(b@),
            forall|k: int| 0 <= k < i ==> left@[k] == right@[k],
        decreases left@.len() - i,
    {
        if left[i] != right[i] {
            return false;
        }
        i = i + 1;
    }
    proof {
        assert(left@ =~= right@);
        text::lemma_encode_injective(a@, b@);
    }
    true
}

/// Whether a character is white space.
pub fn is_white_space(c: char) -> (r: bool)
    ensures
        r == text::is_white_space(c),
{
    let code = c as u32;
    (0x09 <= code && code <= 0x0d) || code == 0x20 || code == 0x85 || code == 0xa0 || code == 0x1680
        || (0x2000 <= code && code <= 0x200a) || code == 0x2028 || code == 0x2029 || code == 0x202f
        || code == 0x205f || code == 0x3000
}

/// Whether a text is white space throughout.
pub fn is_all_white_space(s: &str) -> (r: bool)
    ensures
        r == text::all_white_space(s@),
{
    let ghost whole = s@;
    for c in chars: s.chars()
        invariant
            chars.seq() == whole,
            whole == s@,
            forall|k: int| 0 <= k < chars.index() ==> text::is_white_space(#[trigger] whole[k]),
    {
        if !is_white_space(c) {
            assert(!text::is_white_space(whole[chars.index() as int]));
            return false;
        }
    }
    true
}

/// Number of bytes that UTF-8 takes for a character.
pub fn utf8_char_len(c: char) -> (n: usize)
    ensures
        n == text::utf8_width(c),
{
    let code = c as u32;
    if code < 0x80 {
        1
    } else if code < 0x800 {
        2
    } else if code < 0x10000 {
        3
    } else {
        4
    }
}

/// Length in bytes without the white space at the end.
pub fn trimmed_end_len(s: &str) -> (n: usize)
    ensures
        n == text::utf8_len(text::trimmed_end(s@)),
{
    let ghost whole = s@;
    let limit = byte_len(s);
    let mut offset: usize = 0;
    let mut n: usize = 0;
    proof {
        text::lemma_measure_whole(whole, text::utf8_widths());
    }
    for c in chars: s.chars()
        invariant
            chars.seq() == whole,
            limit == text::utf8_len(whole),
            offset == text::byte_of_char(whole, chars.index() as int),
            n == text::utf8_len(text::trimmed_end(whole.take(chars.index() as int))),
    {
        proof {
            let i = chars.index() as int;
            text::lemma_measure_step(whole, text::utf8_widths(), i);
            text::lemma_measure_monotone(whole, text::utf8_widths(), i + 1, whole.len() as int);
            text::lemma_measure_whole(whole, text::utf8_widths());
            assert(whole.take(i + 1).drop_last() =~= whole.take(i));
        }
        offset = offset + utf8_char_len(c);
        if !is_white_space(c) {
            n = offset;
        }
    }
    assert(whole.take(whole.len() as int) =~= whole);
    n
}

/// A decimal digit.
pub open spec fn digit(n: nat) -> char {
    ('0' as u32 + n) as char
}

/// A number in decimal notation.
pub open spec fn digits(n: nat) -> Seq<char>
    decreases n,
{
    if n < 10 {
        seq![digit(n)]
    } else {
        digits(n / 10).push(digit(n % 10))
    }
}

/// A decimal digit.
fn digit_str(n: u64) -> (s: &'static str)
    requires
        n < 10,
    ensures
        s@ == seq![digit(n as nat)],
{
    proof {
        reveal_strlit("0");
        reveal_strlit("1");
        reveal_strlit("2");
        reveal_strlit("3");
        reveal_strlit("4");
        reveal_strlit("5");
        reveal_strlit("6");
        reveal_strlit("7");
        reveal_strlit("8");
        reveal_strlit("9");
    }
    let s = match n {
        0 => "0",
        1 => "1",
        2 => "2",
        3 => "3",
        4 => "4",
        5 => "5",
        6 => "6",
        7 => "7",
        8 => "8",
        _ => "9",
    };
    assert(s@ =~= seq![digit(n as nat)]);
    s
}

/// A number in decimal notation.
pub fn decimal(n: u64) -> (s: String)
    ensures
        s@ == digits(n as nat),
    decreases n,
{
    if n < 10 {
        digit_str(n).to_owned()
    } else {
        let mut s = decimal(n / 10);
        s.append(digit_str(n % 10));
        assert(s@ =~= digits(n as nat));
        s
    }
}

/// Two strings, joined.
pub fn join(a: &str, b: &str) -> (s: String)
    ensures
        s@ == a@ + b@,
{
    let mut s = a.to_owned();
    s.append(b);
    s
}

/// A number below ten is written as its digit, and a larger one as that of its
/// tens followed by its last digit.
pub proof fn law_decimal_notation(tens: nat, last: nat)
    requires
        last < 10,
    ensures
        digits(last) == seq![(48 + last) as char],
        tens > 0 ==> digits(10 * tens + last) == digits(tens).push((48 + last) as char),
{
    assert((10 * tens + last) / 10 == tens);
    assert((10 * tens + last) % 10 == last as int);
}

} // verus!
