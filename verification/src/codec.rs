//! The offset codec: conversion between native offsets, which count the bytes
//! of a line's UTF-8 text, and wire offsets, which count UTF-16 code units.
//!
//! Both encodings are defined on the sequence of characters of the text. A
//! character takes one to four bytes natively and one or two units on the
//! wire. An offset that falls inside a character stands for the start of that
//! character, and an offset past the end stands for the end of the text.

use vstd::prelude::*;
use vstd::string::*;
use vstd::utf8::*;

verus! {

/// Number of UTF-16 code units of a character: two for a character that needs
/// a surrogate pair, one for every other.
pub open spec fn utf16_units(c: char) -> nat {
    if (c as u32) < 0x10000 {
        1
    } else {
        2
    }
}

/// Number of bytes of the UTF-8 encoding of a character.
pub open spec fn utf8_width(c: char) -> nat {
    if (c as u32) < 0x80 {
        1
    } else if (c as u32) < 0x800 {
        2
    } else if (c as u32) < 0x10000 {
        3
    } else {
        4
    }
}

/// Length of a text in UTF-16 code units.
pub open spec fn utf16_len(s: Seq<char>) -> nat
    decreases s.len(),
{
    if s.len() == 0 {
        0
    } else {
        utf16_units(s[0]) + utf16_len(s.drop_first())
    }
}

/// Length of a text in bytes of UTF-8.
pub open spec fn utf8_len(s: Seq<char>) -> nat
    decreases s.len(),
{
    if s.len() == 0 {
        0
    } else {
        utf8_width(s[0]) + utf8_len(s.drop_first())
    }
}

/// The wire offset that stands for a native offset: the UTF-16 length of the
/// characters that end at or before byte `native`.
pub open spec fn wire_offset(s: Seq<char>, native: nat) -> nat
    decreases s.len(),
{
    if s.len() == 0 || native < utf8_width(s[0]) {
        0
    } else {
        utf16_units(s[0]) + wire_offset(s.drop_first(), (native - utf8_width(s[0])) as nat)
    }
}

/// The native offset that stands for a wire offset: the UTF-8 length of the
/// characters that end at or before code unit `wire`.
pub open spec fn native_offset(s: Seq<char>, wire: nat) -> nat
    decreases s.len(),
{
    if s.len() == 0 || wire < utf16_units(s[0]) {
        0
    } else {
        utf8_width(s[0]) + native_offset(s.drop_first(), (wire - utf16_units(s[0])) as nat)
    }
}

/// Extending a prefix by one character adds that character's width and units.
pub proof fn lemma_prefix_step(s: Seq<char>, k: int)
    requires
        0 <= k < s.len(),
    ensures
        utf8_len(s.take(k + 1)) == utf8_len(s.take(k)) + utf8_width(s[k]),
        utf16_len(s.take(k + 1)) == utf16_len(s.take(k)) + utf16_units(s[k]),
    decreases k,
{
    let rest = s.drop_first();
    let longer = s.take(k + 1);
    assert(longer.drop_first() =~= rest.take(k));
    assert(longer[0] == s[0]);
    assert(utf8_len(longer) == utf8_width(s[0]) + utf8_len(rest.take(k)));
    assert(utf16_len(longer) == utf16_units(s[0]) + utf16_len(rest.take(k)));
    if k == 0 {
        assert(rest.take(0).len() == 0);
        assert(s.take(0).len() == 0);
    } else {
        let shorter = s.take(k);
        assert(shorter.drop_first() =~= rest.take(k - 1));
        assert(shorter[0] == s[0]);
        assert(utf8_len(shorter) == utf8_width(s[0]) + utf8_len(rest.take(k - 1)));
        assert(utf16_len(shorter) == utf16_units(s[0]) + utf16_len(rest.take(k - 1)));
        assert(rest[k - 1] == s[k]);
        lemma_prefix_step(rest, k - 1);
    }
}

/// The whole text is its own longest prefix.
pub proof fn lemma_prefix_full(s: Seq<char>)
    ensures
        s.take(s.len() as int) == s,
        utf8_len(s.take(0)) == 0,
        utf16_len(s.take(0)) == 0,
{
    assert(s.take(s.len() as int) =~= s);
    assert(s.take(0).len() == 0);
}

/// Prefix lengths grow with the prefix.
pub proof fn lemma_prefix_monotonic(s: Seq<char>, j: int, k: int)
    requires
        0 <= j <= k <= s.len(),
    ensures
        utf8_len(s.take(j)) <= utf8_len(s.take(k)),
        utf16_len(s.take(j)) <= utf16_len(s.take(k)),
        utf8_len(s.take(k)) - utf8_len(s.take(j)) >= k - j,
    decreases k - j,
{
    if j < k {
        lemma_prefix_monotonic(s, j, k - 1);
        lemma_prefix_step(s, k - 1);
    }
}

/// Rounding down, native to wire: every native offset from the start of
/// character `k` up to, but not including, the start of the next character
/// stands for the wire offset of the start of character `k`.
pub proof fn lemma_wire_offset_within(s: Seq<char>, k: int, native: nat)
    requires
        0 <= k < s.len(),
        utf8_len(s.take(k)) <= native < utf8_len(s.take(k + 1)),
    ensures
        wire_offset(s, native) == utf16_len(s.take(k)),
    decreases k,
{
    let rest = s.drop_first();
    lemma_prefix_step(s, k);
    if k == 0 {
        assert(s.take(0).len() == 0);
    } else {
        assert(s.take(k).drop_first() =~= rest.take(k - 1));
        assert(s.take(k + 1).drop_first() =~= rest.take(k));
        lemma_wire_offset_within(rest, k - 1, (native - utf8_width(s[0])) as nat);
    }
}

/// Clamping, native to wire: a native offset at or past the end of the text
/// stands for the wire length of the text.
pub proof fn lemma_wire_offset_past_end(s: Seq<char>, native: nat)
    requires
        utf8_len(s) <= native,
    ensures
        wire_offset(s, native) == utf16_len(s),
    decreases s.len(),
{
    if s.len() > 0 {
        lemma_wire_offset_past_end(s.drop_first(), (native - utf8_width(s[0])) as nat);
    }
}

/// Rounding down, wire to native: every wire offset from the start of
/// character `k` up to, but not including, the start of the next character
/// stands for the native offset of the start of character `k`.
pub proof fn lemma_native_offset_within(s: Seq<char>, k: int, wire: nat)
    requires
        0 <= k < s.len(),
        utf16_len(s.take(k)) <= wire < utf16_len(s.take(k + 1)),
    ensures
        native_offset(s, wire) == utf8_len(s.take(k)),
    decreases k,
{
    let rest = s.drop_first();
    lemma_prefix_step(s, k);
    if k == 0 {
        assert(s.take(0).len() == 0);
    } else {
        assert(s.take(k).drop_first() =~= rest.take(k - 1));
        assert(s.take(k + 1).drop_first() =~= rest.take(k));
        lemma_native_offset_within(rest, k - 1, (wire - utf16_units(s[0])) as nat);
    }
}

/// Clamping, wire to native: a wire offset at or past the end of the text
/// stands for the native length of the text.
pub proof fn lemma_native_offset_past_end(s: Seq<char>, wire: nat)
    requires
        utf16_len(s) <= wire,
    ensures
        native_offset(s, wire) == utf8_len(s),
    decreases s.len(),
{
    if s.len() > 0 {
        lemma_native_offset_past_end(s.drop_first(), (wire - utf16_units(s[0])) as nat);
    }
}

/// The two conversions are exact and inverse on character boundaries: the
/// start of character `k` (or the end of the text, for `k == s.len()`) has
/// native offset `utf8_len(s.take(k))` and wire offset `utf16_len(s.take(k))`,
/// and each conversion maps the one to the other.
pub proof fn lemma_boundary_round_trip(s: Seq<char>, k: int)
    requires
        0 <= k <= s.len(),
    ensures
        wire_offset(s, utf8_len(s.take(k))) == utf16_len(s.take(k)),
        native_offset(s, utf16_len(s.take(k))) == utf8_len(s.take(k)),
        native_offset(s, wire_offset(s, utf8_len(s.take(k)))) == utf8_len(s.take(k)),
        wire_offset(s, native_offset(s, utf16_len(s.take(k)))) == utf16_len(s.take(k)),
{
    if k < s.len() {
        lemma_prefix_step(s, k);
        lemma_wire_offset_within(s, k, utf8_len(s.take(k)));
        lemma_native_offset_within(s, k, utf16_len(s.take(k)));
    } else {
        lemma_prefix_full(s);
        lemma_wire_offset_past_end(s, utf8_len(s));
        lemma_native_offset_past_end(s, utf16_len(s));
    }
}

/// No conversion leaves the text: a wire offset is at most the wire length,
/// a native offset at most the native length.
pub proof fn lemma_offsets_bounded(s: Seq<char>, offset: nat)
    ensures
        wire_offset(s, offset) <= utf16_len(s),
        native_offset(s, offset) <= utf8_len(s),
    decreases s.len(),
{
    if s.len() > 0 {
        lemma_offsets_bounded(s.drop_first(), (offset - utf8_width(s[0])) as nat);
        lemma_offsets_bounded(s.drop_first(), (offset - utf16_units(s[0])) as nat);
    }
}

/// The wire offset grows with the native offset.
pub proof fn lemma_wire_offset_monotonic(s: Seq<char>, a: nat, b: nat)
    requires
        a <= b,
    ensures
        wire_offset(s, a) <= wire_offset(s, b),
    decreases s.len(),
{
    if s.len() > 0 && a >= utf8_width(s[0]) {
        lemma_wire_offset_monotonic(
            s.drop_first(),
            (a - utf8_width(s[0])) as nat,
            (b - utf8_width(s[0])) as nat,
        );
    }
}

/// In an ASCII text every character is one byte and one code unit, so native
/// and wire offsets coincide at every boundary.
pub proof fn lemma_ascii_offsets_coincide(s: Seq<char>, k: nat)
    requires
        is_ascii_chars(s),
        k <= s.len(),
    ensures
        utf8_len(s) == s.len(),
        utf16_len(s) == s.len(),
        wire_offset(s, k) == k,
        native_offset(s, k) == k,
    decreases s.len(),
{
    if s.len() > 0 {
        let rest = s.drop_first();
        assert(is_ascii_chars(rest)) by {
            assert forall|i: int| 0 <= i < rest.len() implies '\0' <= #[trigger] rest[i]
                <= '\u{7f}' by {
                assert(rest[i] == s[i + 1]);
            }
        }
        assert('\0' <= s[0] <= '\u{7f}');
        if k > 0 {
            lemma_ascii_offsets_coincide(rest, (k - 1) as nat);
        } else {
            lemma_ascii_offsets_coincide(rest, 0);
        }
    }
}

/// Across a character that needs a surrogate pair the wire offset advances by
/// two and the native offset by four.
pub proof fn lemma_surrogate_pair_step(s: Seq<char>, k: int)
    requires
        0 <= k < s.len(),
        s[k] as u32 >= 0x10000,
    ensures
        utf16_len(s.take(k + 1)) == utf16_len(s.take(k)) + 2,
        utf8_len(s.take(k + 1)) == utf8_len(s.take(k)) + 4,
        wire_offset(s, utf8_len(s.take(k + 1))) == wire_offset(s, utf8_len(s.take(k))) + 2,
        native_offset(s, utf16_len(s.take(k + 1))) == native_offset(s, utf16_len(s.take(k))) + 4,
{
    lemma_prefix_step(s, k);
    lemma_boundary_round_trip(s, k);
    lemma_boundary_round_trip(s, k + 1);
}

/// Width in bytes of the character whose UTF-8 encoding starts with `b`.
pub open spec fn width_of_lead(b: u8) -> nat {
    if b < 0x80 {
        1
    } else if b < 0xe0 {
        2
    } else if b < 0xf0 {
        3
    } else {
        4
    }
}

/// Number of UTF-16 code units of the character whose UTF-8 encoding starts
/// with `b`.
pub open spec fn units_of_lead(b: u8) -> nat {
    if b < 0xf0 {
        1
    } else {
        2
    }
}

/// The first byte of a character's encoding tells its width and its units.
proof fn lemma_scalar_encoding(c: char)
    ensures
        encode_scalar(c as u32).len() == utf8_width(c),
        width_of_lead(encode_scalar(c as u32)[0]) == utf8_width(c),
        units_of_lead(encode_scalar(c as u32)[0]) == utf16_units(c),
{
    let one = seq![c];
    let bytes = encode_utf8(one);
    char_is_scalar(c);
    assert(one.drop_first().len() == 0);
    assert(encode_utf8(one.drop_first()) =~= Seq::<u8>::empty());
    assert(bytes =~= encode_scalar(c as u32));
    encode_utf8_first_scalar(one);
}

/// The encoding of a text is as long as the widths of its characters add up
/// to.
pub proof fn lemma_encoded_len(s: Seq<char>)
    ensures
        encode_utf8(s).len() == utf8_len(s),
    decreases s.len(),
{
    if s.len() > 0 {
        lemma_scalar_encoding(s[0]);
        lemma_encoded_len(s.drop_first());
    }
}

/// Where character `k` starts in the encoding of a text, and what its first
/// byte tells.
proof fn lemma_encoded_char(s: Seq<char>, k: int)
    requires
        0 <= k < s.len(),
    ensures
        utf8_len(s.take(k)) + utf8_width(s[k]) <= encode_utf8(s).len(),
        width_of_lead(encode_utf8(s)[utf8_len(s.take(k)) as int]) == utf8_width(s[k]),
        units_of_lead(encode_utf8(s)[utf8_len(s.take(k)) as int]) == utf16_units(s[k]),
    decreases k,
{
    let rest = s.drop_first();
    let head = encode_scalar(s[0] as u32);
    lemma_scalar_encoding(s[0]);
    lemma_encoded_len(rest);
    assert(encode_utf8(s) == head + encode_utf8(rest));
    if k == 0 {
        assert(s.take(0).len() == 0);
        assert(encode_utf8(s)[0] == head[0]);
    } else {
        let shorter = s.take(k);
        assert(shorter.drop_first() =~= rest.take(k - 1));
        assert(shorter[0] == s[0]);
        assert(utf8_len(shorter) == utf8_width(s[0]) + utf8_len(rest.take(k - 1)));
        assert(rest[k - 1] == s[k]);
        lemma_encoded_char(rest, k - 1);
        let at = utf8_len(rest.take(k - 1)) as int;
        assert(encode_utf8(s)[head.len() + at] == encode_utf8(rest)[at]);
    }
}

/// A prefix that is as long natively as the whole text is the whole text.
proof fn lemma_prefix_reaches_end(s: Seq<char>, k: int)
    requires
        0 <= k <= s.len(),
        utf8_len(s.take(k)) >= utf8_len(s),
    ensures
        k == s.len(),
{
    lemma_prefix_full(s);
    lemma_prefix_monotonic(s, k, s.len() as int);
}

fn lead_width(b: u8) -> (w: usize)
    ensures
        w == width_of_lead(b),
{
    if b < 0x80 {
        1
    } else if b < 0xe0 {
        2
    } else if b < 0xf0 {
        3
    } else {
        4
    }
}

fn lead_units(b: u8) -> (n: usize)
    ensures
        n == units_of_lead(b),
{
    if b < 0xf0 {
        1
    } else {
        2
    }
}

/// Counts the UTF-16 code units of a string.
pub fn count_utf16(s: &str) -> (n: usize)
    ensures
        n == utf16_len(s@),
{
    let bytes = s.as_bytes();
    let len: usize = bytes.len();
    let mut i: usize = 0;
    let mut count: usize = 0;
    let ghost mut k: int = 0;
    proof {
        lemma_prefix_full(s@);
        lemma_encoded_len(s@);
    }
    while i < len
        invariant
            bytes@ == encode_utf8(s@),
            len == bytes@.len(),
            len == utf8_len(s@),
            0 <= k <= s@.len(),
            i == utf8_len(s@.take(k)),
            count == utf16_len(s@.take(k)),
            count <= i <= len,
        decreases len - i,
    {
        proof {
            if k == s@.len() {
                lemma_prefix_full(s@);
            }
            lemma_encoded_char(s@, k);
            lemma_prefix_step(s@, k);
        }
        let b: u8 = bytes[i];
        count = count + lead_units(b);
        i = i + lead_width(b);
        proof {
            k = k + 1;
        }
    }
    proof {
        lemma_prefix_reaches_end(s@, k);
        lemma_prefix_full(s@);
    }
    count
}

/// Converts a wire offset, in UTF-16 code units, to the native offset, in
/// bytes of UTF-8. An offset between the two units of a surrogate pair stands
/// for the start of that character, and one past the end for the end of the
/// string.
pub fn conv_utf16_to_utf8_offset(s: &str, utf16_offset: usize) -> (utf8_offset: usize)
    ensures
        utf8_offset == native_offset(s@, utf16_offset as nat),
{
    let bytes = s.as_bytes();
    let len: usize = bytes.len();
    let mut i: usize = 0;
    let mut count: usize = 0;
    let ghost mut k: int = 0;
    proof {
        lemma_prefix_full(s@);
        lemma_encoded_len(s@);
    }
    while i < len
        invariant
            bytes@ == encode_utf8(s@),
            len == bytes@.len(),
            len == utf8_len(s@),
            0 <= k <= s@.len(),
            i == utf8_len(s@.take(k)),
            count == utf16_len(s@.take(k)),
            count <= i <= len,
            count <= utf16_offset,
        decreases len - i,
    {
        proof {
            if k == s@.len() {
                lemma_prefix_full(s@);
            }
            lemma_encoded_char(s@, k);
            lemma_prefix_step(s@, k);
        }
        let b: u8 = bytes[i];
        count = count + lead_units(b);
        if count > utf16_offset {
            proof {
                lemma_native_offset_within(s@, k, utf16_offset as nat);
            }
            return i;
        }
        i = i + lead_width(b);
        proof {
            k = k + 1;
        }
    }
    proof {
        lemma_prefix_reaches_end(s@, k);
        lemma_prefix_full(s@);
        lemma_native_offset_past_end(s@, utf16_offset as nat);
    }
    len
}

/// Converts a native offset, in bytes of UTF-8, to the wire offset, in UTF-16
/// code units. An offset inside a character stands for the start of that
/// character, and one past the end for the end of the string.
pub fn conv_utf8_to_utf16_offset(s: &str, utf8_offset: usize) -> (utf16_offset: usize)
    ensures
        utf16_offset == wire_offset(s@, utf8_offset as nat),
{
    let bytes = s.as_bytes();
    let len: usize = bytes.len();
    let mut i: usize = 0;
    let mut count: usize = 0;
    let ghost mut k: int = 0;
    proof {
        lemma_prefix_full(s@);
        lemma_encoded_len(s@);
    }
    while i < len
        invariant
            bytes@ == encode_utf8(s@),
            len == bytes@.len(),
            len == utf8_len(s@),
            0 <= k <= s@.len(),
            i == utf8_len(s@.take(k)),
            count == utf16_len(s@.take(k)),
            count <= i <= len,
            i <= utf8_offset,
        decreases len - i,
    {
        proof {
            if k == s@.len() {
                lemma_prefix_full(s@);
            }
            lemma_encoded_char(s@, k);
            lemma_prefix_step(s@, k);
        }
        let b: u8 = bytes[i];
        let next: usize = i + lead_width(b);
        if next > utf8_offset {
            proof {
                lemma_wire_offset_within(s@, k, utf8_offset as nat);
            }
            return count;
        }
        count = count + lead_units(b);
        i = next;
        proof {
            k = k + 1;
        }
    }
    proof {
        lemma_prefix_reaches_end(s@, k);
        lemma_prefix_full(s@);
        lemma_wire_offset_past_end(s@, utf8_offset as nat);
    }
    count
}

/// Whether two strings hold the same text.
pub fn str_eq(a: &str, b: &str) -> (same: bool)
    ensures
        same == (a@ == b@),
{
    let x = a.as_bytes();
    let y = b.as_bytes();
    proof {
        encode_utf8_decode_utf8(a@);
        encode_utf8_decode_utf8(b@);
    }
    if x.len() != y.len() {
        return false;
    }
    let mut i: usize = 0;
    while i < x.len()
        invariant
            x@ == encode_utf8(a@),
            y@ == encode_utf8(b@),
            x@.len() == y@.len(),
            i <= x@.len(),
            forall|j: int| 0 <= j < i ==> x@[j] == y@[j],
        decreases x@.len() - i,
    {
        if x[i] != y[i] {
            return false;
        }
        i = i + 1;
    }
    proof {
        assert(x@ =~= y@);
    }
    true
}

} // verus!
