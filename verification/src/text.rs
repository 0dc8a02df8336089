//! Byte strings: the order that keys are sorted by, equality, the search for
//! a pattern, and the bytes of a character and of a number.

use vstd::prelude::*;
use vstd::slice::*;
use vstd::utf8::*;

verus! {

/// The digit zero.
pub const ZERO: u8 = 48;

/// The minus sign.
pub const MINUS: u8 = 45;

/// Lexicographic "strictly less" on byte strings: a proper prefix comes
/// first, otherwise the first differing byte decides.
pub open spec fn bytes_less(a: Seq<u8>, b: Seq<u8>) -> bool
    decreases a.len(),
{
    if b.len() == 0 {
        false
    } else if a.len() == 0 {
        true
    } else if a[0] != b[0] {
        a[0] < b[0]
    } else {
        bytes_less(a.drop_first(), b.drop_first())
    }
}

/// No byte string precedes itself.
pub proof fn lemma_bytes_less_irreflexive(a: Seq<u8>)
    ensures
        !bytes_less(a, a),
    decreases a.len(),
{
    if a.len() > 0 {
        lemma_bytes_less_irreflexive(a.drop_first());
    }
}

/// Of two different byte strings exactly one precedes the other.
pub proof fn lemma_bytes_less_total(a: Seq<u8>, b: Seq<u8>)
    ensures
        a != b ==> (bytes_less(a, b) <==> !bytes_less(b, a)),
        a == b ==> !bytes_less(a, b) && !bytes_less(b, a),
    decreases a.len(),
{
    if a == b {
        lemma_bytes_less_irreflexive(a);
    } else if a.len() > 0 && b.len() > 0 && a[0] == b[0] {
        if a.drop_first() == b.drop_first() {
            assert(a =~= seq![a[0]] + a.drop_first());
            assert(b =~= seq![b[0]] + b.drop_first());
        }
        lemma_bytes_less_total(a.drop_first(), b.drop_first());
    } else if a.len() == 0 && b.len() == 0 {
        assert(a =~= b);
    }
}

/// The order is transitive.
pub proof fn lemma_bytes_less_transitive(a: Seq<u8>, b: Seq<u8>, c: Seq<u8>)
    requires
        bytes_less(a, b),
        bytes_less(b, c),
    ensures
        bytes_less(a, c),
    decreases a.len(),
{
    if a.len() > 0 && a[0] == b[0] && b[0] == c[0] {
        lemma_bytes_less_transitive(a.drop_first(), b.drop_first(), c.drop_first());
    }
}

/// Whether `a` comes strictly before `b`.
pub fn bytes_precede(a: &[u8], b: &[u8]) -> (less: bool)
    ensures
        less == bytes_less(a@, b@),
{
    let mut i: usize = 0;
    assert(a@.skip(0) =~= a@ && b@.skip(0) =~= b@);
    while i < a.len() && i < b.len()
        invariant
            i <= a@.len(),
            i <= b@.len(),
            bytes_less(a@, b@) == bytes_less(a@.skip(i as int), b@.skip(i as int)),
        decreases a@.len() - i,
    {
        let ghost ra = a@.skip(i as int);
        let ghost rb = b@.skip(i as int);
        assert(ra.drop_first() =~= a@.skip(i + 1));
        assert(rb.drop_first() =~= b@.skip(i + 1));
        if a[i] != b[i] {
            return a[i] < b[i];
        }
        i += 1;
    }
    i < b.len()
}

/// Whether `a` and `b` hold the same bytes.
pub fn bytes_equal(a: &[u8], b: &[u8]) -> (same: bool)
    ensures
        same == (a@ == b@),
{
    if a.len() != b.len() {
        return false;
    }
    let mut i: usize = 0;
    while i < a.len()
        invariant
            a@.len() == b@.len(),
            i <= a@.len(),
            forall|j: int| 0 <= j < i ==> a@[j] == b@[j],
        decreases a@.len() - i,
    {
        if a[i] != b[i] {
            return false;
        }
        i += 1;
    }
    assert(a@ =~= b@);
    true
}

/// Whether `bytes` begins with `prefix`.
pub open spec fn starts_with(bytes: Seq<u8>, prefix: Seq<u8>) -> bool {
    prefix.len() <= bytes.len() && bytes.take(prefix.len() as int) == prefix
}

/// The position at which `pattern` first occurs in `bytes`; the length of
/// `bytes` where it does not occur.
pub open spec fn first_occurrence(bytes: Seq<u8>, pattern: Seq<u8>) -> int
    decreases bytes.len(),
{
    if bytes.len() == 0 || bytes.len() < pattern.len() {
        bytes.len() as int
    } else if starts_with(bytes, pattern) {
        0
    } else {
        1 + first_occurrence(bytes.drop_first(), pattern)
    }
}

/// `pattern` occurs at its first occurrence and nowhere in front of it.
pub proof fn lemma_first_occurrence(bytes: Seq<u8>, pattern: Seq<u8>)
    ensures
        0 <= first_occurrence(bytes, pattern) <= bytes.len(),
        forall|at: int|
            0 <= at < first_occurrence(bytes, pattern) ==> !starts_with(
                #[trigger] bytes.skip(at),
                pattern,
            ),
        first_occurrence(bytes, pattern) < bytes.len() ==> starts_with(
            bytes.skip(first_occurrence(bytes, pattern)),
            pattern,
        ),
    decreases bytes.len(),
{
    if bytes.len() == 0 || bytes.len() < pattern.len() {
    } else if starts_with(bytes, pattern) {
        assert(bytes.skip(0) =~= bytes);
    } else {
        let rest = bytes.drop_first();
        lemma_first_occurrence(rest, pattern);
        assert forall|at: int| 0 <= at < first_occurrence(bytes, pattern) implies !starts_with(
            #[trigger] bytes.skip(at),
            pattern,
        ) by {
            if at == 0 {
                assert(bytes.skip(0) =~= bytes);
            } else {
                assert(bytes.skip(at) =~= rest.skip(at - 1));
            }
        }
        let found = first_occurrence(rest, pattern);
        assert(bytes.skip(found + 1) =~= rest.skip(found));
    }
}

/// A position at which `pattern` occurs, or the end, with no occurrence in
/// front of it, is the first occurrence.
pub proof fn lemma_first_occurrence_is(bytes: Seq<u8>, pattern: Seq<u8>, position: int)
    requires
        0 <= position <= bytes.len(),
        forall|at: int| 0 <= at < position ==> !starts_with(#[trigger] bytes.skip(at), pattern),
        position < bytes.len() ==> starts_with(bytes.skip(position), pattern),
    ensures
        first_occurrence(bytes, pattern) == position,
    decreases bytes.len(),
{
    assert(bytes.skip(0) =~= bytes);
    if position > 0 && bytes.len() >= pattern.len() {
        let rest = bytes.drop_first();
        assert forall|at: int| 0 <= at < position - 1 implies !starts_with(
            #[trigger] rest.skip(at),
            pattern,
        ) by {
            assert(rest.skip(at) =~= bytes.skip(at + 1));
        }
        assert(rest.skip(position - 1) =~= bytes.skip(position));
        lemma_first_occurrence_is(rest, pattern, position - 1);
    }
}

/// Whether `bytes` begins with `prefix`.
pub fn begins_with(bytes: &[u8], prefix: &[u8]) -> (begins: bool)
    ensures
        begins == starts_with(bytes@, prefix@),
{
    if prefix.len() > bytes.len() {
        return false;
    }
    bytes_equal(slice_subrange(bytes, 0, prefix.len()), prefix)
}

/// The position at which `pattern` first occurs in `bytes`; the length of
/// `bytes` where it does not occur.
pub fn position_of(bytes: &[u8], pattern: &[u8]) -> (position: usize)
    ensures
        position == first_occurrence(bytes@, pattern@),
{
    let mut i: usize = 0;
    while i < bytes.len() && bytes.len() - i >= pattern.len()
        invariant
            i <= bytes@.len(),
            forall|at: int| 0 <= at < i ==> !starts_with(#[trigger] bytes@.skip(at), pattern@),
        decreases bytes@.len() - i,
    {
        let rest = slice_subrange(bytes, i, bytes.len());
        if begins_with(rest, pattern) {
            proof {
                lemma_first_occurrence_is(bytes@, pattern@, i as int);
            }
            return i;
        }
        i += 1;
    }
    proof {
        lemma_first_occurrence_is(bytes@, pattern@, bytes@.len() as int);
    }
    bytes.len()
}

/// The UTF-8 bytes of one character.
pub open spec fn char_text(character: char) -> Seq<u8> {
    encode_utf8(seq![character])
}

/// The number of bytes of the character whose first byte is `lead`.
pub open spec fn width_of(lead: u8) -> int {
    if lead <= 0x7f {
        1
    } else if lead <= 0xdf {
        2
    } else if lead <= 0xef {
        3
    } else {
        4
    }
}

/// The bytes of a character are those of its scalar value.
pub proof fn lemma_char_text_is_scalar(character: char)
    ensures
        char_text(character) == encode_scalar(character as u32),
{
    assert(seq![character].drop_first() =~= Seq::<char>::empty());
    assert(encode_utf8(Seq::<char>::empty()) =~= Seq::<u8>::empty());
}

/// The shape of the bytes of a character: one to four bytes, as many as the
/// first byte says; the first is no continuation byte and the others are. A
/// character below 128 is its own single byte, and the bytes of any other
/// character are all 128 or more.
pub proof fn lemma_char_text_shape(character: char)
    ensures
        1 <= char_text(character).len() <= 4,
        char_text(character).len() == width_of(char_text(character)[0]),
        !is_continuation_byte(char_text(character)[0]),
        forall|j: int|
            1 <= j < char_text(character).len() ==> is_continuation_byte(
                #[trigger] char_text(character)[j],
            ),
        (character as u32) < 128 ==> char_text(character) == seq![character as u8],
        (character as u32) >= 128 ==> forall|j: int|
            0 <= j < char_text(character).len() ==> #[trigger] char_text(character)[j] >= 128,
{
    let scalar = character as u32;
    lemma_char_text_is_scalar(character);
    if has_width_1_encoding(scalar) {
        assert((scalar & 0x7F) as u8 == scalar as u8 && (scalar & 0x7F) as u8 <= 0x7f)
            by (bit_vector)
            requires
                scalar <= 0x7F,
        ;
    } else if has_width_2_encoding(scalar) {
        assert(0xc0 <= (0xC0 | ((scalar >> 6) & 0x1F) as u8) <= 0xdf) by (bit_vector);
        assert(0x80 <= (0x80 | (scalar & 0x3F) as u8) <= 0xbf) by (bit_vector);
    } else if has_width_3_encoding(scalar) {
        assert(0xe0 <= (0xE0 | ((scalar >> 12) & 0x0F) as u8) <= 0xef) by (bit_vector);
        assert(0x80 <= (0x80 | ((scalar >> 6) & 0x3F) as u8) <= 0xbf) by (bit_vector);
        assert(0x80 <= (0x80 | (scalar & 0x3F) as u8) <= 0xbf) by (bit_vector);
    } else {
        assert(0xf0 <= (0xF0 | ((scalar >> 18) & 0x7) as u8) <= 0xf7) by (bit_vector);
        assert(0x80 <= (0x80 | ((scalar >> 12) & 0x3F) as u8) <= 0xbf) by (bit_vector);
        assert(0x80 <= (0x80 | ((scalar >> 6) & 0x3F) as u8) <= 0xbf) by (bit_vector);
        assert(0x80 <= (0x80 | (scalar & 0x3F) as u8) <= 0xbf) by (bit_vector);
    }
}

/// Different characters have different bytes.
pub proof fn lemma_char_text_differs(one: char, other: char)
    requires
        one != other,
    ensures
        char_text(one) != char_text(other),
{
    // Decoding gives each character back.
    encode_utf8_decode_utf8(seq![one]);
    encode_utf8_decode_utf8(seq![other]);
}

/// The UTF-8 bytes of one character.
pub fn char_bytes(character: char) -> (bytes: Vec<u8>)
    ensures
        bytes@ == char_text(character),
{
    let scalar: u32 = character as u32;
    let mut bytes: Vec<u8> = Vec::new();
    if scalar <= 0x7F {
        bytes.push((scalar & 0x7F) as u8);
    } else if scalar <= 0x7FF {
        bytes.push(0xC0 | ((scalar >> 6) & 0x1F) as u8);
        bytes.push(0x80 | (scalar & 0x3F) as u8);
    } else if scalar <= 0xFFFF {
        bytes.push(0xE0 | ((scalar >> 12) & 0x0F) as u8);
        bytes.push(0x80 | ((scalar >> 6) & 0x3F) as u8);
        bytes.push(0x80 | (scalar & 0x3F) as u8);
    } else {
        bytes.push(0xF0 | ((scalar >> 18) & 0x7) as u8);
        bytes.push(0x80 | ((scalar >> 12) & 0x3F) as u8);
        bytes.push(0x80 | ((scalar >> 6) & 0x3F) as u8);
        bytes.push(0x80 | (scalar & 0x3F) as u8);
    }
    proof {
        lemma_char_text_is_scalar(character);
    }
    bytes
}

/// A natural number in decimal digits, without leading zeros.
pub open spec fn decimal_text(number: nat) -> Seq<u8>
    decreases number,
{
    if number < 10 {
        seq![(ZERO + number) as u8]
    } else {
        decimal_text(number / 10).push((ZERO + number % 10) as u8)
    }
}

/// An integer in decimal digits, behind a minus sign where it is negative.
pub open spec fn integer_text(number: int) -> Seq<u8> {
    if number < 0 {
        seq![MINUS] + decimal_text((-number) as nat)
    } else {
        decimal_text(number as nat)
    }
}

/// Adds the decimal digits of `number` at the end of `output`.
pub fn append_decimal(output: &mut Vec<u8>, number: u64)
    ensures
        final(output)@ == old(output)@ + decimal_text(number as nat),
    decreases number,
{
    if number >= 10 {
        append_decimal(output, number / 10);
    }
    output.push(ZERO + (number % 10) as u8);
}

} // verus!
