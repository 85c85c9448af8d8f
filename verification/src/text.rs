//! Text encodings: UTF-8 for file bodies and short names, UTF-16 for long
//! file names.

use vstd::prelude::*;
use vstd::utf8::{decode_utf8, valid_utf8};

verus! {

/// The UTF-16 code units of one character: the character itself below
/// `0x10000`, a high and a low surrogate above.
pub open spec fn utf16_encode_char(c: char) -> Seq<u16> {
    let v = c as u32;
    if v < 0x10000 {
        seq![v as u16]
    } else {
        seq![(0xD800 + (v - 0x10000) / 0x400) as u16, (0xDC00 + (v - 0x10000) % 0x400) as u16]
    }
}

/// The UTF-16 code units of a string.
pub open spec fn utf16_encode(chars: Seq<char>) -> Seq<u16>
    decreases chars.len(),
{
    if chars.len() == 0 {
        seq![]
    } else {
        utf16_encode_char(chars[0]) + utf16_encode(chars.drop_first())
    }
}

/// Whether some string has exactly these UTF-16 code units.
pub open spec fn valid_utf16(units: Seq<u16>) -> bool {
    exists|chars: Seq<char>| #[trigger] utf16_encode(chars) == units
}

/// The string that the code units spell, `None` where they are not UTF-16.
pub open spec fn utf16_decode(units: Seq<u16>) -> Option<Seq<char>> {
    if valid_utf16(units) {
        Some(choose|chars: Seq<char>| #[trigger] utf16_encode(chars) == units)
    } else {
        None
    }
}

/// The string that the bytes spell in UTF-8; the empty string where they are
/// not UTF-8.
pub open spec fn utf8_or_empty(bytes: Seq<u8>) -> Seq<char> {
    if valid_utf8(bytes) {
        decode_utf8(bytes)
    } else {
        Seq::empty()
    }
}

proof fn lemma_encode_char_shape(c: char)
    ensures
        (c as u32) < 0x10000 ==> utf16_encode_char(c).len() == 1 && !(0xD800
            <= utf16_encode_char(c)[0] <= 0xDFFF),
        (c as u32) >= 0x10000 ==> utf16_encode_char(c).len() == 2 && 0xD800
            <= utf16_encode_char(c)[0] <= 0xDBFF && 0xDC00 <= utf16_encode_char(c)[1] <= 0xDFFF,
{
    vstd::utf8::char_is_scalar(c);
}

proof fn lemma_encode_char_injective(c: char, d: char)
    requires
        utf16_encode_char(c).len() == utf16_encode_char(d).len(),
        forall|i: int|
            0 <= i < utf16_encode_char(c).len() ==> utf16_encode_char(c)[i] == utf16_encode_char(
                d,
            )[i],
    ensures
        c == d,
{
    vstd::utf8::char_is_scalar(c);
    vstd::utf8::char_is_scalar(d);
    let v = c as u32;
    let w = d as u32;
    if v < 0x10000 {
        assert(utf16_encode_char(c)[0] == utf16_encode_char(d)[0]);
        assert(v == w);
    } else {
        assert(utf16_encode_char(c)[0] == utf16_encode_char(d)[0]);
        assert(utf16_encode_char(c)[1] == utf16_encode_char(d)[1]);
        assert(v == w);
    }
    vstd::utf8::char_u32_cast(c, v);
    vstd::utf8::char_u32_cast(d, w);
}

/// No two strings have the same UTF-16 code units.
pub proof fn lemma_utf16_encode_injective(a: Seq<char>, b: Seq<char>)
    requires
        utf16_encode(a) == utf16_encode(b),
    ensures
        a == b,
    decreases a.len(),
{
    if a.len() == 0 {
        if b.len() > 0 {
            lemma_encode_char_shape(b[0]);
            assert(utf16_encode(b).len() > 0);
        }
        assert(a =~= b);
    } else {
        lemma_encode_char_shape(a[0]);
        assert(utf16_encode(a).len() > 0);
        assert(b.len() > 0);
        lemma_encode_char_shape(b[0]);
        let ea = utf16_encode_char(a[0]);
        let eb = utf16_encode_char(b[0]);
        let ra = utf16_encode(a.drop_first());
        let rb = utf16_encode(b.drop_first());
        assert((ea + ra)[0] == (eb + rb)[0]);
        assert(ea.len() == eb.len());
        assert forall|i: int| 0 <= i < ea.len() implies ea[i] == eb[i] by {
            assert((ea + ra)[i] == (eb + rb)[i]);
        }
        lemma_encode_char_injective(a[0], b[0]);
        assert(ra =~= (ea + ra).subrange(ea.len() as int, (ea + ra).len() as int));
        assert(rb =~= (eb + rb).subrange(eb.len() as int, (eb + rb).len() as int));
        lemma_utf16_encode_injective(a.drop_first(), b.drop_first());
        assert(a =~= seq![a[0]] + a.drop_first());
        assert(b =~= seq![b[0]] + b.drop_first());
    }
}

/// Decoding takes the code units of a string back to that string.
pub proof fn lemma_utf16_decode_encode(chars: Seq<char>)
    ensures
        utf16_decode(utf16_encode(chars)) == Some(chars),
{
    let units = utf16_encode(chars);
    assert(valid_utf16(units));
    let picked = choose|c: Seq<char>| #[trigger] utf16_encode(c) == units;
    lemma_utf16_encode_injective(picked, chars);
}

/// `String::from_utf8`, with its error dropped: the string that the bytes
/// spell, and `None` exactly when the bytes are not UTF-8.
#[verifier::external_body]
fn string_from_utf8(bytes: Vec<u8>) -> (r: Option<String>)
    ensures
        r is Some <==> valid_utf8(bytes@),
        r matches Some(s) ==> s@ == decode_utf8(bytes@),
{
    String::from_utf8(bytes).ok()
}

/// `String::from_utf16`, with its error dropped: a string whose UTF-16 code
/// units are the ones given, and `None` exactly when no string has them.
#[verifier::external_body]
fn string_from_utf16(units: &[u16]) -> (r: Option<String>)
    ensures
        r matches Some(s) ==> utf16_encode(s@) == units@,
        r is None ==> !valid_utf16(units@),
{
    String::from_utf16(units).ok()
}

/// Decodes UTF-8 bytes into a string; `None` where the bytes are not UTF-8.
pub fn decode_utf8_bytes(bytes: Vec<u8>) -> (r: Option<String>)
    ensures
        r is Some <==> valid_utf8(bytes@),
        r matches Some(s) ==> s@ == decode_utf8(bytes@),
{
    string_from_utf8(bytes)
}

/// Decodes UTF-8 bytes into a string, and gives the empty string where the
/// bytes are not UTF-8.
pub fn decode_utf8_or_empty(bytes: Vec<u8>) -> (s: String)
    ensures
        s@ == utf8_or_empty(bytes@),
{
    match string_from_utf8(bytes) {
        Some(s) => s,
        None => String::new(),
    }
}

/// Decodes UTF-16 code units into a string; `None` where they are not UTF-16.
pub fn decode_utf16_units(units: &[u16]) -> (r: Option<String>)
    ensures
        r is Some <==> valid_utf16(units@),
        r matches Some(s) ==> Some(s@) == utf16_decode(units@),
{
    let r = string_from_utf16(units);
    proof {
        if r is Some {
            let chars = r->0@;
            assert(utf16_encode(chars) == units@);
            assert(valid_utf16(units@));
            let picked = choose|c: Seq<char>| #[trigger] utf16_encode(c) == units@;
            lemma_utf16_encode_injective(picked, chars);
        }
    }
    r
}

} // verus!
