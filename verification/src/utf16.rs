//! Names in UTF-16, little-endian, up to a null character.
use vstd::prelude::*;

use crate::bytes::{le16_at, u16_le};

verus! {

/// `char::from_u32`: the character with number `i`, where `i` is a Unicode scalar value, and
/// `None` for every other number, as its documentation says.
pub assume_specification[ char::from_u32 ](i: u32) -> (r: Option<char>)
    ensures
        r is Some <==> (i < 0xD800 || 0xE000 <= i <= 0x10FFFF),
        r matches Some(c) ==> c as u32 == i,
;

/// The 16-bit units that the bytes are made of.
pub open spec fn units_of(bytes: Seq<u8>) -> Seq<u16> {
    Seq::new(bytes.len() / 2, |i: int| le16_at(bytes, 2 * i) as u16)
}

/// The units before the first null unit.
pub open spec fn until_null(units: Seq<u16>) -> Seq<u16>
    decreases units.len(),
{
    if units.len() == 0 || units[0] == 0 {
        Seq::empty()
    } else {
        seq![units[0]] + until_null(units.drop_first())
    }
}

/// Whether a unit is the first of a surrogate pair.
pub open spec fn is_high(u: u16) -> bool {
    0xD800 <= u < 0xDC00
}

/// Whether a unit is the second of a surrogate pair.
pub open spec fn is_low(u: u16) -> bool {
    0xDC00 <= u < 0xE000
}

/// The character of a surrogate pair.
pub open spec fn pair_char(high: u16, low: u16) -> char {
    (0x1_0000 + 0x400 * (high - 0xD800) + (low - 0xDC00)) as char
}

/// The text of UTF-16 units; `None` where a surrogate stands without its other half.
pub open spec fn utf16_text(units: Seq<u16>) -> Option<Seq<char>>
    decreases units.len(),
{
    if units.len() == 0 {
        Some(Seq::empty())
    } else if !is_high(units[0]) && !is_low(units[0]) {
        match utf16_text(units.drop_first()) {
            Some(rest) => Some(seq![units[0] as char] + rest),
            None => None,
        }
    } else if is_high(units[0]) && units.len() >= 2 && is_low(units[1]) {
        match utf16_text(units.skip(2)) {
            Some(rest) => Some(seq![pair_char(units[0], units[1])] + rest),
            None => None,
        }
    } else {
        None
    }
}

/// The text in bytes: whole units, up to the first null.
pub open spec fn decoded(bytes: Seq<u8>) -> Option<Seq<char>> {
    if bytes.len() % 2 != 0 {
        None
    } else {
        utf16_text(until_null(units_of(bytes)))
    }
}

fn read_units(bytes: &[u8]) -> (r: Vec<u16>)
    ensures
        r@ == until_null(units_of(bytes@)),
{
    let ghost units = units_of(bytes@);
    let mut out: Vec<u16> = Vec::new();
    let mut i: usize = 0;
    assert(units.skip(0) =~= units);
    assert(out@ + until_null(units.skip(0)) =~= until_null(units));
    while i < bytes.len() / 2
        invariant
            i <= bytes@.len() / 2,
            units == units_of(bytes@),
            out@ + until_null(units.skip(i as int)) == until_null(units),
        decreases bytes@.len() / 2 - i,
    {
        let u = u16_le(bytes[2 * i], bytes[2 * i + 1]);
        assert(units.skip(i as int)[0] == u);
        if u == 0 {
            assert(out@ + until_null(units.skip(i as int)) =~= out@);
            return out;
        }
        let ghost before = out@;
        out.push(u);
        assert(units.skip(i as int).drop_first() =~= units.skip(i + 1));
        assert(before + (seq![u] + until_null(units.skip(i + 1))) =~= out@ + until_null(
            units.skip(i + 1),
        ));
        i += 1;
    }
    assert(out@ + until_null(units.skip(i as int)) =~= out@);
    out
}

fn text_of_units(units: &Vec<u16>) -> (r: Option<String>)
    ensures
        match r {
            Some(s) => utf16_text(units@) == Some(s@),
            None => utf16_text(units@) is None,
        },
{
    let mut out = String::new();
    let mut i: usize = 0;
    assert(units@.skip(0) =~= units@);
    assert(utf16_text(units@) matches Some(t) ==> out@ + t =~= t);
    while i < units.len()
        invariant
            i <= units@.len(),
            utf16_text(units@) == (match utf16_text(units@.skip(i as int)) {
                Some(rest) => Some(out@ + rest),
                None => None,
            }),
        decreases units@.len() - i,
    {
        let u = units[i];
        let ghost before = out@;
        let ghost here = units@.skip(i as int);
        let code: u32;
        let step: usize;
        assert(here[0] == u);
        if u < 0xD800 || u >= 0xE000 {
            code = u as u32;
            step = 1;
            assert(here.drop_first() =~= units@.skip(i + 1));
        } else {
            if u >= 0xDC00 || units.len() - i < 2 {
                return None;
            }
            let low = units[i + 1];
            assert(here[1] == low);
            if low < 0xDC00 || low >= 0xE000 {
                return None;
            }
            code = 0x1_0000 + 0x400 * (u as u32 - 0xD800) + (low as u32 - 0xDC00);
            step = 2;
            assert(here.skip(2) =~= units@.skip(i + 2));
        }
        match char::from_u32(code) {
            Some(c) => {
                out.push(c);
                proof {
                    vstd::utf8::char_u32_cast(c, code);
                }
            },
            None => return None,
        }
        i += step;
        proof {
            if let Some(rest) = utf16_text(units@.skip(i as int)) {
                assert(before + (seq![code as char] + rest) =~= out@ + rest);
            }
        }
    }
    assert(utf16_text(units@.skip(i as int)) == Some(Seq::<char>::empty()));
    assert(out@ + Seq::<char>::empty() =~= out@);
    Some(out)
}

/// The text in bytes, up to the first null character; `None` where the bytes are not whole units
/// or not well-formed.
pub fn decode_utf16(bytes: &[u8]) -> (r: Option<String>)
    ensures
        match r {
            Some(s) => decoded(bytes@) == Some(s@),
            None => decoded(bytes@) is None,
        },
{
    if bytes.len() % 2 != 0 {
        return None;
    }
    let units = read_units(bytes);
    text_of_units(&units)
}

/// The units of one character.
pub open spec fn char_units(c: char) -> Seq<u16> {
    if (c as u32) < 0x1_0000 {
        seq![c as u16]
    } else {
        seq![
            (0xD800 + (c as u32 - 0x1_0000) / 0x400) as u16,
            (0xDC00 + (c as u32 - 0x1_0000) % 0x400) as u16,
        ]
    }
}

/// The UTF-16 units of a text.
pub open spec fn text_units(text: Seq<char>) -> Seq<u16>
    decreases text.len(),
{
    if text.len() == 0 {
        Seq::empty()
    } else {
        char_units(text[0]) + text_units(text.drop_first())
    }
}

/// The bytes of units, the low byte first.
pub open spec fn unit_bytes(units: Seq<u16>) -> Seq<u8> {
    Seq::new(
        2 * units.len(),
        |i: int|
            if i % 2 == 0 {
                (units[i / 2] % 0x100) as u8
            } else {
                (units[i / 2] / 0x100) as u8
            },
    )
}

proof fn lemma_char_units(c: char)
    ensures
        char_units(c).len() == 1 || char_units(c).len() == 2,
        char_units(c).len() == 1 ==> {
            let u = char_units(c)[0];
            !is_high(u) && !is_low(u) && u as char == c && (c != '\0' ==> u != 0)
        },
        char_units(c).len() == 2 ==> {
            let high = char_units(c)[0];
            let low = char_units(c)[1];
            is_high(high) && is_low(low) && pair_char(high, low) == c
        },
{
}

proof fn lemma_text_of_units(text: Seq<char>)
    ensures
        utf16_text(text_units(text)) == Some(text),
    decreases text.len(),
{
    let units = text_units(text);
    if text.len() > 0 {
        let rest = text.drop_first();
        lemma_text_of_units(rest);
        let c = text[0];
        assert(seq![c] + rest =~= text);
        lemma_char_units(c);
        if char_units(c).len() == 1 {
            assert(units.drop_first() =~= text_units(rest));
        } else {
            assert(units.skip(2) =~= text_units(rest));
        }
    }
}

proof fn lemma_no_null_units(text: Seq<char>)
    requires
        !text.contains('\0'),
    ensures
        !text_units(text).contains(0),
    decreases text.len(),
{
    if text.len() > 0 {
        let rest = text.drop_first();
        assert forall|k: int| 0 <= k < rest.len() implies rest[k] != '\0' by {
            assert(text[k + 1] == rest[k]);
        }
        lemma_no_null_units(rest);
        assert(text[0] != '\0');
        let units = text_units(text);
        let n = char_units(text[0]).len();
        lemma_char_units(text[0]);
        assert forall|k: int| 0 <= k < units.len() implies units[k] != 0 by {
            if k >= n {
                assert(units[k] == text_units(rest)[k - n]);
            }
        }
    }
}

proof fn lemma_until_null(units: Seq<u16>, rest: Seq<u16>)
    requires
        !units.contains(0),
        rest.len() > 0 ==> rest[0] == 0,
    ensures
        until_null(units + rest) == units,
    decreases units.len(),
{
    let s = units + rest;
    if units.len() == 0 {
        assert(until_null(s) =~= units);
    } else {
        let tail = units.drop_first();
        assert forall|k: int| 0 <= k < tail.len() implies tail[k] != 0 by {
            assert(units[k + 1] == tail[k]);
        }
        lemma_until_null(tail, rest);
        assert(units[0] != 0);
        assert(s.drop_first() =~= tail + rest);
        assert(until_null(s) =~= units);
    }
}

/// Decoding the UTF-16 bytes of a text without null characters gives the text back, with or
/// without a null and further units behind it.
pub proof fn law_decode_of_encoded(text: Seq<char>, rest: Seq<u16>)
    requires
        !text.contains('\0'),
        rest.len() > 0 ==> rest[0] == 0,
    ensures
        decoded(unit_bytes(text_units(text) + rest)) == Some(text),
{
    let units = text_units(text) + rest;
    let bytes = unit_bytes(units);
    assert(units_of(bytes) =~= units);
    lemma_no_null_units(text);
    lemma_until_null(text_units(text), rest);
    lemma_text_of_units(text);
}

proof fn lemma_units_of_append(lo: u8, hi: u8, rest: Seq<u8>)
    ensures
        units_of(seq![lo, hi] + rest) == seq![(lo + 256 * hi) as u16] + units_of(rest),
{
    let s = seq![lo, hi] + rest;
    let left = units_of(s);
    let right = seq![(lo + 256 * hi) as u16] + units_of(rest);
    assert(left.len() == right.len());
    assert forall|i: int| 0 <= i < left.len() implies left[i] == right[i] by {
        if i > 0 {
            assert(s[2 * i] == rest[2 * (i - 1)]);
            assert(s[2 * i + 1] == rest[2 * (i - 1) + 1]);
        }
    }
    assert(left =~= right);
}

proof fn lemma_units_of_two(lo: u8, hi: u8, rest: Seq<u8>)
    requires
        lo + 256 * hi != 0,
    ensures
        until_null(units_of(seq![lo, hi] + rest)) == seq![(lo + 256 * hi) as u16] + until_null(
            units_of(rest),
        ),
{
    lemma_units_of_append(lo, hi, rest);
    let units = units_of(seq![lo, hi] + rest);
    assert(units.drop_first() =~= units_of(rest));
}

/// Bytes that are not whole units are no text; no bytes, or a null first, are the empty text.
pub proof fn law_decode_ends(bytes: Seq<u8>)
    ensures
        bytes.len() % 2 == 1 ==> decoded(bytes) is None,
        bytes.len() == 0 ==> decoded(bytes) == Some(Seq::<char>::empty()),
        bytes.len() % 2 == 0 && bytes.len() >= 2 && bytes[0] == 0 && bytes[1] == 0 ==> decoded(bytes)
            == Some(Seq::<char>::empty()),
{
    if bytes.len() % 2 == 0 && bytes.len() >= 2 && bytes[0] == 0 && bytes[1] == 0 {
        assert(units_of(bytes)[0] == 0);
    }
}

/// A unit that is no null and no surrogate is the character with its number, before the text of
/// the bytes behind it.
pub proof fn law_decode_unit(lo: u8, hi: u8, rest: Seq<u8>)
    requires
        rest.len() % 2 == 0,
        lo + 256 * hi != 0,
        !(0xD800 <= lo + 256 * hi <= 0xDFFF),
    ensures
        decoded(seq![lo, hi] + rest) == (match decoded(rest) {
            Some(text) => Some(seq![(lo + 256 * hi) as char] + text),
            None => None,
        }),
{
    lemma_units_of_two(lo, hi, rest);
    let u = (lo + 256 * hi) as u16;
    let tail = until_null(units_of(rest));
    assert((seq![u] + tail).drop_first() =~= tail);
    assert((lo + 256 * hi) as char == u as char);
}

/// A high surrogate and a low one behind it are one character, before the text of the bytes behind
/// them.
pub proof fn law_decode_pair(a: u8, b: u8, c: u8, d: u8, rest: Seq<u8>)
    requires
        rest.len() % 2 == 0,
        0xD800 <= a + 256 * b <= 0xDBFF,
        0xDC00 <= c + 256 * d <= 0xDFFF,
    ensures
        decoded(seq![a, b, c, d] + rest) == (match decoded(rest) {
            Some(text) => Some(
                seq![
                    (65536 + 1024 * (a + 256 * b - 0xD800) + (c + 256 * d - 0xDC00)) as char,
                ] + text,
            ),
            None => None,
        }),
{
    assert(seq![a, b, c, d] + rest =~= seq![a, b] + (seq![c, d] + rest));
    lemma_units_of_two(a, b, seq![c, d] + rest);
    lemma_units_of_two(c, d, rest);
    let high = (a + 256 * b) as u16;
    let low = (c + 256 * d) as u16;
    let tail = until_null(units_of(rest));
    assert((seq![high] + (seq![low] + tail)).skip(2) =~= tail);
}

/// A surrogate that is not the high half before a low one makes the bytes no text.
pub proof fn law_decode_lone(a: u8, b: u8, rest: Seq<u8>)
    requires
        rest.len() % 2 == 0,
        0xD800 <= a + 256 * b <= 0xDFFF,
        !(a + 256 * b <= 0xDBFF && rest.len() >= 2 && 0xDC00 <= rest[0] + 256 * rest[1] <= 0xDFFF),
    ensures
        decoded(seq![a, b] + rest) is None,
{
    lemma_units_of_two(a, b, rest);
    let tail = until_null(units_of(rest));
    if tail.len() > 0 {
        assert(tail[0] == units_of(rest)[0]);
    }
}

} // verus!
