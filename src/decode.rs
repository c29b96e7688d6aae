//! From bytes to text: UTF-16 little-endian behind its marker, UTF-8 otherwise, never failing.
use vstd::prelude::*;
use vstd::utf8::{
    char_is_scalar, char_u32_cast, decode_utf8, encode_utf8, encode_utf8_decode_utf8,
    encode_utf8_first_scalar, encode_utf8_valid_utf8, valid_utf8,
};

verus! {

/// The bytes begin with the UTF-16 little-endian byte-order marker `FF FE`.
pub open spec fn has_utf16_marker(b: Seq<u8>) -> bool {
    b.len() >= 2 && b[0] == 0xFF && b[1] == 0xFE
}

/// 16-bit units read from byte pairs, least significant byte first; an odd last byte is
/// dropped.
pub open spec fn le_units(b: Seq<u8>) -> Seq<u16> {
    Seq::new((b.len() / 2) as nat, |k: int| (b[2 * k] + 256 * b[2 * k + 1]) as u16)
}

pub open spec fn is_high_surrogate(u: u16) -> bool {
    0xD800 <= u <= 0xDBFF
}

pub open spec fn is_low_surrogate(u: u16) -> bool {
    0xDC00 <= u <= 0xDFFF
}

/// The characters that UTF-16 units encode: a high surrogate followed by a low one is one
/// character, any other surrogate is U+FFFD, any other unit is the character of its value.
pub open spec fn decode_utf16_lossy(u: Seq<u16>) -> Seq<char>
    decreases u.len(),
{
    if u.len() == 0 {
        seq![]
    } else if u.len() >= 2 && is_high_surrogate(u[0]) && is_low_surrogate(u[1]) {
        seq![(0x10000 + (u[0] - 0xD800) * 0x400 + (u[1] - 0xDC00)) as u32 as char]
            + decode_utf16_lossy(u.skip(2))
    } else if is_high_surrogate(u[0]) || is_low_surrogate(u[0]) {
        seq!['\u{FFFD}'] + decode_utf16_lossy(u.drop_first())
    } else {
        seq![u[0] as u32 as char] + decode_utf16_lossy(u.drop_first())
    }
}

/// What the UTF-8 decoder makes of bytes that are not valid UTF-8, each invalid sequence
/// replaced by U+FFFD.
pub uninterp spec fn utf8_lossy(b: Seq<u8>) -> Seq<char>;

/// The text that a byte buffer holds.
pub open spec fn decode_text(b: Seq<u8>) -> Seq<char> {
    if has_utf16_marker(b) {
        decode_utf16_lossy(le_units(b.skip(2)))
    } else if valid_utf8(b) {
        decode_utf8(b)
    } else {
        utf8_lossy(b)
    }
}

/// Relies on `String::from_utf8_lossy`: valid UTF-8 is decoded as it stands, and what it
/// makes of other bytes depends on the bytes alone.
#[verifier::external_body]
fn utf8_to_string(b: &[u8]) -> (r: String)
    ensures
        valid_utf8(b@) ==> r@ == decode_utf8(b@),
        !valid_utf8(b@) ==> r@ == utf8_lossy(b@),
{
    String::from_utf8_lossy(b).into_owned()
}

/// Relies on `char::decode_utf16`, which pairs surrogates and reports each unpaired one as
/// an error, here replaced by U+FFFD.
#[verifier::external_body]
fn utf16_to_string(units: &Vec<u16>) -> (r: String)
    ensures
        r@ == decode_utf16_lossy(units@),
{
    char::decode_utf16(units.iter().copied()).map(|c| c.unwrap_or(char::REPLACEMENT_CHARACTER)).collect()
}

/// The text of a byte buffer: UTF-16 little-endian behind the marker, else UTF-8; what does
/// not decode becomes U+FFFD.
pub fn decode_data(data: &[u8]) -> (r: String)
    ensures
        r@ == decode_text(data@),
{
    let len = data.len();
    if len >= 2 && data[0] == 0xFF && data[1] == 0xFE {
        let ghost tail = data@.skip(2);
        let n = (len - 2) / 2;
        let mut units: Vec<u16> = Vec::new();
        let mut m: usize = 0;
        assert(2 * n + 2 <= len);
        while m < n
            invariant
                len == data@.len(),
                tail == data@.skip(2),
                n == tail.len() / 2,
                2 * n + 2 <= len,
                m <= n,
                units@ =~= le_units(tail).take(m as int),
            decreases n - m,
        {
            let lo = data[2 + 2 * m];
            let hi = data[3 + 2 * m];
            units.push(lo as u16 + (hi as u16) * 256);
            m = m + 1;
        }
        assert(units@ =~= le_units(tail));
        utf16_to_string(&units)
    } else {
        utf8_to_string(data)
    }
}


/// The UTF-16 units of one character: itself below U+10000, else a surrogate pair.
pub open spec fn utf16_of(c: char) -> Seq<u16> {
    let v = c as u32;
    if v < 0x10000 {
        seq![v as u16]
    } else {
        seq![(0xD800 + (v - 0x10000) / 0x400) as u16, (0xDC00 + (v - 0x10000) % 0x400) as u16]
    }
}

/// The UTF-16 units of a text.
pub open spec fn encode_utf16(cs: Seq<char>) -> Seq<u16>
    decreases cs.len(),
{
    if cs.len() == 0 {
        seq![]
    } else {
        utf16_of(cs[0]) + encode_utf16(cs.drop_first())
    }
}

/// 16-bit units as bytes, least significant byte first.
pub open spec fn le_bytes(u: Seq<u16>) -> Seq<u8>
    decreases u.len(),
{
    if u.len() == 0 {
        seq![]
    } else {
        seq![(u[0] % 256) as u8, (u[0] / 256) as u8] + le_bytes(u.drop_first())
    }
}

proof fn lemma_le_round_trip(u: Seq<u16>)
    ensures
        le_bytes(u).len() == 2 * u.len(),
        le_units(le_bytes(u)) == u,
    decreases u.len(),
{
    if u.len() > 0 {
        let rest = u.drop_first();
        lemma_le_round_trip(rest);
        let b = le_bytes(u);
        let br = le_bytes(rest);
        assert(b =~= seq![(u[0] % 256) as u8, (u[0] / 256) as u8] + br);
        assert forall|k: int| 0 <= k < u.len() implies #[trigger] le_units(b)[k] == u[k] by {
            if k == 0 {
                assert(b[0] + 256 * b[1] == u[0]);
            } else {
                assert(b[2 * k] == br[2 * (k - 1)]);
                assert(b[2 * k + 1] == br[2 * (k - 1) + 1]);
                assert(le_units(br)[k - 1] == rest[k - 1]);
            }
        }
        assert(le_units(b) =~= u);
    }
}

proof fn lemma_utf16_round_trip(cs: Seq<char>)
    ensures
        decode_utf16_lossy(encode_utf16(cs)) == cs,
    decreases cs.len(),
{
    if cs.len() > 0 {
        let c = cs[0];
        let v = c as u32;
        let rest = cs.drop_first();
        lemma_utf16_round_trip(rest);
        char_is_scalar(c);
        char_u32_cast(c, v);
        let u = encode_utf16(cs);
        if v < 0x10000 {
            assert(u =~= seq![v as u16] + encode_utf16(rest));
            assert(u.drop_first() =~= encode_utf16(rest));
            assert(decode_utf16_lossy(u) =~= seq![c] + rest);
        } else {
            let w = (v - 0x10000) as int;
            assert(w / 0x400 < 0x400 && w % 0x400 < 0x400 && w == 0x400 * (w / 0x400) + w % 0x400)
                by (nonlinear_arith)
                requires
                    0 <= w < 0x100000,
            ;
            assert(u =~= seq![(0xD800 + w / 0x400) as u16, (0xDC00 + w % 0x400) as u16]
                + encode_utf16(rest));
            assert(u.skip(2) =~= encode_utf16(rest));
            assert(decode_utf16_lossy(u) =~= seq![c] + rest);
        }
        assert(seq![c] + rest =~= cs);
    }
}

/// Text behind the UTF-16 marker decodes to the same characters as the same text in UTF-8,
/// and both give back the text they encode.
pub proof fn lemma_utf16_matches_utf8(cs: Seq<char>)
    ensures
        decode_text(seq![0xFFu8, 0xFEu8] + le_bytes(encode_utf16(cs))) == decode_text(
            encode_utf8(cs),
        ),
        decode_text(encode_utf8(cs)) == cs,
{
    let b = seq![0xFFu8, 0xFEu8] + le_bytes(encode_utf16(cs));
    assert(b.skip(2) =~= le_bytes(encode_utf16(cs)));
    lemma_le_round_trip(encode_utf16(cs));
    lemma_utf16_round_trip(cs);
    encode_utf8_valid_utf8(cs);
    encode_utf8_decode_utf8(cs);
    if cs.len() > 0 {
        encode_utf8_first_scalar(cs);
    }
}

} // verus!
