//! UTF-8 and UTF-16 decoding and encoding of the raw text that the system sources hand over.

use vstd::prelude::*;
use vstd::utf8::{decode_utf8, valid_utf8};

verus! {

/// A UTF-16 code unit that starts a surrogate pair.
pub open spec fn is_high_surrogate(u: u16) -> bool {
    0xD800 <= u <= 0xDBFF
}

/// A UTF-16 code unit that ends a surrogate pair.
pub open spec fn is_low_surrogate(u: u16) -> bool {
    0xDC00 <= u <= 0xDFFF
}

/// The character that the surrogate pair `hi`, `lo` stands for.
pub open spec fn surrogate_pair_char(hi: u16, lo: u16) -> char {
    ((0x10000 + (hi - 0xD800) * 0x400 + (lo - 0xDC00)) as u32) as char
}

/// The characters that the UTF-16 code units `units` encode; `None` where a surrogate
/// stands unpaired.
pub open spec fn utf16_decode(units: Seq<u16>) -> Option<Seq<char>>
    decreases units.len(),
{
    if units.len() == 0 {
        Some(Seq::empty())
    } else if !is_high_surrogate(units[0]) && !is_low_surrogate(units[0]) {
        match utf16_decode(units.drop_first()) {
            Some(rest) => Some(seq![(units[0] as u32) as char] + rest),
            None => None,
        }
    } else if is_high_surrogate(units[0]) && units.len() >= 2 && is_low_surrogate(units[1]) {
        match utf16_decode(units.skip(2)) {
            Some(rest) => Some(seq![surrogate_pair_char(units[0], units[1])] + rest),
            None => None,
        }
    } else {
        None
    }
}

/// The UTF-16 code units of one character.
pub open spec fn utf16_encode_char(c: char) -> Seq<u16> {
    let u = c as u32;
    if u < 0x10000 {
        seq![u as u16]
    } else {
        seq![(0xD800 + (u - 0x10000) / 0x400) as u16, (0xDC00 + (u - 0x10000) % 0x400) as u16]
    }
}

/// The UTF-16 code units of the characters `s`.
pub open spec fn utf16_encode(s: Seq<char>) -> Seq<u16>
    decreases s.len(),
{
    if s.len() == 0 {
        Seq::empty()
    } else {
        utf16_encode_char(s[0]) + utf16_encode(s.drop_first())
    }
}

/// Decoding the UTF-16 encoding of a text gives the text back.
pub proof fn lemma_utf16_roundtrip(s: Seq<char>)
    ensures
        utf16_decode(utf16_encode(s)) == Some(s),
    decreases s.len(),
{
    if s.len() > 0 {
        lemma_utf16_roundtrip(s.drop_first());
        let c = s[0];
        let u = c as u32;
        let e = utf16_encode(s);
        let first = utf16_encode_char(c);
        let rest = utf16_encode(s.drop_first());
        assert(e == first + rest);
        if u < 0x10000 {
            assert(e[0] == u as u16);
            assert(e.drop_first() =~= rest);
            assert((e[0] as u32) == u);
            vstd::utf8::char_u32_cast(c, u);
            assert(((e[0] as u32) as char) == c);
        } else {
            let hi = (0xD800 + (u - 0x10000) / 0x400) as u16;
            let lo = (0xDC00 + (u - 0x10000) % 0x400) as u16;
            assert(e[0] == hi && e[1] == lo);
            assert(e.skip(2) =~= rest);
            vstd::utf8::char_is_scalar(c);
            assert(0 <= (u - 0x10000) / 0x400 < 0x400) by (nonlinear_arith)
                requires
                    0x10000 <= u <= 0x10FFFF,
            ;
            assert(0x400 * ((u - 0x10000) / 0x400) + (u - 0x10000) % 0x400 == u - 0x10000)
                by (nonlinear_arith);
            assert(hi as int == 0xD800 + (u - 0x10000) / 0x400);
            assert(lo as int == 0xDC00 + (u - 0x10000) % 0x400);
            assert(0x10000 + (hi - 0xD800) * 0x400 + (lo - 0xDC00) == u);
            vstd::utf8::char_u32_cast(c, u);
            assert(surrogate_pair_char(hi, lo) == c);
        }
        assert(s =~= seq![c] + s.drop_first());
    }
}

/// Encoding a text extended by one character appends that character's code units.
pub proof fn lemma_utf16_encode_push(s: Seq<char>, c: char)
    ensures
        utf16_encode(s.push(c)) == utf16_encode(s) + utf16_encode_char(c),
    decreases s.len(),
{
    if s.len() == 0 {
        assert(s.push(c).drop_first() =~= Seq::<char>::empty());
        assert(utf16_encode(Seq::<char>::empty()) =~= Seq::<u16>::empty());
        assert(s.push(c)[0] == c);
        assert(utf16_encode(s) =~= Seq::<u16>::empty());
        assert(utf16_encode(s.push(c)) =~= utf16_encode(s) + utf16_encode_char(c));
    } else {
        lemma_utf16_encode_push(s.drop_first(), c);
        assert(s.push(c).drop_first() =~= s.drop_first().push(c));
        assert(utf16_encode(s.push(c)) =~= utf16_encode(s) + utf16_encode_char(c));
    }
}

/// The UTF-16 code units of `s`, as `str::encode_utf16` yields them.
pub fn encode_utf16_units(s: &str) -> (r: Vec<u16>)
    ensures
        r@ == utf16_encode(s@),
{
    let cs = crate::text::chars_of(s);
    let mut r: Vec<u16> = Vec::new();
    let mut i: usize = 0;
    assert(cs@.take(0) =~= Seq::<char>::empty());
    while i < cs.len()
        invariant
            i <= cs@.len(),
            r@ == utf16_encode(cs@.take(i as int)),
        decreases cs@.len() - i,
    {
        let c = cs[i];
        let u: u32 = c as u32;
        let ghost before = r@;
        proof {
            lemma_utf16_encode_push(cs@.take(i as int), c);
            assert(cs@.take(i + 1) =~= cs@.take(i as int).push(c));
            vstd::utf8::char_is_scalar(c);
        }
        if u < 0x10000 {
            r.push(u as u16);
            assert(r@ =~= before + utf16_encode_char(c));
        } else {
            let v: u32 = u - 0x10000;
            assert(v / 0x400 < 0x400) by (nonlinear_arith)
                requires
                    v <= 0xFFFFF,
            ;
            r.push((0xD800 + v / 0x400) as u16);
            r.push((0xDC00 + v % 0x400) as u16);
            assert(r@ =~= before + utf16_encode_char(c));
        }
        i = i + 1;
    }
    assert(cs@.take(cs@.len() as int) == cs@);
    r
}

/// `String::from_utf16`: the text that `units` encode, or `None` where they hold an unpaired
/// surrogate.
#[verifier::external_body]
pub(crate) fn string_from_utf16(units: &[u16]) -> (r: Option<String>)
    ensures
        match r {
            Some(t) => utf16_decode(units@) == Some(t@),
            None => utf16_decode(units@) is None,
        },
{
    String::from_utf16(units).ok()
}

/// `String::from_utf8`: the text that `bytes` encode, or `None` where they are not UTF-8.
#[verifier::external_body]
pub(crate) fn string_from_utf8(bytes: &[u8]) -> (r: Option<String>)
    ensures
        r is Some <==> valid_utf8(bytes@),
        r matches Some(t) ==> t@ == decode_utf8(bytes@),
{
    String::from_utf8(bytes.to_vec()).ok()
}

/// What `String::from_utf8_lossy` gives for `bytes`: their decoding, with U+FFFD in place of
/// each invalid sequence.
pub uninterp spec fn utf8_lossy(bytes: Seq<u8>) -> Seq<char>;

/// `String::from_utf8_lossy`. Of valid UTF-8 the result is its decoding; where the bytes are
/// invalid, the contract names the result `utf8_lossy` and does not spell out the replacement.
#[verifier::external_body]
pub(crate) fn string_from_utf8_lossy(bytes: &[u8]) -> (r: String)
    ensures
        r@ == utf8_lossy(bytes@),
        valid_utf8(bytes@) ==> r@ == decode_utf8(bytes@),
{
    String::from_utf8_lossy(bytes).into_owned()
}

} // verus!
