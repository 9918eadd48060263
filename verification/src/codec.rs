//! Specification of UTF-16 encoding and its relation to UTF-8.
//!
//! The UTF-8 side (validity, `encode_utf8`, `decode_utf8`) comes from
//! `vstd::utf8`; this module adds the UTF-16 side: the code units that encode
//! a character, the encoding of a whole character sequence, decoding back,
//! and the byte-accounting rule that attributes UTF-8 byte lengths to emitted
//! UTF-16 code units.

use vstd::arithmetic::div_mod::{lemma_div_is_ordered, lemma_fundamental_div_mod, lemma_mod_bound};
use vstd::prelude::*;
use vstd::utf8::*;

verus! {

/// True when `u` is a UTF-16 high (leading) surrogate code unit.
pub open spec fn is_high_surrogate(u: u16) -> bool {
    0xD800 <= u <= 0xDBFF
}

/// True when `u` is a UTF-16 low (trailing) surrogate code unit.
pub open spec fn is_low_surrogate(u: u16) -> bool {
    0xDC00 <= u <= 0xDFFF
}

/// The high surrogate of the UTF-16 encoding of the supplementary-plane scalar `v`.
pub open spec fn high_surrogate(v: u32) -> u16
    recommends
        0x10000 <= v <= 0x10FFFF,
{
    (0xD800 + (v - 0x10000) / 0x400) as u16
}

/// The low surrogate of the UTF-16 encoding of the supplementary-plane scalar `v`.
pub open spec fn low_surrogate(v: u32) -> u16
    recommends
        0x10000 <= v <= 0x10FFFF,
{
    (0xDC00 + (v - 0x10000) % 0x400) as u16
}

/// The UTF-16 code units that encode the character `c`: a single unit for a
/// basic-plane scalar, a surrogate pair for a supplementary-plane scalar.
pub open spec fn utf16_units(c: char) -> Seq<u16> {
    let v = c as u32;
    if v < 0x10000 {
        seq![v as u16]
    } else {
        seq![high_surrogate(v), low_surrogate(v)]
    }
}

/// The UTF-16 encoding of a character sequence.
pub open spec fn encode_utf16(cs: Seq<char>) -> Seq<u16>
    decreases cs.len(),
{
    if cs.len() == 0 {
        seq![]
    } else {
        utf16_units(cs[0]) + encode_utf16(cs.drop_first())
    }
}

/// The character encoded by the surrogate pair `hi`, `lo`.
pub open spec fn combine_surrogates(hi: u16, lo: u16) -> char
    recommends
        is_high_surrogate(hi),
        is_low_surrogate(lo),
{
    (((0x10000 + (hi - 0xD800) * 0x400 + (lo - 0xDC00)) as u32) as char)
}

/// The character sequence read back from a UTF-16 code-unit sequence.
pub open spec fn decode_utf16(us: Seq<u16>) -> Seq<char>
    decreases us.len(),
{
    if us.len() == 0 {
        seq![]
    } else if is_high_surrogate(us[0]) && us.len() >= 2 {
        seq![combine_surrogates(us[0], us[1])] + decode_utf16(us.skip(2))
    } else {
        seq![((us[0] as u32) as char)] + decode_utf16(us.drop_first())
    }
}

/// The UTF-8 byte length attributed to a single emitted UTF-16 code unit:
/// 1 byte for units up to 0x7F, 2 bytes up to 0x7FF, 1 byte for a low
/// surrogate (the paired high surrogate already carries 3 of the pair's 4
/// bytes), and 3 bytes otherwise.
pub open spec fn unit_utf8_contribution(u: u16) -> nat {
    if u <= 0x7F {
        1
    } else if u <= 0x7FF {
        2
    } else if is_low_surrogate(u) {
        1
    } else {
        3
    }
}

/// The total UTF-8 byte length attributed to a code-unit sequence by the
/// accounting rule of [`unit_utf8_contribution`].
pub open spec fn units_utf8_len(us: Seq<u16>) -> nat
    decreases us.len(),
{
    if us.len() == 0 {
        0
    } else {
        unit_utf8_contribution(us[0]) + units_utf8_len(us.drop_first())
    }
}

/// The surrogate pair of a supplementary-plane character is well-formed and
/// decodes back to the character.
pub proof fn lemma_surrogate_pair(c: char)
    requires
        (c as u32) >= 0x10000,
    ensures
        is_high_surrogate(high_surrogate(c as u32)),
        is_low_surrogate(low_surrogate(c as u32)),
        combine_surrogates(high_surrogate(c as u32), low_surrogate(c as u32)) == c,
{
    char_is_scalar(c);
    let v = c as u32;
    let t = (v - 0x10000) as int;
    lemma_fundamental_div_mod(t, 0x400);
    lemma_mod_bound(t, 0x400);
    lemma_div_is_ordered(t, 0xFFFFF, 0x400);
    char_u32_cast(c, v);
}

/// The single code unit of a basic-plane character is not a surrogate and
/// holds the scalar value itself.
pub proof fn lemma_bmp_unit(c: char)
    requires
        (c as u32) < 0x10000,
    ensures
        ((c as u32) as u16) as u32 == c as u32,
        !is_high_surrogate((c as u32) as u16),
        !is_low_surrogate((c as u32) as u16),
{
    char_is_scalar(c);
}

/// The UTF-16 encoding of a single character is that character's code units.
pub proof fn lemma_encode_utf16_singleton(c: char)
    ensures
        encode_utf16(seq![c]) == utf16_units(c),
{
    assert(seq![c].drop_first() =~= Seq::<char>::empty());
    assert(utf16_units(c) + encode_utf16(Seq::<char>::empty()) =~= utf16_units(c));
}

/// UTF-16 encoding distributes over concatenation.
pub proof fn lemma_encode_utf16_concat(a: Seq<char>, b: Seq<char>)
    ensures
        encode_utf16(a + b) == encode_utf16(a) + encode_utf16(b),
    decreases a.len(),
{
    if a.len() == 0 {
        assert(a + b =~= b);
        assert(encode_utf16(a) + encode_utf16(b) =~= encode_utf16(b));
    } else {
        assert((a + b).drop_first() =~= a.drop_first() + b);
        lemma_encode_utf16_concat(a.drop_first(), b);
        assert(utf16_units(a[0]) + (encode_utf16(a.drop_first()) + encode_utf16(b)) =~= (
        utf16_units(a[0]) + encode_utf16(a.drop_first())) + encode_utf16(b));
        assert((a + b)[0] == a[0]);
    }
}

/// The UTF-8 encoding of a single character is that character's bytes.
pub proof fn lemma_encode_utf8_singleton(c: char)
    ensures
        encode_utf8(seq![c]) == encode_scalar(c as u32),
{
    assert(seq![c].drop_first() =~= Seq::<char>::empty());
    assert(encode_scalar(c as u32) + encode_utf8(Seq::<char>::empty()) =~= encode_scalar(
        c as u32,
    ));
}

/// UTF-8 encoding distributes over concatenation.
pub proof fn lemma_encode_utf8_concat(a: Seq<char>, b: Seq<char>)
    ensures
        encode_utf8(a + b) == encode_utf8(a) + encode_utf8(b),
    decreases a.len(),
{
    if a.len() == 0 {
        assert(a + b =~= b);
        assert(encode_utf8(a) + encode_utf8(b) =~= encode_utf8(b));
    } else {
        assert((a + b).drop_first() =~= a.drop_first() + b);
        lemma_encode_utf8_concat(a.drop_first(), b);
        assert(encode_scalar(a[0] as u32) + (encode_utf8(a.drop_first()) + encode_utf8(b)) =~= (
        encode_scalar(a[0] as u32) + encode_utf8(a.drop_first())) + encode_utf8(b));
        assert((a + b)[0] == a[0]);
    }
}

/// The accounting total distributes over concatenation.
pub proof fn lemma_units_utf8_len_concat(a: Seq<u16>, b: Seq<u16>)
    ensures
        units_utf8_len(a + b) == units_utf8_len(a) + units_utf8_len(b),
    decreases a.len(),
{
    if a.len() == 0 {
        assert(a + b =~= b);
    } else {
        assert((a + b).drop_first() =~= a.drop_first() + b);
        lemma_units_utf8_len_concat(a.drop_first(), b);
        assert((a + b)[0] == a[0]);
    }
}

/// The accounting rule attributes to the code units of one character exactly
/// the byte length of that character's UTF-8 encoding.
pub proof fn lemma_utf16_units_utf8_len(c: char)
    ensures
        units_utf8_len(utf16_units(c)) == encode_scalar(c as u32).len(),
{
    reveal_with_fuel(units_utf8_len, 3);
    char_is_scalar(c);
    let v = c as u32;
    if v < 0x10000 {
        lemma_bmp_unit(c);
        assert(seq![(v as u16)].drop_first() =~= Seq::<u16>::empty());
    } else {
        lemma_surrogate_pair(c);
        let hi = high_surrogate(v);
        let lo = low_surrogate(v);
        assert(seq![hi, lo].drop_first() =~= seq![lo]);
        assert(seq![lo].drop_first() =~= Seq::<u16>::empty());
        assert(unit_utf8_contribution(hi) == 3);
        assert(unit_utf8_contribution(lo) == 1);
    }
}

/// Walking the UTF-16 encoding of a character sequence with the accounting
/// rule recovers exactly the UTF-8 byte length of the sequence.
pub proof fn lemma_encode_utf16_units_utf8_len(cs: Seq<char>)
    ensures
        units_utf8_len(encode_utf16(cs)) == encode_utf8(cs).len(),
    decreases cs.len(),
{
    if cs.len() == 0 {
    } else {
        lemma_units_utf8_len_concat(utf16_units(cs[0]), encode_utf16(cs.drop_first()));
        lemma_utf16_units_utf8_len(cs[0]);
        lemma_encode_utf16_units_utf8_len(cs.drop_first());
    }
}

/// Every code unit accounts for at least one byte.
pub proof fn lemma_units_len_le_utf8_len(us: Seq<u16>)
    ensures
        us.len() <= units_utf8_len(us),
    decreases us.len(),
{
    if us.len() == 0 {
    } else {
        lemma_units_len_le_utf8_len(us.drop_first());
    }
}

/// One character never needs more UTF-16 code units than UTF-8 bytes.
pub proof fn lemma_char_units_le_bytes(c: char)
    ensures
        utf16_units(c).len() <= encode_scalar(c as u32).len(),
{
    char_is_scalar(c);
}

/// A text never needs more UTF-16 code units than UTF-8 bytes.
pub proof fn lemma_utf16_len_le_utf8_len(cs: Seq<char>)
    ensures
        encode_utf16(cs).len() <= encode_utf8(cs).len(),
{
    lemma_units_len_le_utf8_len(encode_utf16(cs));
    lemma_encode_utf16_units_utf8_len(cs);
}

/// A UTF-16 encoding never ends with a high surrogate, so no encoded view
/// can end with the first half of a split surrogate pair.
pub proof fn lemma_encode_utf16_last_not_high(cs: Seq<char>)
    requires
        encode_utf16(cs).len() > 0,
    ensures
        !is_high_surrogate(encode_utf16(cs).last()),
    decreases cs.len(),
{
    let us = encode_utf16(cs);
    let rest = encode_utf16(cs.drop_first());
    if rest.len() == 0 {
        assert(us =~= utf16_units(cs[0]));
        let c = cs[0];
        if (c as u32) < 0x10000 {
            lemma_bmp_unit(c);
        } else {
            lemma_surrogate_pair(c);
        }
    } else {
        lemma_encode_utf16_last_not_high(cs.drop_first());
        assert(us.last() == rest.last());
    }
}

/// Decoding a UTF-16 encoding recovers the original character sequence.
pub proof fn lemma_decode_encode_utf16(cs: Seq<char>)
    ensures
        decode_utf16(encode_utf16(cs)) == cs,
    decreases cs.len(),
{
    if cs.len() == 0 {
        assert(decode_utf16(encode_utf16(cs)) =~= cs);
    } else {
        let c = cs[0];
        let rest = encode_utf16(cs.drop_first());
        let us = encode_utf16(cs);
        lemma_decode_encode_utf16(cs.drop_first());
        if (c as u32) < 0x10000 {
            lemma_bmp_unit(c);
            char_u32_cast(c, c as u32);
            assert(us =~= seq![((c as u32) as u16)] + rest);
            assert(us.drop_first() =~= rest);
            assert(decode_utf16(us) =~= seq![c] + cs.drop_first());
            assert(seq![c] + cs.drop_first() =~= cs);
        } else {
            lemma_surrogate_pair(c);
            let v = c as u32;
            assert(us =~= seq![high_surrogate(v), low_surrogate(v)] + rest);
            assert(us.len() >= 2);
            assert(us[0] == high_surrogate(v) && us[1] == low_surrogate(v));
            assert(us.skip(2) =~= rest);
            assert(decode_utf16(us) =~= seq![c] + cs.drop_first());
            assert(seq![c] + cs.drop_first() =~= cs);
        }
    }
}

/// For a prefix of `k` characters of a valid UTF-8 text, the encoded prefix
/// stands at the front of the text, the rest is again valid UTF-8, and it
/// decodes to the remaining characters.
pub proof fn lemma_encode_prefix(s: Seq<u8>, k: int)
    requires
        valid_utf8(s),
        0 <= k <= decode_utf8(s).len(),
    ensures
        ({
            let cs = decode_utf8(s);
            let n = encode_utf8(cs.take(k)).len() as int;
            &&& n <= s.len()
            &&& s.subrange(0, n) == encode_utf8(cs.take(k))
            &&& valid_utf8(s.skip(n))
            &&& decode_utf8(s.skip(n)) == cs.skip(k)
            &&& is_char_boundary(s, n)
            &&& (k < cs.len() ==> n < s.len())
            &&& (k > 0 ==> n > 0)
        }),
    decreases k,
{
    decode_utf8_encode_utf8(s);
    let cs = decode_utf8(s);
    if k == 0 {
        assert(cs.take(0) =~= Seq::<char>::empty());
        assert(s.skip(0) =~= s);
        assert(cs.skip(0) =~= cs);
        if cs.len() > 0 {
            assert(s.len() > 0);
        }
    } else {
        assert(cs.len() > 0);
        assert(s.len() > 0);
        encode_utf8_first_scalar(cs);
        let len1 = length_of_first_scalar(s);
        let pop = pop_first_scalar(s);
        assert(len1 == encode_scalar(cs[0] as u32).len());
        assert(1 <= len1 <= s.len());
        assert(decode_utf8(pop) =~= cs.drop_first());
        assert(valid_utf8(pop));
        lemma_encode_prefix(pop, k - 1);
        let csp = decode_utf8(pop);
        let np = encode_utf8(csp.take(k - 1)).len() as int;
        assert(cs.take(k) =~= seq![cs[0]] + csp.take(k - 1));
        lemma_encode_utf8_concat(seq![cs[0]], csp.take(k - 1));
        lemma_encode_utf8_singleton(cs[0]);
        let n = encode_utf8(cs.take(k)).len() as int;
        assert(n == len1 + np);
        assert(s.skip(n) =~= pop.skip(np));
        assert(cs.skip(k) =~= csp.skip(k - 1));
        assert(s.subrange(0, n) =~= s.subrange(0, len1) + pop.subrange(0, np));
        assert(s.subrange(0, len1) == take_first_scalar(s));
        decode_utf8_first_scalar(s);
        assert(pop.subrange(0, np) == encode_utf8(csp.take(k - 1)));
        assert(s.subrange(0, n) =~= encode_utf8(cs.take(k)));
    }
}

/// Round trip: the UTF-16 encoding of a valid UTF-8 text, decoded back to
/// characters and re-encoded as UTF-8, is the original byte sequence.
pub proof fn lemma_round_trip(s: Seq<u8>)
    requires
        valid_utf8(s),
    ensures
        encode_utf8(decode_utf16(encode_utf16(decode_utf8(s)))) == s,
{
    lemma_decode_encode_utf16(decode_utf8(s));
    decode_utf8_encode_utf8(s);
}

} // verus!
