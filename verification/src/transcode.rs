//! The bounded-buffer transcoding contract and its two strategies.
//!
//! A transcoder call takes UTF-8 input and a code-unit capacity, converts as
//! many whole characters as fit, and returns the produced UTF-16 view
//! together with the unconsumed input suffix. The direct strategy encodes
//! character by character and then recovers the consumed byte count from the
//! emitted code units by the accounting rule; the platform-assisted strategy
//! first clamps the input to a character boundary within the capacity and
//! then converts that whole prefix in one bulk pass.

use crate::codec::{
    encode_utf16, is_high_surrogate, lemma_encode_prefix, lemma_encode_utf16_concat,
    lemma_encode_utf16_last_not_high, lemma_encode_utf16_singleton,
    lemma_encode_utf16_units_utf8_len, lemma_encode_utf8_concat, lemma_encode_utf8_singleton,
    lemma_char_units_le_bytes, lemma_surrogate_pair, lemma_units_len_le_utf8_len,
    lemma_units_utf8_len_concat, lemma_utf16_len_le_utf8_len, unit_utf8_contribution,
    units_utf8_len, utf16_units, high_surrogate, low_surrogate,
};
use vstd::arithmetic::div_mod::{lemma_div_is_ordered, lemma_mod_bound};
use vstd::prelude::*;
use vstd::slice::slice_subrange;
use vstd::utf8::*;

verus! {

/// One transcoder invocation's result: the unconsumed suffix of the input
/// and the UTF-16 code units produced into the buffer for this call.
pub struct Utf8ToUtf16Result<'a> {
    /// The suffix of the input text not yet consumed.
    pub remaining: &'a [u8],
    /// The UTF-16 code units produced by this call.
    pub output: Vec<u16>,
}

/// The result of one transcoder call converted exactly the first `k`
/// characters of `s`: the output is their UTF-16 encoding, it fits in `cap`
/// code units, and the remaining input is the byte suffix past their UTF-8
/// encoding. The call may stop short of the end only when taking one more
/// character would exceed the capacity even in the conservative byte
/// measure (a text never needs more code units than bytes).
pub open spec fn cvt_result_for(
    s: Seq<u8>,
    cap: nat,
    k: int,
    remaining: Seq<u8>,
    output: Seq<u16>,
) -> bool {
    let cs = decode_utf8(s);
    &&& 0 <= k <= cs.len()
    &&& output == encode_utf16(cs.take(k))
    &&& remaining == s.skip(encode_utf8(cs.take(k)).len() as int)
    &&& output.len() <= cap
    &&& (k < cs.len() ==> encode_utf8(cs.take(k + 1)).len() > cap)
}

/// Everything one transcoder call promises: some whole-character prefix was
/// converted, and a capacity of at least 4 code units guarantees strict
/// progress on nonempty input (4 units always hold any one character).
pub open spec fn cvt_post(s: Seq<u8>, cap: nat, remaining: Seq<u8>, output: Seq<u16>) -> bool {
    &&& exists|k: int| cvt_result_for(s, cap, k, remaining, output)
    &&& (cap >= 4 && s.len() > 0 ==> remaining.len() < s.len())
}

/// The bounded-buffer conversion contract shared by both strategies.
pub trait Utf8ToUtf16 {
    /// Converts as many whole characters from the front of `s` as fit in
    /// `cap` UTF-16 code units, never splitting a surrogate pair across the
    /// capacity limit. Each strategy refines this shared contract with its
    /// own exact stop rule: [`direct_post`] for [`Rust`], [`clamped_post`]
    /// for [`Windows`].
    fn cvt<'a>(s: &'a [u8], cap: usize) -> (r: Utf8ToUtf16Result<'a>)
        requires
            valid_utf8(s@),
        ensures
            cvt_post(s@, cap as nat, r.remaining@, r.output@),
    ;
}

/// The direct strategy: per-character conversion in process logic.
pub struct Rust;

/// The platform-assisted strategy: boundary clamping plus bulk conversion
/// of the clamped prefix.
pub struct Windows;

/// The exact stop rule of the direct strategy: it converted the first `k`
/// characters and stopped only because the next character's code units do
/// not fit in the capacity left — greedy in code units.
pub open spec fn direct_result_for(
    s: Seq<u8>,
    cap: nat,
    k: int,
    remaining: Seq<u8>,
    output: Seq<u16>,
) -> bool {
    let cs = decode_utf8(s);
    &&& 0 <= k <= cs.len()
    &&& output == encode_utf16(cs.take(k))
    &&& remaining == s.skip(encode_utf8(cs.take(k)).len() as int)
    &&& output.len() <= cap
    &&& (k < cs.len() ==> output.len() + utf16_units(cs[k]).len() > cap)
}

/// What the direct strategy promises: the unique greedy-by-units result.
pub open spec fn direct_post(s: Seq<u8>, cap: nat, remaining: Seq<u8>, output: Seq<u16>) -> bool {
    exists|k: int| direct_result_for(s, cap, k, remaining, output)
}

/// The exact clamp of the platform-assisted strategy: `b` is the largest
/// character boundary within `min(cap, len)` bytes, the remaining input is
/// everything past it, and the output is the whole clamped prefix
/// converted.
pub open spec fn clamp_result_for(
    s: Seq<u8>,
    cap: nat,
    b: int,
    remaining: Seq<u8>,
    output: Seq<u16>,
) -> bool {
    let limit: int = if cap < s.len() {
        cap as int
    } else {
        s.len() as int
    };
    &&& 0 <= b <= limit
    &&& is_char_boundary(s, b)
    &&& (forall|j: int| 0 <= j <= limit && is_char_boundary(s, j) ==> j <= b)
    &&& remaining == s.skip(b)
    &&& output == encode_utf16(decode_utf8(s.take(b)))
}

/// What the platform-assisted strategy promises: the unique byte-clamped
/// result.
pub open spec fn clamped_post(s: Seq<u8>, cap: nat, remaining: Seq<u8>, output: Seq<u16>) -> bool {
    exists|b: int| clamp_result_for(s, cap, b, remaining, output)
}

/// Reads the scalar value whose UTF-8 encoding begins at `s[i..]`,
/// returning it together with its encoded byte width.
pub fn decode_scalar_at(s: &[u8], i: usize) -> (r: (u32, usize))
    requires
        i < s@.len(),
        valid_utf8(s@.skip(i as int)),
    ensures
        ({
            let cs = decode_utf8(s@.skip(i as int));
            &&& cs.len() > 0
            &&& r.0 == cs[0] as u32
            &&& is_scalar(r.0)
            &&& r.1 == encode_scalar(r.0).len()
            &&& 1 <= r.1 <= 4
            &&& i + r.1 <= s@.len()
            &&& r.1 == length_of_first_scalar(s@.skip(i as int))
        }),
{
    let ghost sfx = s@.skip(i as int);
    proof {
        assert(sfx.len() > 0);
        assert(valid_first_scalar(sfx));
        decode_utf8_encode_utf8(sfx);
        encode_utf8_first_scalar(decode_utf8(sfx));
        char_is_scalar(decode_utf8(sfx)[0]);
        assert(sfx[0] == s@[i as int]);
    }
    let b0 = s[i];
    if b0 < 0x80 {
        let v: u32 = (b0 & 0x7F) as u32;
        proof {
            assert(is_leading_byte_width_1(b0));
            assert(v == codepoint_width_1(b0));
        }
        (v, 1)
    } else if b0 < 0xE0 {
        proof {
            assert(is_leading_byte_width_2(b0));
            assert(sfx.len() >= 2);
            assert(sfx[1] == s@[i + 1]);
        }
        let b1 = s[i + 1];
        let v: u32 = (((b0 & 0x1F) as u32) << 6) | ((b1 & 0x3F) as u32);
        proof {
            assert(v == codepoint_width_2(b0, b1));
        }
        (v, 2)
    } else if b0 < 0xF0 {
        proof {
            assert(is_leading_byte_width_3(b0));
            assert(sfx.len() >= 3);
            assert(sfx[1] == s@[i + 1]);
            assert(sfx[2] == s@[i + 2]);
        }
        let b1 = s[i + 1];
        let b2 = s[i + 2];
        let v: u32 = (((b0 & 0x0F) as u32) << 12) | (((b1 & 0x3F) as u32) << 6) | ((b2
            & 0x3F) as u32);
        proof {
            assert(v == codepoint_width_3(b0, b1, b2));
        }
        (v, 3)
    } else {
        proof {
            assert(is_leading_byte_width_4(b0));
            assert(sfx.len() >= 4);
            assert(sfx[1] == s@[i + 1]);
            assert(sfx[2] == s@[i + 2]);
            assert(sfx[3] == s@[i + 3]);
        }
        let b1 = s[i + 1];
        let b2 = s[i + 2];
        let b3 = s[i + 3];
        let v: u32 = (((b0 & 0x07) as u32) << 18) | (((b1 & 0x3F) as u32) << 12) | (((b2
            & 0x3F) as u32) << 6) | ((b3 & 0x3F) as u32);
        proof {
            assert(v == codepoint_width_4(b0, b1, b2, b3));
        }
        (v, 4)
    }
}

/// Appends the UTF-16 code units of the character `c`, handed over as its
/// scalar value `v`, to the output buffer.
fn push_units(out: &mut Vec<u16>, v: u32, Ghost(c): Ghost<char>)
    requires
        c as u32 == v,
    ensures
        final(out)@ == old(out)@ + utf16_units(c),
{
    proof {
        char_is_scalar(c);
    }
    if v < 0x10000 {
        out.push(v as u16);
        proof {
            assert(out@ =~= old(out)@ + utf16_units(c));
        }
    } else {
        proof {
            lemma_surrogate_pair(c);
            lemma_div_is_ordered((v - 0x10000) as int, 0xFFFFF, 0x400);
            lemma_mod_bound((v - 0x10000) as int, 0x400);
        }
        let t: u32 = v - 0x10000;
        let hi: u16 = (0xD800 + t / 0x400) as u16;
        let lo: u16 = (0xDC00 + t % 0x400) as u16;
        proof {
            assert(hi == high_surrogate(v));
            assert(lo == low_surrogate(v));
        }
        out.push(hi);
        out.push(lo);
        proof {
            assert(out@ =~= old(out)@ + utf16_units(c));
        }
    }
}

/// The largest character boundary of `s` not beyond `index`: `index` itself
/// when it falls between whole characters, otherwise the start of the
/// character that `index` points into.
pub fn floor_char_boundary(s: &[u8], index: usize) -> (b: usize)
    requires
        valid_utf8(s@),
        index <= s@.len(),
    ensures
        b <= index,
        is_char_boundary(s@, b as int),
        forall|j: int| 0 <= j <= index as int && is_char_boundary(s@, j) ==> j <= b as int,
{
    if index == s.len() {
        proof {
            is_char_boundary_start_end_of_seq(s@);
        }
        return index;
    }
    let mut b: usize = index;
    while 0x80 <= s[b] && s[b] < 0xC0
        invariant
            b <= index,
            index < s@.len(),
            valid_utf8(s@),
            forall|j: int| (b as int) < j <= index as int ==> is_continuation_byte(s@[j]),
        decreases b,
    {
        proof {
            is_char_boundary_iff_not_is_continuation_byte(s@, b as int);
            if b == 0 {
                assert(is_char_boundary(s@, 0));
                assert(false);
            }
        }
        b = b - 1;
    }
    proof {
        is_char_boundary_iff_not_is_continuation_byte(s@, b as int);
        assert forall|j: int| 0 <= j <= index as int && is_char_boundary(s@, j) implies j
            <= b as int by {
            if j > b as int {
                is_char_boundary_iff_not_is_continuation_byte(s@, j);
            }
        }
    }
    b
}

/// Converts a whole UTF-8 slice to UTF-16 in a single pass: the work that a
/// bulk conversion primitive performs for the platform-assisted strategy.
pub fn bulk_transcode(s: &[u8]) -> (out: Vec<u16>)
    requires
        valid_utf8(s@),
    ensures
        out@ == encode_utf16(decode_utf8(s@)),
{
    let ghost cs = decode_utf8(s@);
    let mut out: Vec<u16> = Vec::new();
    let mut i: usize = 0;
    let ghost mut k: int = 0;
    proof {
        assert(cs.take(0) =~= Seq::<char>::empty());
    }
    while i < s.len()
        invariant
            valid_utf8(s@),
            cs == decode_utf8(s@),
            0 <= k <= cs.len(),
            out@ == encode_utf16(cs.take(k)),
            i == encode_utf8(cs.take(k)).len(),
            i <= s@.len(),
        decreases s@.len() - i,
    {
        proof {
            decode_utf8_encode_utf8(s@);
            if k == cs.len() {
                assert(cs.take(k) =~= cs);
            }
            assert(k < cs.len());
            lemma_encode_prefix(s@, k);
        }
        let (v, w) = decode_scalar_at(s, i);
        proof {
            assert(decode_utf8(s@.skip(i as int))[0] == cs.skip(k)[0]);
            assert(cs.skip(k)[0] == cs[k]);
        }
        push_units(&mut out, v, Ghost(cs[k]));
        proof {
            assert(cs.take(k + 1) =~= cs.take(k) + seq![cs[k]]);
            lemma_encode_utf16_concat(cs.take(k), seq![cs[k]]);
            lemma_encode_utf16_singleton(cs[k]);
            lemma_encode_utf8_concat(cs.take(k), seq![cs[k]]);
            lemma_encode_utf8_singleton(cs[k]);
        }
        i = i + w;
        proof {
            k = k + 1;
        }
    }
    proof {
        decode_utf8_encode_utf8(s@);
        if k < cs.len() {
            lemma_encode_prefix(s@, k);
            assert(false);
        }
        assert(cs.take(k) =~= cs);
    }
    out
}

impl Rust {
    /// Encodes characters one at a time while their code units fit, then
    /// walks the emitted units with the byte-accounting rule to find how
    /// many input bytes were consumed. This is the direct strategy under
    /// its exact contract: it stops only when the next character's code
    /// units do not fit in the capacity left.
    pub fn convert<'a>(s: &'a [u8], cap: usize) -> (r: Utf8ToUtf16Result<'a>)
        requires
            valid_utf8(s@),
        ensures
            direct_post(s@, cap as nat, r.remaining@, r.output@),
    {
        let ghost cs = decode_utf8(s@);
        let mut out: Vec<u16> = Vec::new();
        let mut consumed: usize = 0;
        let ghost mut k: int = 0;
        proof {
            assert(cs.take(0) =~= Seq::<char>::empty());
        }
        loop
            invariant
                valid_utf8(s@),
                cs == decode_utf8(s@),
                0 <= k <= cs.len(),
                out@ == encode_utf16(cs.take(k)),
                consumed == encode_utf8(cs.take(k)).len(),
                consumed <= s@.len(),
                out@.len() <= cap,
            ensures
                valid_utf8(s@),
                cs == decode_utf8(s@),
                0 <= k <= cs.len(),
                out@ == encode_utf16(cs.take(k)),
                consumed == encode_utf8(cs.take(k)).len(),
                consumed <= s@.len(),
                out@.len() <= cap,
                k < cs.len() ==> out@.len() + utf16_units(cs[k]).len() > cap,
            decreases s@.len() - consumed,
        {
            proof {
                decode_utf8_encode_utf8(s@);
            }
            if consumed >= s.len() {
                proof {
                    if k < cs.len() {
                        lemma_encode_prefix(s@, k);
                        assert(false);
                    }
                    assert(k == cs.len());
                }
                break;
            }
            proof {
                if k == cs.len() {
                    assert(cs.take(k) =~= cs);
                    assert(false);
                }
                lemma_encode_prefix(s@, k);
            }
            let (v, w) = decode_scalar_at(s, consumed);
            proof {
                assert(decode_utf8(s@.skip(consumed as int))[0] == cs.skip(k)[0]);
                assert(cs.skip(k)[0] == cs[k]);
            }
            let needed: usize = if v < 0x10000 {
                1
            } else {
                2
            };
            if cap - out.len() < needed {
                proof {
                    assert(utf16_units(cs[k]).len() == needed);
                }
                break;
            }
            push_units(&mut out, v, Ghost(cs[k]));
            proof {
                assert(cs.take(k + 1) =~= cs.take(k) + seq![cs[k]]);
                lemma_encode_utf16_concat(cs.take(k), seq![cs[k]]);
                lemma_encode_utf16_singleton(cs[k]);
                lemma_encode_utf8_concat(cs.take(k), seq![cs[k]]);
                lemma_encode_utf8_singleton(cs[k]);
                assert(utf16_units(cs[k]).len() == needed);
            }
            consumed = consumed + w;
            proof {
                k = k + 1;
            }
        }
        let ghost consumed_done = consumed as int;
        proof {
            lemma_encode_utf16_units_utf8_len(cs.take(k));
        }
        let mut count: usize = 0;
        let mut j: usize = 0;
        while j < out.len()
            invariant
                j <= out@.len(),
                count == units_utf8_len(out@.take(j as int)),
                units_utf8_len(out@) == consumed_done,
                0 <= consumed_done <= usize::MAX,
            decreases out@.len() - j,
        {
            let u = out[j];
            let cb: usize = if u <= 0x7F {
                1
            } else if u <= 0x7FF {
                2
            } else if 0xDC00 <= u && u <= 0xDFFF {
                1
            } else {
                3
            };
            proof {
                assert(cb == unit_utf8_contribution(u));
                assert(out@.take(j as int + 1) =~= out@.take(j as int) + seq![u]);
                lemma_units_utf8_len_concat(out@.take(j as int), seq![u]);
                assert(units_utf8_len(seq![u]) == unit_utf8_contribution(u)) by {
                    reveal_with_fuel(units_utf8_len, 2);
                    assert(seq![u].drop_first() =~= Seq::<u16>::empty());
                }
                assert(out@ =~= out@.take(j as int + 1) + out@.skip(j as int + 1));
                lemma_units_utf8_len_concat(out@.take(j as int + 1), out@.skip(j as int + 1));
            }
            count = count + cb;
            j = j + 1;
        }
        proof {
            assert(out@.take(out@.len() as int) =~= out@);
            assert(count == consumed);
        }
        let remaining: &[u8] = slice_subrange(s, count, s.len());
        proof {
            assert(remaining@ =~= s@.skip(consumed as int));
            assert(direct_result_for(s@, cap as nat, k, remaining@, out@));
        }
        Utf8ToUtf16Result { remaining, output: out }
    }
}

impl Utf8ToUtf16 for Rust {
    fn cvt<'a>(s: &'a [u8], cap: usize) -> (r: Utf8ToUtf16Result<'a>) {
        let r = Rust::convert(s, cap);
        proof {
            lemma_direct_meets_cvt_post(s@, cap as nat, r.remaining@, r.output@);
        }
        r
    }
}

impl Windows {
    /// Clamps the input to the longest boundary-aligned prefix whose byte
    /// length fits the capacity, then converts that whole prefix in bulk.
    /// This is the platform-assisted strategy under its exact contract: the
    /// consumed bytes are precisely the floor character boundary of
    /// `min(cap, len)`, and with an empty clamp nothing is converted.
    pub fn convert<'a>(s: &'a [u8], cap: usize) -> (r: Utf8ToUtf16Result<'a>)
        requires
            valid_utf8(s@),
        ensures
            clamped_post(s@, cap as nat, r.remaining@, r.output@),
    {
        let limit: usize = if cap < s.len() {
            cap
        } else {
            s.len()
        };
        let b = floor_char_boundary(s, limit);
        if b == 0 {
            proof {
                assert(s@.skip(0) =~= s@);
                assert(s@.take(0) =~= Seq::<u8>::empty());
                assert(decode_utf8(s@.take(0)) =~= Seq::<char>::empty());
                assert(clamp_result_for(s@, cap as nat, 0, s@, Seq::<u16>::empty()));
            }
            let out: Vec<u16> = Vec::new();
            return Utf8ToUtf16Result { remaining: s, output: out };
        }
        let prefix: &[u8] = slice_subrange(s, 0, b);
        proof {
            valid_utf8_split(s@, b as int);
            assert(prefix@ =~= s@.take(b as int));
        }
        let out = bulk_transcode(prefix);
        let remaining: &[u8] = slice_subrange(s, b, s.len());
        proof {
            assert(remaining@ =~= s@.skip(b as int));
            assert(clamp_result_for(s@, cap as nat, b as int, remaining@, out@));
        }
        Utf8ToUtf16Result { remaining, output: out }
    }
}

impl Utf8ToUtf16 for Windows {
    fn cvt<'a>(s: &'a [u8], cap: usize) -> (r: Utf8ToUtf16Result<'a>) {
        let r = Windows::convert(s, cap);
        proof {
            lemma_clamped_meets_cvt_post(s@, cap as nat, r.remaining@, r.output@);
        }
        r
    }
}

/// The direct strategy's greedy-by-units result meets the shared contract:
/// bytes dominate code units on both sides of the stop rule, and with a
/// capacity of at least 4 the first character always fits.
pub proof fn lemma_direct_meets_cvt_post(s: Seq<u8>, cap: nat, remaining: Seq<u8>, output: Seq<u16>)
    requires
        valid_utf8(s),
        direct_post(s, cap, remaining, output),
    ensures
        cvt_post(s, cap, remaining, output),
{
    let k = choose|k: int| direct_result_for(s, cap, k, remaining, output);
    let cs = decode_utf8(s);
    lemma_encode_prefix(s, k);
    if k < cs.len() {
        lemma_encode_utf16_units_utf8_len(cs.take(k));
        lemma_units_len_le_utf8_len(output);
        lemma_char_units_le_bytes(cs[k]);
        assert(cs.take(k + 1) =~= cs.take(k) + seq![cs[k]]);
        lemma_encode_utf8_concat(cs.take(k), seq![cs[k]]);
        lemma_encode_utf8_singleton(cs[k]);
        assert(encode_utf8(cs.take(k + 1)).len() > cap);
    }
    assert(cvt_result_for(s, cap, k, remaining, output));
    if cap >= 4 && s.len() > 0 {
        assert(cs.len() > 0);
        if k == 0 {
            assert(cs.take(0) =~= Seq::<char>::empty());
            assert(output.len() == 0);
            assert(false);
        }
        assert(remaining.len() < s.len());
    }
}

/// Whether the direct strategy's output is empty is decided exactly by the
/// first character's code-unit count against the capacity, and an empty
/// output leaves the input unchanged: the valid no-progress state.
pub proof fn lemma_direct_empty_output(s: Seq<u8>, cap: nat, remaining: Seq<u8>, output: Seq<u16>)
    requires
        valid_utf8(s),
        direct_post(s, cap, remaining, output),
        s.len() > 0,
    ensures
        output.len() == 0 <==> cap < utf16_units(decode_utf8(s)[0]).len(),
        output.len() == 0 ==> remaining == s,
{
    let k = choose|k: int| direct_result_for(s, cap, k, remaining, output);
    let cs = decode_utf8(s);
    assert(cs.len() > 0);
    if k == 0 {
        assert(cs.take(0) =~= Seq::<char>::empty());
        assert(output.len() == 0);
        assert(cap < utf16_units(cs[0]).len());
        assert(remaining =~= s);
    } else {
        assert(cs.take(k).len() > 0);
        assert(cs.take(k)[0] == cs[0]);
        assert(output.len() >= utf16_units(cs[0]).len());
        assert(output.len() > 0);
        assert(!(cap < utf16_units(cs[0]).len()));
    }
}

/// The platform-assisted strategy's byte-clamped result meets the shared
/// contract: the clamp converts whole characters, its output fits because
/// code units never outnumber bytes, the next boundary lies past the
/// limit, and with a capacity of at least 4 the first character's end is
/// always within the clamp.
pub proof fn lemma_clamped_meets_cvt_post(
    s: Seq<u8>,
    cap: nat,
    remaining: Seq<u8>,
    output: Seq<u16>,
)
    requires
        valid_utf8(s),
        clamped_post(s, cap, remaining, output),
    ensures
        cvt_post(s, cap, remaining, output),
{
    let b = choose|b: int| clamp_result_for(s, cap, b, remaining, output);
    let cs = decode_utf8(s);
    let limit: int = if cap < s.len() {
        cap as int
    } else {
        s.len() as int
    };
    valid_utf8_split(s, b);
    decode_utf8_split(s, b);
    let dp = decode_utf8(s.subrange(0, b));
    let k = dp.len() as int;
    assert(s.take(b) =~= s.subrange(0, b));
    assert(cs =~= dp + decode_utf8(s.subrange(b, s.len() as int)));
    assert(cs.take(k) =~= dp);
    decode_utf8_encode_utf8(s.subrange(0, b));
    assert(encode_utf8(cs.take(k)).len() == b);
    assert(remaining =~= s.skip(b));
    lemma_utf16_len_le_utf8_len(dp);
    assert(output.len() <= cap);
    if k < cs.len() {
        lemma_encode_prefix(s, k + 1);
        assert(cs.take(k + 1) =~= cs.take(k) + seq![cs[k]]);
        lemma_encode_utf8_concat(cs.take(k), seq![cs[k]]);
        lemma_encode_utf8_singleton(cs[k]);
        let n1 = encode_utf8(cs.take(k + 1)).len() as int;
        assert(n1 > b);
        if n1 <= limit {
            assert(false);
        }
        assert(n1 > cap);
    }
    assert(cvt_result_for(s, cap, k, remaining, output));
    if cap >= 4 && s.len() > 0 {
        decode_utf8_encode_utf8(s);
        encode_utf8_first_scalar(cs);
        let len1 = length_of_first_scalar(s);
        assert(1 <= len1 <= 4);
        assert(len1 <= s.len());
        assert(is_char_boundary(pop_first_scalar(s), 0));
        assert(is_char_boundary(s, len1));
        assert(len1 <= b);
        assert(remaining.len() < s.len());
    }
}

/// Drives a transcoder over the whole input with a fresh `cap`-unit buffer
/// for every call and concatenates the produced views. `None` reports the
/// no-progress condition: a capacity too small to hold the next character.
pub fn convert_all<T: Utf8ToUtf16>(s: &[u8], cap: usize) -> (r: Option<Vec<u16>>)
    requires
        valid_utf8(s@),
        cap >= 1,
    ensures
        r matches Some(out) ==> out@ == encode_utf16(decode_utf8(s@)),
        cap >= 4 ==> r is Some,
{
    let mut acc: Vec<u16> = Vec::new();
    let mut cur: &[u8] = s;
    proof {
        assert(acc@ + encode_utf16(decode_utf8(cur@)) =~= encode_utf16(decode_utf8(s@)));
    }
    while cur.len() != 0
        invariant
            valid_utf8(cur@),
            cap >= 1,
            acc@ + encode_utf16(decode_utf8(cur@)) == encode_utf16(decode_utf8(s@)),
        decreases cur@.len(),
    {
        let res = T::cvt(cur, cap);
        if res.remaining.len() >= cur.len() {
            proof {
                assert(cap < 4);
            }
            return None;
        }
        proof {
            let k = choose|k: int|
                cvt_result_for(cur@, cap as nat, k, res.remaining@, res.output@);
            let csc = decode_utf8(cur@);
            lemma_encode_prefix(cur@, k);
            assert(csc.take(k) + csc.skip(k) =~= csc);
            lemma_encode_utf16_concat(csc.take(k), csc.skip(k));
            assert((acc@ + res.output@) + encode_utf16(decode_utf8(res.remaining@)) =~= acc@ + (
            encode_utf16(csc.take(k)) + encode_utf16(csc.skip(k))));
            assert(acc@ + (encode_utf16(csc.take(k)) + encode_utf16(csc.skip(k))) =~= acc@
                + encode_utf16(csc));
        }
        let mut out_v = res.output;
        acc.append(&mut out_v);
        cur = res.remaining;
    }
    proof {
        assert(decode_utf8(cur@) =~= Seq::<char>::empty());
        assert(encode_utf16(decode_utf8(cur@)) =~= Seq::<u16>::empty());
        assert(acc@ =~= encode_utf16(decode_utf8(s@)));
    }
    Some(acc)
}

/// A complete drain of `s`: every chunk is the output view of one
/// transcoder call, made with any strategy meeting the contract and any
/// buffer capacity, on the input left over by the calls before it, until no
/// input remains.
pub open spec fn drain_chunks(s: Seq<u8>, chunks: Seq<Seq<u16>>) -> bool
    decreases chunks.len(),
{
    if chunks.len() == 0 {
        s.len() == 0
    } else {
        exists|cap: nat, rem: Seq<u8>|
            cvt_post(s, cap, rem, chunks[0]) && drain_chunks(rem, chunks.drop_first())
    }
}

/// A complete drain concatenates to the full UTF-16 encoding of the text,
/// whatever strategies and capacities produced its chunks.
pub proof fn lemma_drain_chunks_canonical(s: Seq<u8>, chunks: Seq<Seq<u16>>)
    requires
        valid_utf8(s),
        drain_chunks(s, chunks),
    ensures
        chunks.flatten() == encode_utf16(decode_utf8(s)),
    decreases chunks.len(),
{
    if chunks.len() == 0 {
        assert(decode_utf8(s) =~= Seq::<char>::empty());
        assert(chunks.flatten() =~= encode_utf16(decode_utf8(s)));
    } else {
        let (cap, rem) = choose|cap: nat, rem: Seq<u8>|
            cvt_post(s, cap, rem, chunks[0]) && drain_chunks(rem, chunks.drop_first());
        let k = choose|k: int| cvt_result_for(s, cap, k, rem, chunks[0]);
        let cs = decode_utf8(s);
        lemma_encode_prefix(s, k);
        assert(cs.take(k) + cs.skip(k) =~= cs);
        lemma_encode_utf16_concat(cs.take(k), cs.skip(k));
        lemma_drain_chunks_canonical(rem, chunks.drop_first());
        assert(chunks.flatten() =~= chunks[0] + chunks.drop_first().flatten());
        assert(chunks[0] + chunks.drop_first().flatten() =~= encode_utf16(cs));
    }
}

/// Strategy equivalence: two complete drains of the same text, by any
/// strategies and any buffer capacities, produce identical concatenated
/// code units.
pub proof fn lemma_strategy_equivalence(s: Seq<u8>, chunks_a: Seq<Seq<u16>>, chunks_b: Seq<
    Seq<u16>,
>)
    requires
        valid_utf8(s),
        drain_chunks(s, chunks_a),
        drain_chunks(s, chunks_b),
    ensures
        chunks_a.flatten() == chunks_b.flatten(),
{
    lemma_drain_chunks_canonical(s, chunks_a);
    lemma_drain_chunks_canonical(s, chunks_b);
}

/// Boundary consumption exactness: one transcoder call consumes exactly the
/// bytes whose encoding produced its output view, and the accounting rule
/// recovers that count from the view alone.
pub proof fn lemma_consumption_exact(s: Seq<u8>, cap: nat, remaining: Seq<u8>, output: Seq<u16>)
    requires
        valid_utf8(s),
        cvt_post(s, cap, remaining, output),
    ensures
        remaining.len() <= s.len(),
        s.len() - remaining.len() == units_utf8_len(output),
{
    let k = choose|k: int| cvt_result_for(s, cap, k, remaining, output);
    lemma_encode_prefix(s, k);
    lemma_encode_utf16_units_utf8_len(decode_utf8(s).take(k));
}

/// No truncated surrogates: no output view ever ends with an unpaired high
/// surrogate.
pub proof fn lemma_no_truncated_surrogate(s: Seq<u8>, cap: nat, remaining: Seq<u8>, output: Seq<u16>)
    requires
        valid_utf8(s),
        cvt_post(s, cap, remaining, output),
        output.len() > 0,
    ensures
        !is_high_surrogate(output.last()),
{
    let k = choose|k: int| cvt_result_for(s, cap, k, remaining, output);
    lemma_encode_utf16_last_not_high(decode_utf8(s).take(k));
}

/// Progress: with a capacity of at least 4 code units, a transcoder call on
/// nonempty input strictly shrinks the remaining input.
pub proof fn lemma_progress(s: Seq<u8>, cap: nat, remaining: Seq<u8>, output: Seq<u16>)
    requires
        valid_utf8(s),
        cvt_post(s, cap, remaining, output),
        cap >= 4,
        s.len() > 0,
    ensures
        remaining.len() < s.len(),
{
}

} // verus!
