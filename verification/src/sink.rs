//! Draining transcoder output to a write primitive.
//!
//! The write primitive is an external collaborator: handed a sequence of
//! UTF-16 code units it accepts some prefix of them, possibly shorter than
//! requested, or signals failure. The retry loop advances past exactly the
//! accepted prefix and calls again; the drainer repeatedly converts the
//! remaining input with a transcoder and forwards every produced view.

use crate::codec::{encode_utf16, lemma_encode_prefix, lemma_encode_utf16_concat};
use crate::transcode::{cvt_result_for, Utf8ToUtf16};
use vstd::prelude::*;
use vstd::slice::slice_subrange;
use vstd::utf8::{decode_utf8, valid_utf8};

verus! {

/// A write target for UTF-16 code units that may accept fewer units than
/// handed to it. On success it accepts a nonempty prefix (empty only for an
/// empty request) and reports its length; on failure it accepts nothing.
pub trait WriteSink {
    /// The code units this sink has accepted so far. The default model is
    /// the empty sequence, for external collaborators outside the verified
    /// core; a verified implementation overrides it with its real content.
    open spec fn accepted(&self) -> Seq<u16> {
        Seq::<u16>::empty()
    }

    /// Attempts to write `s`, returning how many leading units were
    /// accepted, or `None` on failure.
    fn write(&mut self, s: &[u16]) -> (r: Option<usize>)
        ensures
            (match r {
                Some(n) => n <= s@.len() && (s@.len() > 0 ==> n >= 1) && final(self).accepted()
                    == old(self).accepted() + s@.take(n as int),
                None => final(self).accepted() == old(self).accepted(),
            }),
    ;
}

/// A sink backed by a vector, with the partial-write and failure behaviour
/// of a console write primitive: each successful call accepts at most
/// `max_per_call` units, and a sink with `fail` set refuses every request.
pub struct VecSink {
    /// Everything accepted so far, in order.
    pub data: Vec<u16>,
    /// Upper bound on the units accepted by one call; treated as 1 when 0.
    pub max_per_call: usize,
    /// When set, every write call fails without accepting anything.
    pub fail: bool,
}

impl VecSink {
    /// A fresh working sink accepting at most `max_per_call` units per call.
    pub fn new(max_per_call: usize) -> (r: VecSink)
        ensures
            r.accepted() == Seq::<u16>::empty(),
            r.max_per_call == max_per_call,
            r.fail == false,
    {
        VecSink { data: Vec::new(), max_per_call, fail: false }
    }
}

/// How many units a working [`VecSink`] accepts from a request of `len`
/// units: the whole request, capped at `max_per_call` (treated as 1 when
/// 0, so that a successful nonempty write always makes progress).
pub open spec fn vec_sink_quota(max_per_call: nat, len: nat) -> nat {
    let limit: nat = if max_per_call == 0 {
        1
    } else {
        max_per_call
    };
    if len < limit {
        len
    } else {
        limit
    }
}

impl WriteSink for VecSink {
    open spec fn accepted(&self) -> Seq<u16> {
        self.data@
    }

    fn write(&mut self, s: &[u16]) -> (r: Option<usize>)
        ensures
            r is None <==> old(self).fail,
            final(self).fail == old(self).fail,
            final(self).max_per_call == old(self).max_per_call,
            (r matches Some(n) ==> n == vec_sink_quota(
                old(self).max_per_call as nat,
                s@.len(),
            )),
    {
        if self.fail {
            return None;
        }
        let limit: usize = if self.max_per_call == 0 {
            1
        } else {
            self.max_per_call
        };
        let n: usize = if s.len() < limit {
            s.len()
        } else {
            limit
        };
        let mut i: usize = 0;
        proof {
            assert(self.data@ =~= old(self).data@ + s@.take(0));
        }
        while i < n
            invariant
                i <= n,
                n <= s@.len(),
                self.data@ == old(self).data@ + s@.take(i as int),
                self.fail == old(self).fail,
                self.max_per_call == old(self).max_per_call,
            decreases n - i,
        {
            self.data.push(s[i]);
            proof {
                assert(old(self).data@ + s@.take(i as int) + seq![s@[i as int]] =~= old(
                    self,
                ).data@ + s@.take(i as int + 1));
            }
            i = i + 1;
        }
        Some(n)
    }
}

/// Writes all of `s` through the sink, retrying with exactly the unwritten
/// suffix after every partial write. Returns whether everything was
/// accepted: always for an empty request, and failure comes only from the
/// sink refusing a call, leaving the original content extended by a strict
/// prefix of `s`.
pub fn write_all_u16s<S: WriteSink>(sink: &mut S, s: &[u16]) -> (ok: bool)
    ensures
        ok ==> final(sink).accepted() == old(sink).accepted() + s@,
        s@.len() == 0 ==> ok,
        !ok ==> exists|n: int|
            0 <= n < s@.len() && final(sink).accepted() == old(sink).accepted() + s@.take(n),
{
    let mut off: usize = 0;
    proof {
        assert(sink.accepted() =~= old(sink).accepted() + s@.take(0));
    }
    while off < s.len()
        invariant
            off <= s@.len(),
            sink.accepted() == old(sink).accepted() + s@.take(off as int),
        decreases s@.len() - off,
    {
        let chunk: &[u16] = slice_subrange(s, off, s.len());
        let res = sink.write(chunk);
        match res {
            Some(n) => {
                proof {
                    assert(old(sink).accepted() + s@.take(off as int) + chunk@.take(n as int)
                        =~= old(sink).accepted() + s@.take(off as int + n as int));
                }
                off = off + n;
            },
            None => {
                proof {
                    assert(0 <= (off as int) < s@.len() && sink.accepted() == old(
                        sink,
                    ).accepted() + s@.take(off as int));
                }
                return false;
            },
        }
    }
    proof {
        assert(s@.take(s@.len() as int) =~= s@);
    }
    true
}

/// Why a drain stopped before the input was exhausted.
#[derive(Debug, PartialEq, Eq)]
pub enum DrainError {
    /// A transcoder call consumed nothing: the buffer capacity cannot hold
    /// the next character. Only possible with a capacity below 4.
    NoProgress,
    /// The write primitive signalled failure.
    WriteFailed,
}

/// Converts the whole input with transcoder `T`, a `cap`-unit buffer per
/// call, and forwards every produced view to the sink until no input
/// remains. An empty input always succeeds. Whatever happens, the sink
/// grows by a prefix of the input's UTF-16 encoding; on success, by all of
/// it.
pub fn drain<T: Utf8ToUtf16, S: WriteSink>(sink: &mut S, s: &[u8], cap: usize) -> (r: Result<
    (),
    DrainError,
>)
    requires
        valid_utf8(s@),
        cap >= 1,
    ensures
        ({
            let units = encode_utf16(decode_utf8(s@));
            &&& (r is Ok ==> final(sink).accepted() == old(sink).accepted() + units)
            &&& (s@.len() == 0 ==> r is Ok)
            &&& (r == Err::<(), DrainError>(DrainError::NoProgress) ==> cap < 4)
            &&& exists|j: int|
                0 <= j <= units.len() && final(sink).accepted() == old(sink).accepted()
                    + units.take(j)
        }),
{
    let ghost units = encode_utf16(decode_utf8(s@));
    let mut cur: &[u8] = s;
    let ghost mut done: int = 0;
    proof {
        assert(sink.accepted() =~= old(sink).accepted() + units.take(0));
        assert(units.take(0) + encode_utf16(decode_utf8(cur@)) =~= units);
    }
    while cur.len() != 0
        invariant
            valid_utf8(cur@),
            cap >= 1,
            0 <= done <= units.len(),
            units == encode_utf16(decode_utf8(s@)),
            sink.accepted() == old(sink).accepted() + units.take(done),
            units.take(done) + encode_utf16(decode_utf8(cur@)) == units,
        decreases cur@.len(),
    {
        let res = T::cvt(cur, cap);
        if res.remaining.len() >= cur.len() {
            proof {
                assert(cap < 4);
                if s@.len() == 0 {
                    assert(decode_utf8(cur@).len() > 0);
                    assert(encode_utf16(decode_utf8(cur@)).len() > 0);
                    assert(false);
                }
            }
            return Err(DrainError::NoProgress);
        }
        proof {
            let k = choose|k: int|
                cvt_result_for(cur@, cap as nat, k, res.remaining@, res.output@);
            let csc = decode_utf8(cur@);
            lemma_encode_prefix(cur@, k);
            assert(csc.take(k) + csc.skip(k) =~= csc);
            lemma_encode_utf16_concat(csc.take(k), csc.skip(k));
            assert(encode_utf16(csc) =~= res.output@ + encode_utf16(decode_utf8(res.remaining@)));
            assert(units.take(done) + res.output@ + encode_utf16(decode_utf8(res.remaining@))
                =~= units);
            assert(units.take(done + res.output@.len()) =~= units.take(done) + res.output@);
        }
        let ok = write_all_u16s(sink, res.output.as_slice());
        if !ok {
            proof {
                let pre = old(sink).accepted() + units.take(done);
                let n = choose|n: int|
                    0 <= n <= res.output@.len() && sink.accepted() == pre + res.output@.take(n);
                assert(units.take(done + n) =~= units.take(done) + res.output@.take(n));
                assert(pre + res.output@.take(n) =~= old(sink).accepted() + units.take(done + n));
                assert(0 <= done + n <= units.len() && sink.accepted() == old(sink).accepted()
                    + units.take(done + n));
                if s@.len() == 0 {
                    assert(decode_utf8(cur@).len() > 0);
                    assert(encode_utf16(decode_utf8(cur@)).len() > 0);
                    assert(false);
                }
            }
            return Err(DrainError::WriteFailed);
        }
        proof {
            assert(old(sink).accepted() + units.take(done) + res.output@ =~= old(sink).accepted()
                + units.take(done + res.output@.len()));
            done = done + res.output@.len() as int;
        }
        cur = res.remaining;
    }
    proof {
        assert(decode_utf8(cur@) =~= Seq::<char>::empty());
        assert(encode_utf16(decode_utf8(cur@)) =~= Seq::<u16>::empty());
        assert(units.take(done) =~= units);
        assert(done == units.len());
    }
    Ok(())
}

} // verus!
