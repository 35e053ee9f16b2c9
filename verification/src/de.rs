//! The executable decoder: reads values off a byte buffer, proved to
//! follow the `dec_*` functions of the wire model exactly, and to
//! report each fault kind precisely: `EndOfStream` only when the
//! stream ended right where a value would have begun, `Truncated` when
//! a value ended early, `Encoding` when a string's bytes are not
//! UTF-8.
use crate::error::Error;
use crate::wire::dec_bool;
use crate::wire::dec_bytes;
use crate::wire::dec_n;
use crate::wire::dec_opt_u64;
use crate::wire::dec_str;
use crate::wire::dec_str_pair;
use crate::wire::dec_str_pair_seq;
use crate::wire::dec_str_seq;
use crate::wire::dec_u64;
use crate::wire::lemma_dec_n_bounds;
use crate::wire::lemma_dec_n_snoc;
use crate::wire::lemma_dec_n_stuck;
use crate::wire::lemma_pair_dec_consumes;
use crate::wire::lemma_str_dec_consumes;
use crate::wire::pad_len;
use crate::wire::pair_dec;
use crate::wire::str_dec;
use vstd::prelude::*;
use vstd::utf8::decode_utf8;
use vstd::utf8::valid_utf8;

verus! {

/// The fault when a value had to begin at `b` and could not be read
/// whole: a clean end of stream only when nothing of it had arrived.
pub open spec fn start_err(b: Seq<u8>) -> Error {
    if b.len() == 0 {
        Error::EndOfStream
    } else {
        Error::Truncated
    }
}

/// The fault of a failed string read at the start of a value.
pub open spec fn str_err(b: Seq<u8>) -> Error {
    if dec_bytes(b) is Some {
        Error::Encoding
    } else {
        start_err(b)
    }
}

/// The fault of a failed string read in the middle of a value, where
/// a short read is `Truncated` whether or not anything arrived.
pub open spec fn mid_str_err(b: Seq<u8>) -> Error {
    if dec_bytes(b) is Some {
        Error::Encoding
    } else {
        Error::Truncated
    }
}

/// The fault of a failed pair read in the middle of a value.
pub open spec fn mid_pair_err(b: Seq<u8>) -> Error {
    match dec_str(b) {
        Some((_, k)) => mid_str_err(b.skip(k)),
        None => mid_str_err(b),
    }
}

/// The fault of a failed run of `n` strings.
pub open spec fn str_n_err(b: Seq<u8>, n: nat) -> Error
    decreases n,
{
    if n == 0 {
        Error::Truncated
    } else {
        match dec_str(b) {
            Some((_, k)) => str_n_err(b.skip(k), (n - 1) as nat),
            None => mid_str_err(b),
        }
    }
}

/// The fault of a failed run of `n` string pairs.
pub open spec fn pair_n_err(b: Seq<u8>, n: nat) -> Error
    decreases n,
{
    if n == 0 {
        Error::Truncated
    } else {
        match dec_str_pair(b) {
            Some((_, k)) => pair_n_err(b.skip(k), (n - 1) as nat),
            None => mid_pair_err(b),
        }
    }
}

/// The fault of a failed sequence-of-strings read.
pub open spec fn str_seq_err(b: Seq<u8>) -> Error {
    if b.len() < 8 {
        start_err(b)
    } else {
        str_n_err(b.skip(8), dec_u64(b)->Some_0.0 as nat)
    }
}

/// The fault of a failed sequence-of-pairs read.
pub open spec fn pair_seq_err(b: Seq<u8>) -> Error {
    if b.len() < 8 {
        start_err(b)
    } else {
        pair_n_err(b.skip(8), dec_u64(b)->Some_0.0 as nat)
    }
}

/// The fault of a failed optional-`u64` read.
pub open spec fn opt_u64_err(b: Seq<u8>) -> Error {
    if b.len() < 8 {
        start_err(b)
    } else {
        Error::Truncated
    }
}

/// A failed run's fault is a codec fault: a short read or bad UTF-8.
pub proof fn lemma_str_n_err_kinds(b: Seq<u8>, n: nat)
    ensures
        str_n_err(b, n) == Error::Truncated || str_n_err(b, n) == Error::Encoding,
    decreases n,
{
    if n > 0 {
        match dec_str(b) {
            Some((_, k)) => {
                lemma_str_n_err_kinds(b.skip(k), (n - 1) as nat);
            },
            None => {},
        }
    }
}

/// A failed run's fault is a codec fault: a short read or bad UTF-8.
pub proof fn lemma_pair_n_err_kinds(b: Seq<u8>, n: nat)
    ensures
        pair_n_err(b, n) == Error::Truncated || pair_n_err(b, n) == Error::Encoding,
    decreases n,
{
    if n > 0 {
        match dec_str_pair(b) {
            Some((_, k)) => {
                lemma_pair_n_err_kinds(b.skip(k), (n - 1) as nat);
            },
            None => {},
        }
    }
}

/// The fault of a failed run is the fault of its first failing
/// element.
pub proof fn lemma_str_n_err_at(b: Seq<u8>, i: nat, n: nat)
    requires
        i < n,
        dec_n(b, i, str_dec()) is Some,
        str_dec()(b.skip(dec_n(b, i, str_dec())->Some_0.1)) is None,
    ensures
        str_n_err(b, n) == mid_str_err(b.skip(dec_n(b, i, str_dec())->Some_0.1)),
    decreases i,
{
    lemma_str_dec_consumes();
    if i == 0 {
        assert(b.skip(0) == b);
    } else {
        let (v0, k0) = str_dec()(b)->Some_0;
        let (tail, mt) = dec_n(b.skip(k0), (i - 1) as nat, str_dec())->Some_0;
        lemma_dec_n_bounds(b.skip(k0), (i - 1) as nat, str_dec());
        assert(b.skip(k0).skip(mt) =~= b.skip(k0 + mt));
        lemma_str_n_err_at(b.skip(k0), (i - 1) as nat, (n - 1) as nat);
    }
}

/// The fault of a failed run is the fault of its first failing
/// element.
pub proof fn lemma_pair_n_err_at(b: Seq<u8>, i: nat, n: nat)
    requires
        i < n,
        dec_n(b, i, pair_dec()) is Some,
        pair_dec()(b.skip(dec_n(b, i, pair_dec())->Some_0.1)) is None,
    ensures
        pair_n_err(b, n) == mid_pair_err(b.skip(dec_n(b, i, pair_dec())->Some_0.1)),
    decreases i,
{
    lemma_pair_dec_consumes();
    if i == 0 {
        assert(b.skip(0) == b);
    } else {
        let (v0, k0) = pair_dec()(b)->Some_0;
        let (tail, mt) = dec_n(b.skip(k0), (i - 1) as nat, pair_dec())->Some_0;
        lemma_dec_n_bounds(b.skip(k0), (i - 1) as nat, pair_dec());
        assert(b.skip(k0).skip(mt) =~= b.skip(k0 + mt));
        lemma_pair_n_err_at(b.skip(k0), (i - 1) as nat, (n - 1) as nat);
    }
}

/// Relies on `String::from_utf8` of std: it succeeds exactly on valid
/// UTF-8 and returns the string those bytes spell.
#[verifier::external_body]
pub(crate) fn string_from_utf8(v: Vec<u8>) -> (r: Result<String, Error>)
    ensures
        match r {
            Ok(s) => valid_utf8(v@) && s@ == decode_utf8(v@),
            Err(e) => e == Error::Encoding && !valid_utf8(v@),
        },
{
    match String::from_utf8(v) {
        Ok(s) => Ok(s),
        Err(_) => Err(Error::Encoding),
    }
}

/// The decoder: a byte buffer and how far into it the reads have come.
pub struct Deserializer {
    pub data: Vec<u8>,
    pub pos: usize,
}

impl Deserializer {
    /// The reads so far have stayed inside the buffer.
    pub open spec fn wf(&self) -> bool {
        self.pos <= self.data@.len()
    }

    /// The bytes not yet read.
    pub open spec fn rest(&self) -> Seq<u8> {
        self.data@.skip(self.pos as int)
    }

    /// A decoder at the start of the given bytes.
    pub fn new(data: Vec<u8>) -> (r: Self)
        ensures
            r.data == data,
            r.pos == 0,
            r.wf(),
            r.rest() == data@,
    {
        let r = Deserializer { data, pos: 0 };
        proof {
            assert(r.rest() =~= r.data@);
        }
        r
    }

    /// How many bytes are left to read.
    pub fn remaining(&self) -> (r: usize)
        requires
            self.wf(),
        ensures
            r == self.rest().len(),
    {
        self.data.len() - self.pos
    }

    /// Passes over `n` bytes without reading them; the caller of an
    /// opaque payload (an archive) accounts for them this way.
    pub fn advance(&mut self, n: usize)
        requires
            old(self).wf(),
            n <= old(self).rest().len(),
        ensures
            final(self).wf(),
            final(self).data == old(self).data,
            final(self).pos == old(self).pos + n,
    {
        let len = self.data.len();
        proof {
            assert(self.pos + n <= len);
        }
        self.pos = self.pos + n;
    }

    /// Reads a `u64`: eight little-endian bytes.
    pub fn parse_u64(&mut self) -> (r: Result<u64, Error>)
        requires
            old(self).wf(),
        ensures
            final(self).wf(),
            final(self).data == old(self).data,
            match r {
                Ok(v) => {
                    &&& dec_u64(old(self).rest()) == Some((v, 8int))
                    &&& final(self).pos == old(self).pos + 8
                },
                Err(e) => {
                    &&& dec_u64(old(self).rest()) is None
                    &&& *final(self) == *old(self)
                    &&& e == start_err(old(self).rest())
                },
            },
    {
        let rem = self.data.len() - self.pos;
        if rem == 0 {
            return Err(Error::EndOfStream);
        }
        if rem < 8 {
            return Err(Error::Truncated);
        }
        let sl: &[u8] = &self.data.as_slice()[self.pos..self.pos + 8];
        proof {
            assert(sl@ =~= self.rest().take(8));
        }
        let v = vstd::bytes::u64_from_le_bytes(sl);
        self.pos = self.pos + 8;
        Ok(v)
    }

    /// Reads a boolean: any nonzero `u64` counts as true.
    pub fn parse_bool(&mut self) -> (r: Result<bool, Error>)
        requires
            old(self).wf(),
        ensures
            final(self).wf(),
            final(self).data == old(self).data,
            match r {
                Ok(v) => {
                    &&& dec_bool(old(self).rest()) == Some((v, 8int))
                    &&& final(self).pos == old(self).pos + 8
                },
                Err(e) => {
                    &&& dec_bool(old(self).rest()) is None
                    &&& *final(self) == *old(self)
                    &&& e == start_err(old(self).rest())
                },
            },
    {
        match self.parse_u64() {
            Ok(v) => Ok(v != 0),
            Err(e) => Err(e),
        }
    }

    /// Reads a byte string: length, payload, padding consumed but not
    /// checked.
    pub fn parse_bytes(&mut self) -> (r: Result<Vec<u8>, Error>)
        requires
            old(self).wf(),
        ensures
            final(self).wf(),
            final(self).data == old(self).data,
            match r {
                Ok(v) => {
                    &&& dec_bytes(old(self).rest()) == Some(
                        (v@, final(self).pos - old(self).pos),
                    )
                    &&& final(self).pos >= old(self).pos
                },
                Err(e) => {
                    &&& dec_bytes(old(self).rest()) is None
                    &&& *final(self) == *old(self)
                    &&& e == start_err(old(self).rest())
                },
            },
    {
        let ghost rest0 = old(self).rest();
        let start = self.pos;
        let len64 = match self.parse_u64() {
            Ok(v) => v,
            Err(e) => {
                return Err(e);
            },
        };
        let rem = self.data.len() - self.pos;
        if len64 > rem as u64 {
            self.pos = start;
            return Err(Error::Truncated);
        }
        let len = len64 as usize;
        let r8 = len % 8;
        let pad: usize = if r8 == 0 {
            0
        } else {
            8 - r8
        };
        assert(pad == pad_len(len64 as int));
        if rem - len < pad {
            self.pos = start;
            return Err(Error::Truncated);
        }
        let mut out: Vec<u8> = Vec::new();
        let p = self.pos;
        let mut i: usize = 0;
        while i < len
            invariant
                i <= len,
                self.pos == p,
                self.data == old(self).data,
                p + len <= self.data.len(),
                out@ =~= self.data@.subrange(p as int, p + i),
            decreases len - i,
        {
            let b = self.data[p + i];
            out.push(b);
            proof {
                assert(out@ =~= self.data@.subrange(p as int, p + i + 1));
            }
            i = i + 1;
        }
        self.pos = self.pos + len + pad;
        proof {
            assert(out@ =~= rest0.subrange(8, 8 + len64 as int));
        }
        Ok(out)
    }

    /// Reads a string: a byte string holding valid UTF-8. A byte
    /// string whose bytes are not UTF-8 is consumed whole — its
    /// padding included — before the `Encoding` fault is reported; a
    /// short read leaves the decoder where it began.
    pub fn parse_string(&mut self) -> (r: Result<String, Error>)
        requires
            old(self).wf(),
        ensures
            final(self).wf(),
            final(self).data == old(self).data,
            match r {
                Ok(v) => {
                    &&& dec_str(old(self).rest()) == Some((v@, final(self).pos - old(self).pos))
                    &&& final(self).pos >= old(self).pos
                },
                Err(e) => {
                    &&& dec_str(old(self).rest()) is None
                    &&& e == str_err(old(self).rest())
                    &&& (if e == Error::Encoding {
                        &&& dec_bytes(old(self).rest()) is Some
                        &&& final(self).pos == old(self).pos + dec_bytes(
                            old(self).rest(),
                        )->Some_0.1
                    } else {
                        *final(self) == *old(self)
                    })
                },
            },
    {
        let raw = match self.parse_bytes() {
            Ok(v) => v,
            Err(e) => {
                return Err(e);
            },
        };
        match string_from_utf8(raw) {
            Ok(s) => Ok(s),
            Err(e) => Err(e),
        }
    }

    /// Reads an optional `u64`: a tag, then the value when the tag is
    /// true.
    pub fn parse_opt_u64(&mut self) -> (r: Result<Option<u64>, Error>)
        requires
            old(self).wf(),
        ensures
            final(self).wf(),
            final(self).data == old(self).data,
            match r {
                Ok(v) => {
                    &&& dec_opt_u64(old(self).rest()) == Some(
                        (v, final(self).pos - old(self).pos),
                    )
                    &&& final(self).pos >= old(self).pos
                },
                Err(e) => {
                    &&& dec_opt_u64(old(self).rest()) is None
                    &&& *final(self) == *old(self)
                    &&& e == opt_u64_err(old(self).rest())
                },
            },
    {
        let ghost rest0 = self.rest();
        let start = self.pos;
        let tag = match self.parse_bool() {
            Ok(v) => v,
            Err(e) => {
                return Err(e);
            },
        };
        proof {
            assert(self.rest() =~= rest0.skip(8));
        }
        if !tag {
            return Ok(None);
        }
        match self.parse_u64() {
            Ok(v) => Ok(Some(v)),
            Err(_) => {
                self.pos = start;
                Err(Error::Truncated)
            },
        }
    }
}

impl Deserializer {
    /// Reads a pair of strings in the middle of a value: two fields,
    /// one after the other.
    pub fn parse_string_pair(&mut self) -> (r: Result<(String, String), Error>)
        requires
            old(self).wf(),
        ensures
            final(self).wf(),
            final(self).data == old(self).data,
            match r {
                Ok(v) => {
                    &&& dec_str_pair(old(self).rest()) == Some(
                        ((v.0@, v.1@), final(self).pos - old(self).pos),
                    )
                    &&& final(self).pos >= old(self).pos
                },
                Err(e) => {
                    &&& dec_str_pair(old(self).rest()) is None
                    &&& *final(self) == *old(self)
                    &&& e == mid_pair_err(old(self).rest())
                },
            },
    {
        let ghost rest0 = self.rest();
        let start = self.pos;
        let x = match self.parse_string() {
            Ok(v) => v,
            Err(e) => {
                self.pos = start;
                return Err(
                    match e {
                        Error::EndOfStream => Error::Truncated,
                        _ => e,
                    },
                );
            },
        };
        let ghost k1 = self.pos - start;
        proof {
            assert(self.rest() =~= rest0.skip(k1 as int));
        }
        let y = match self.parse_string() {
            Ok(v) => v,
            Err(e) => {
                self.pos = start;
                return Err(
                    match e {
                        Error::EndOfStream => Error::Truncated,
                        _ => e,
                    },
                );
            },
        };
        Ok((x, y))
    }

    /// Reads a sequence of strings: a count, then that many strings.
    pub fn parse_string_seq(&mut self) -> (r: Result<Vec<String>, Error>)
        requires
            old(self).wf(),
        ensures
            final(self).wf(),
            final(self).data == old(self).data,
            match r {
                Ok(v) => {
                    &&& dec_str_seq(old(self).rest()) == Some(
                        (v.deep_view(), final(self).pos - old(self).pos),
                    )
                    &&& final(self).pos >= old(self).pos
                },
                Err(e) => {
                    &&& dec_str_seq(old(self).rest()) is None
                    &&& *final(self) == *old(self)
                    &&& e == str_seq_err(old(self).rest())
                    &&& (e == Error::EndOfStream || e == Error::Truncated || e == Error::Encoding)
                },
            },
    {
        let ghost rest0 = self.rest();
        let start = self.pos;
        let count = match self.parse_u64() {
            Ok(v) => v,
            Err(e) => {
                return Err(e);
            },
        };
        let ghost b = rest0.skip(8);
        proof {
            lemma_str_dec_consumes();
            assert(self.rest() =~= b);
            
        }
        let mut out: Vec<String> = Vec::new();
        proof {
            assert(out.deep_view() =~= Seq::<Seq<char>>::empty());
            assert(b.skip(0) == b);
        }
        let mut run = SeqDeserializer::new(count);
        loop
            invariant
                self.wf(),
                self.data == old(self).data,
                run.remain <= count,
                out.len() == count - run.remain,
                start + 8 <= self.pos <= self.data@.len(),
                rest0 == old(self).rest(),
                b == rest0.skip(8),
                old(self).pos == start,
                dec_u64(rest0) == Some((count, 8int)),
                dec_n(b, (count - run.remain) as nat, str_dec()) == Some(
                    (out.deep_view(), self.pos - start - 8),
                ),
                self.rest() == b.skip(self.pos - start - 8),
            ensures
                self.wf(),
                self.data == old(self).data,
                rest0 == old(self).rest(),
                old(self).pos == start,
                start + 8 <= self.pos,
                dec_u64(rest0) == Some((count, 8int)),
                dec_n(b, count as nat, str_dec()) == Some(
                    (out.deep_view(), self.pos - start - 8),
                ),
            decreases run.remain,
        {
            let ghost done = (count - run.remain) as nat;
            let ghost m = self.pos - start - 8;
            let ghost out0 = out.deep_view();
            let r = run.next_string(self);
            match r {
                Ok(Some(s)) => {
                    proof {
                        assert(str_dec()(b.skip(m)) == dec_str(b.skip(m)));
                        lemma_dec_n_snoc(b, done, str_dec());
                    }
                    out.push(s);
                    proof {
                        assert(out.deep_view() =~= out0.push(s@));
                        let k = dec_str(b.skip(m))->Some_0.1;
                        assert(b.skip(m).skip(k) =~= b.skip(m + k));
                        assert(self.rest() =~= b.skip(self.pos - start - 8));
                    }
                },
                Ok(None) => {
                    break ;
                },
                Err(e) => {
                    proof {
                        assert(str_dec()(b.skip(m)) == dec_str(b.skip(m)));
                        lemma_dec_n_stuck(b, done, count as nat, str_dec());
                        lemma_str_n_err_at(b, done, count as nat);
                        lemma_str_n_err_kinds(b, count as nat);
                    }
                    self.pos = start;
                    return Err(
                        match e {
                            Error::EndOfStream => Error::Truncated,
                            _ => e,
                        },
                    );
                },
            }
        }
        Ok(out)
    }

    /// Reads a sequence of string pairs: a count, then that many
    /// pairs.
    pub fn parse_string_pair_seq(&mut self) -> (r: Result<Vec<(String, String)>, Error>)
        requires
            old(self).wf(),
        ensures
            final(self).wf(),
            final(self).data == old(self).data,
            match r {
                Ok(v) => {
                    &&& dec_str_pair_seq(old(self).rest()) == Some(
                        (v.deep_view(), final(self).pos - old(self).pos),
                    )
                    &&& final(self).pos >= old(self).pos
                },
                Err(e) => {
                    &&& dec_str_pair_seq(old(self).rest()) is None
                    &&& *final(self) == *old(self)
                    &&& e == pair_seq_err(old(self).rest())
                    &&& (e == Error::EndOfStream || e == Error::Truncated || e == Error::Encoding)
                },
            },
    {
        let ghost rest0 = self.rest();
        let start = self.pos;
        let count = match self.parse_u64() {
            Ok(v) => v,
            Err(e) => {
                return Err(e);
            },
        };
        let ghost b = rest0.skip(8);
        proof {
            lemma_pair_dec_consumes();
            assert(self.rest() =~= b);
            
        }
        let mut out: Vec<(String, String)> = Vec::new();
        proof {
            assert(out.deep_view() =~= Seq::<(Seq<char>, Seq<char>)>::empty());
            assert(b.skip(0) == b);
        }
        let mut i: u64 = 0;
        while i < count
            invariant
                self.wf(),
                self.data == old(self).data,
                i <= count,
                out.len() == i,
                start + 8 <= self.pos <= self.data@.len(),
                rest0 == old(self).rest(),
                b == rest0.skip(8),
                old(self).pos == start,
                dec_u64(rest0) == Some((count, 8int)),
                dec_n(b, i as nat, pair_dec()) == Some((out.deep_view(), self.pos - start - 8)),
                self.rest() == b.skip(self.pos - start - 8),
            decreases count - i,
        {
            let ghost m = self.pos - start - 8;
            let ghost out0 = out.deep_view();
            let r = self.parse_string_pair();
            match r {
                Ok(p) => {
                    proof {
                        assert(pair_dec()(b.skip(m)) == dec_str_pair(b.skip(m)));
                        lemma_dec_n_snoc(b, i as nat, pair_dec());
                    }
                    out.push(p);
                    proof {
                        assert(out.deep_view() =~= out0.push((p.0@, p.1@)));
                        let k = dec_str_pair(b.skip(m))->Some_0.1;
                        assert(b.skip(m).skip(k) =~= b.skip(m + k));
                        assert(self.rest() =~= b.skip(self.pos - start - 8));
                    }
                },
                Err(e) => {
                    proof {
                        assert(pair_dec()(b.skip(m)) == dec_str_pair(b.skip(m)));
                        lemma_dec_n_stuck(b, i as nat, count as nat, pair_dec());
                        lemma_pair_n_err_at(b, i as nat, count as nat);
                        lemma_pair_n_err_kinds(b, count as nat);
                    }
                    self.pos = start;
                    return Err(e);
                },
            }
            i = i + 1;
        }
        Ok(out)
    }
}

/// Reading a framed stream: chunks of `(length, bytes)` up to a
/// zero-length terminator, presented as one logical byte stream.
pub open spec fn dec_framed(b: Seq<u8>) -> Option<(Seq<u8>, int)>
    decreases b.len(),
{
    match dec_u64(b) {
        Some((len, _)) => if len == 0 {
            Some((Seq::empty(), 8int))
        } else {
            let l = len as int;
            if b.len() >= 8 + l {
                match dec_framed(b.skip(8 + l)) {
                    Some((rest, m)) => Some((b.subrange(8, 8 + l) + rest, 8 + l + m)),
                    None => None,
                }
            } else {
                None
            }
        },
        None => None,
    }
}

impl Deserializer {
    /// Reads `n` raw bytes, unframed and unpadded.
    pub fn take_bytes(&mut self, n: usize) -> (r: Result<Vec<u8>, Error>)
        requires
            old(self).wf(),
        ensures
            final(self).wf(),
            final(self).data == old(self).data,
            match r {
                Ok(v) => {
                    &&& old(self).rest().len() >= n
                    &&& v@ == old(self).rest().take(n as int)
                    &&& final(self).pos == old(self).pos + n
                },
                Err(e) => {
                    &&& old(self).rest().len() < n
                    &&& *final(self) == *old(self)
                    &&& e == start_err(old(self).rest())
                },
            },
    {
        let rem = self.data.len() - self.pos;
        if rem < n {
            return Err(
                if rem == 0 {
                    Error::EndOfStream
                } else {
                    Error::Truncated
                },
            );
        }
        let mut out: Vec<u8> = Vec::new();
        let p = self.pos;
        let mut i: usize = 0;
        while i < n
            invariant
                i <= n,
                self.pos == p,
                self.data == old(self).data,
                p + n <= self.data.len(),
                out@ =~= self.data@.subrange(p as int, p + i),
            decreases n - i,
        {
            let b = self.data[p + i];
            out.push(b);
            proof {
                assert(out@ =~= self.data@.subrange(p as int, p + i + 1));
            }
            i = i + 1;
        }
        self.pos = self.pos + n;
        proof {
            assert(out@ =~= old(self).rest().take(n as int));
        }
        Ok(out)
    }

    /// Drains one framed stream to its zero-length terminator and
    /// hands back the reassembled logical bytes. Any fault inside a
    /// frame leaves the decoder where it began; the connection is lost
    /// either way, since the payload position is unrecoverable.
    pub fn parse_framed(&mut self) -> (r: Result<Vec<u8>, Error>)
        requires
            old(self).wf(),
        ensures
            final(self).wf(),
            final(self).data == old(self).data,
            match r {
                Ok(v) => {
                    &&& dec_framed(old(self).rest()) == Some(
                        (v@, final(self).pos - old(self).pos),
                    )
                    &&& final(self).pos >= old(self).pos
                },
                Err(e) => {
                    &&& dec_framed(old(self).rest()) is None
                    &&& *final(self) == *old(self)
                    &&& (e == Error::EndOfStream || e == Error::Truncated)
                },
            },
    {
        let ghost rest0 = old(self).rest();
        let start = self.pos;
        let mut out: Vec<u8> = Vec::new();
        proof {
            assert(out@ + Seq::<u8>::empty() =~= out@);
            assert(rest0.skip(0) == rest0);
        }
        loop
            invariant
                self.wf(),
                self.data == old(self).data,
                start == old(self).pos,
                start <= self.pos,
                rest0 == old(self).rest(),
                self.rest() == rest0.skip(self.pos - start),
                match dec_framed(self.rest()) {
                    Some((ms, m)) => dec_framed(rest0) == Some(
                        (out@ + ms, self.pos - start + m),
                    ),
                    None => dec_framed(rest0) is None,
                },
            decreases self.rest().len(),
        {
            let ghost rest_i = self.rest();
            let len = match self.parse_u64() {
                Ok(v) => v,
                Err(_) => {
                    self.pos = start;
                    return Err(Error::Truncated);
                },
            };
            if len == 0 {
                proof {
                    assert(dec_framed(rest_i) == Some((Seq::<u8>::empty(), 8int)));
                    assert(out@ + Seq::<u8>::empty() =~= out@);
                }
                return Ok(out);
            }
            proof {
                assert(self.rest() =~= rest_i.skip(8));
            }
            let rem = self.data.len() - self.pos;
            if len > rem as u64 {
                proof {
                    assert(rest_i.len() < 8 + len);
                    assert(dec_framed(rest_i) is None);
                }
                self.pos = start;
                return Err(Error::Truncated);
            }
            let ghost out0 = out@;
            let mut chunk = match self.take_bytes(len as usize) {
                Ok(v) => v,
                Err(_) => {
                    self.pos = start;
                    return Err(Error::Truncated);
                },
            };
            out.append(&mut chunk);
            proof {
                let l = len as int;
                assert(rest_i.skip(8).take(l) =~= rest_i.subrange(8, 8 + l));
                assert(out@ =~= out0 + rest_i.subrange(8, 8 + l));
                assert(rest_i.skip(8).skip(l) =~= rest_i.skip(8 + l));
                assert(self.rest() =~= rest_i.skip(8 + l));
                assert(rest0.skip(self.pos - start) =~= self.rest());
                match dec_framed(self.rest()) {
                    Some((ms2, m2)) => {
                        assert(dec_framed(rest_i) == Some(
                            (rest_i.subrange(8, 8 + l) + ms2, 8 + l + m2),
                        ));
                        assert(out0 + (rest_i.subrange(8, 8 + l) + ms2) =~= out@ + ms2);
                    },
                    None => {
                        assert(dec_framed(rest_i) is None);
                    },
                }
            }
        }
    }
}

/// A counted run of elements being decoded: the count came off the
/// wire first, and elements are handed out until it runs dry.
pub struct SeqDeserializer {
    pub remain: u64,
}

impl SeqDeserializer {
    /// A run of `count` elements still to read.
    pub fn new(count: u64) -> (r: Self)
        ensures
            r.remain == count,
    {
        SeqDeserializer { remain: count }
    }

    /// Reads the next string element, or reports the run complete.
    pub fn next_string(&mut self, de: &mut Deserializer) -> (r: Result<Option<String>, Error>)
        requires
            old(de).wf(),
        ensures
            final(de).wf(),
            final(de).data == old(de).data,
            match r {
                Ok(Some(v)) => {
                    &&& old(self).remain > 0
                    &&& final(self).remain == old(self).remain - 1
                    &&& dec_str(old(de).rest()) == Some((v@, final(de).pos - old(de).pos))
                    &&& final(de).pos >= old(de).pos
                },
                Ok(None) => {
                    &&& old(self).remain == 0
                    &&& *final(self) == *old(self)
                    &&& *final(de) == *old(de)
                },
                Err(e) => {
                    &&& old(self).remain > 0
                    &&& dec_str(old(de).rest()) is None
                    &&& *final(self) == *old(self)
                    &&& e == str_err(old(de).rest())
                    &&& (if e == Error::Encoding {
                        &&& dec_bytes(old(de).rest()) is Some
                        &&& final(de).pos == old(de).pos + dec_bytes(old(de).rest())->Some_0.1
                    } else {
                        *final(de) == *old(de)
                    })
                },
            },
    {
        if self.remain == 0 {
            return Ok(None);
        }
        match de.parse_string() {
            Ok(s) => {
                self.remain = self.remain - 1;
                Ok(Some(s))
            },
            Err(e) => Err(e),
        }
    }
}

} // verus!
