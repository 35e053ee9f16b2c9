//! The executable encoder: appends the wire form of each value to a
//! growing byte buffer, proved to emit exactly the `enc_*` bytes of
//! the wire model.
use crate::error::Error;
use crate::wire::concat_enc;
use crate::wire::enc_bool;
use crate::wire::enc_bytes;
use crate::wire::enc_opt_u64;
use crate::wire::enc_str;
use crate::wire::enc_str_pair;
use crate::wire::enc_str_pair_seq;
use crate::wire::enc_str_seq;
use crate::wire::enc_u64;
use crate::wire::pad_len;
use crate::wire::pair_enc;
use crate::wire::str_enc;
use crate::wire::zero_pad;
use vstd::prelude::*;

verus! {

/// Concatenating runs of encodings distributes over concatenating the
/// runs themselves.
pub proof fn lemma_concat_enc_app<T>(s1: Seq<T>, s2: Seq<T>, enc: spec_fn(T) -> Seq<u8>)
    ensures
        concat_enc(s1 + s2, enc) == concat_enc(s1, enc) + concat_enc(s2, enc),
    decreases s1.len(),
{
    if s1.len() == 0 {
        assert(s1 + s2 =~= s2);
        assert(concat_enc(s1, enc) + concat_enc(s2, enc) =~= concat_enc(s2, enc));
    } else {
        assert((s1 + s2).drop_first() =~= s1.drop_first() + s2);
        lemma_concat_enc_app(s1.drop_first(), s2, enc);
        assert(concat_enc(s1 + s2, enc) == enc(s1[0]) + (concat_enc(s1.drop_first(), enc)
            + concat_enc(s2, enc)));
        assert(enc(s1[0]) + (concat_enc(s1.drop_first(), enc) + concat_enc(s2, enc)) =~= (enc(
            s1[0],
        ) + concat_enc(s1.drop_first(), enc)) + concat_enc(s2, enc));
    }
}

/// Appending one more element to a run of encodings.
pub proof fn lemma_concat_enc_push<T>(s: Seq<T>, v: T, enc: spec_fn(T) -> Seq<u8>)
    ensures
        concat_enc(s.push(v), enc) == concat_enc(s, enc) + enc(v),
{
    assert(s.push(v) =~= s + seq![v]);
    lemma_concat_enc_app(s, seq![v], enc);
    assert(seq![v].drop_first() =~= Seq::<T>::empty());
    assert(concat_enc(Seq::<T>::empty(), enc) =~= Seq::<u8>::empty());
    assert(concat_enc(seq![v], enc) == enc(seq![v][0]) + concat_enc(seq![v].drop_first(), enc));
    assert(concat_enc(seq![v], enc) =~= enc(v));
}

/// The encoder: a byte buffer that values are appended to in wire
/// form.
pub struct Serializer {
    pub buf: Vec<u8>,
}

impl Serializer {
    /// An encoder over an empty buffer.
    pub fn new() -> (r: Self)
        ensures
            r.buf@ == Seq::<u8>::empty(),
    {
        Serializer { buf: Vec::new() }
    }

    /// Hands the encoded bytes over.
    pub fn into_bytes(self) -> (r: Vec<u8>)
        ensures
            r == self.buf,
    {
        self.buf
    }

    /// Appends a `u64`: eight little-endian bytes.
    pub fn write_u64(&mut self, v: u64)
        ensures
            final(self).buf@ == old(self).buf@ + enc_u64(v),
    {
        let bytes = vstd::bytes::u64_to_le_bytes(v);
        self.buf.append(&mut { bytes });
    }

    /// Appends a boolean: a `u64` that is one or zero.
    pub fn write_bool(&mut self, v: bool)
        ensures
            final(self).buf@ == old(self).buf@ + enc_bool(v),
    {
        if v {
            self.write_u64(1);
        } else {
            self.write_u64(0);
        }
    }

    /// Appends a byte string: length, payload, zero padding to the
    /// next word boundary.
    pub fn write_bytes(&mut self, v: &[u8])
        ensures
            final(self).buf@ == old(self).buf@ + enc_bytes(v@),
    {
        let len = v.len();
        self.write_u64(len as u64);
        self.buf.extend_from_slice(v);
        let rem = len % 8;
        let pad: usize = if rem == 0 {
            0
        } else {
            8 - rem
        };
        assert(pad == pad_len(v@.len() as int));
        let mut i: usize = 0;
        while i < pad
            invariant
                i <= pad,
                self.buf@ == old(self).buf@ + enc_u64(v@.len() as u64) + v@ + zero_pad(
                    i as int,
                ),
            decreases pad - i,
        {
            self.buf.push(0);
            assert(zero_pad(i as int).push(0u8) =~= zero_pad(i + 1 as int));
            i = i + 1;
        }
        assert(old(self).buf@ + enc_u64(v@.len() as u64) + v@ + zero_pad(pad as int) =~= old(
            self,
        ).buf@ + enc_bytes(v@));
    }

    /// Appends a string: the byte string of its UTF-8 bytes.
    pub fn write_str(&mut self, v: &str)
        ensures
            final(self).buf@ == old(self).buf@ + enc_str(v@),
    {
        self.write_bytes(v.as_bytes());
    }

    /// Appends an optional `u64`: a tag, then the value when present.
    pub fn write_opt_u64(&mut self, v: Option<u64>)
        ensures
            final(self).buf@ == old(self).buf@ + enc_opt_u64(v),
    {
        match v {
            None => self.write_bool(false),
            Some(x) => {
                self.write_bool(true);
                self.write_u64(x);
                assert(old(self).buf@ + enc_bool(true) + enc_u64(x) =~= old(self).buf@
                    + enc_opt_u64(Some(x)));
            },
        }
    }

    /// Appends a sequence of strings: count, then elements.
    pub fn write_str_seq(&mut self, items: &Vec<String>)
        ensures
            final(self).buf@ == old(self).buf@ + enc_str_seq(items.deep_view()),
    {
        let ghost dv = items.deep_view();
        let count = items.len() as u64;
        let mut run = SeqSerializer::new(self, count);
        let mut i: usize = 0;
        assert(dv.take(0) =~= Seq::<Seq<char>>::empty());
        while i < items.len()
            invariant
                i <= items.len(),
                items.len() <= u64::MAX,
                run.remain == items.len() - i,
                dv == items.deep_view(),
                self.buf@ == old(self).buf@ + enc_u64(items.len() as u64) + concat_enc(
                    dv.take(i as int),
                    str_enc(),
                ),
            decreases items.len() - i,
        {
            let r = run.element_str(self, items[i].as_str());
            match r {
                Ok(_) => {},
                Err(_) => {
                    assert(false);
                },
            }
            proof {
                assert(dv[i as int] == items[i as int]@);
                lemma_concat_enc_push(dv.take(i as int), dv[i as int], str_enc());
                assert(dv.take(i as int).push(dv[i as int]) =~= dv.take(i + 1));
            }
            i = i + 1;
        }
        assert(dv.take(items.len() as int) =~= dv);
        assert(old(self).buf@ + enc_u64(items.len() as u64) + concat_enc(dv, str_enc()) =~= old(
            self,
        ).buf@ + enc_str_seq(dv));
    }

    /// Appends a sequence of string pairs: count, then elements.
    pub fn write_str_pair_seq(&mut self, items: &Vec<(String, String)>)
        ensures
            final(self).buf@ == old(self).buf@ + enc_str_pair_seq(items.deep_view()),
    {
        let ghost dv = items.deep_view();
        let count = items.len() as u64;
        let mut run = SeqSerializer::new(self, count);
        let mut i: usize = 0;
        assert(dv.take(0) =~= Seq::<(Seq<char>, Seq<char>)>::empty());
        while i < items.len()
            invariant
                i <= items.len(),
                items.len() <= u64::MAX,
                run.remain == items.len() - i,
                dv == items.deep_view(),
                self.buf@ == old(self).buf@ + enc_u64(items.len() as u64) + concat_enc(
                    dv.take(i as int),
                    pair_enc(),
                ),
            decreases items.len() - i,
        {
            let r = run.element_str_pair(self, items[i].0.as_str(), items[i].1.as_str());
            match r {
                Ok(_) => {},
                Err(_) => {
                    assert(false);
                },
            }
            proof {
                assert(dv[i as int] == (items[i as int].0@, items[i as int].1@));
                lemma_concat_enc_push(dv.take(i as int), dv[i as int], pair_enc());
                assert(dv.take(i as int).push(dv[i as int]) =~= dv.take(i + 1));
            }
            i = i + 1;
        }
        assert(dv.take(items.len() as int) =~= dv);
        assert(old(self).buf@ + enc_u64(items.len() as u64) + concat_enc(dv, pair_enc()) =~= old(
            self,
        ).buf@ + enc_str_pair_seq(dv));
    }
}

/// A counted run of elements being encoded: the declared count goes
/// out first, and the encoder counts the elements off against it, so
/// that an imbalance surfaces as `EncodingArity` instead of a corrupt
/// stream.
pub struct SeqSerializer {
    pub remain: u64,
}

impl SeqSerializer {
    /// Opens a run: writes the declared count.
    pub fn new(ser: &mut Serializer, len: u64) -> (r: Self)
        ensures
            final(ser).buf@ == old(ser).buf@ + enc_u64(len),
            r.remain == len,
    {
        ser.write_u64(len);
        SeqSerializer { remain: len }
    }

    /// Encodes one string element, or refuses one past the declared
    /// count.
    pub fn element_str(&mut self, ser: &mut Serializer, v: &str) -> (r: Result<(), Error>)
        ensures
            match r {
                Ok(_) => old(self).remain > 0 && final(self).remain == old(self).remain - 1
                    && final(ser).buf@ == old(ser).buf@ + enc_str(v@),
                Err(e) => e == Error::EncodingArity && old(self).remain == 0 && *final(self)
                    == *old(self) && *final(ser) == *old(ser),
            },
    {
        if self.remain == 0 {
            return Err(Error::EncodingArity);
        }
        self.remain = self.remain - 1;
        ser.write_str(v);
        Ok(())
    }

    /// Encodes one pair element, or refuses one past the declared
    /// count.
    pub fn element_str_pair(&mut self, ser: &mut Serializer, k: &str, v: &str) -> (r: Result<
        (),
        Error,
    >)
        ensures
            match r {
                Ok(_) => old(self).remain > 0 && final(self).remain == old(self).remain - 1
                    && final(ser).buf@ == old(ser).buf@ + enc_str_pair((k@, v@)),
                Err(e) => e == Error::EncodingArity && old(self).remain == 0 && *final(self)
                    == *old(self) && *final(ser) == *old(ser),
            },
    {
        if self.remain == 0 {
            return Err(Error::EncodingArity);
        }
        self.remain = self.remain - 1;
        ser.write_str(k);
        ser.write_str(v);
        proof {
            assert(old(ser).buf@ + enc_str(k@) + enc_str(v@) =~= old(ser).buf@ + enc_str_pair(
                (k@, v@),
            ));
        }
        Ok(())
    }

    /// Closes the run: every declared element must have been encoded.
    pub fn end(self) -> (r: Result<(), Error>)
        ensures
            match r {
                Ok(_) => self.remain == 0,
                Err(e) => e == Error::EncodingArity && self.remain != 0,
            },
    {
        if self.remain == 0 {
            Ok(())
        } else {
            Err(Error::EncodingArity)
        }
    }
}

} // verus!
