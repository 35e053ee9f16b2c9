//! The mathematical model of the wire format.
//!
//! Every value travels as a whole number of eight-byte words:
//! a `u64` is eight little-endian bytes, a boolean is a `u64` that is
//! zero or one, a byte string is its length as a `u64` followed by the
//! bytes and zero padding up to the next word boundary, a string is the
//! byte string of its UTF-8 bytes, an optional is a boolean tag
//! followed by the value when present, a sequence is its count as a
//! `u64` followed by the elements, and a record is the concatenation of
//! its fields.
//!
//! `enc_*` build the canonical encoding of a value; `dec_*` read a
//! value off the front of a byte stream and say how many bytes it
//! took, or nothing when the stream is too short or malformed. The
//! `wf_*` predicates single out the streams an encoder could have
//! produced: padding bytes zero, boolean tags canonical, strings valid
//! UTF-8. The lemmas at the end state the round trips both ways.
use vstd::bytes::lemma_auto_spec_u64_to_from_le_bytes;
use vstd::bytes::spec_u64_from_le_bytes;
use vstd::bytes::spec_u64_to_le_bytes;
use vstd::prelude::*;
use vstd::utf8::decode_utf8;
use vstd::utf8::encode_utf8;
use vstd::utf8::encode_utf8_decode_utf8;
use vstd::utf8::decode_utf8_encode_utf8;
use vstd::utf8::encode_utf8_valid_utf8;
use vstd::utf8::valid_utf8;

verus! {

/// How many zero bytes follow a payload of `n` bytes to reach the
/// next eight-byte boundary.
pub open spec fn pad_len(n: int) -> int {
    (8 - n % 8) % 8
}

/// `n` zero bytes.
pub open spec fn zero_pad(n: int) -> Seq<u8> {
    Seq::new(n as nat, |i: int| 0u8)
}

pub open spec fn enc_u64(v: u64) -> Seq<u8> {
    spec_u64_to_le_bytes(v)
}

pub open spec fn enc_bool(v: bool) -> Seq<u8> {
    enc_u64(if v { 1u64 } else { 0u64 })
}

pub open spec fn enc_bytes(b: Seq<u8>) -> Seq<u8> {
    enc_u64(b.len() as u64) + b + zero_pad(pad_len(b.len() as int))
}

pub open spec fn enc_str(s: Seq<char>) -> Seq<u8> {
    enc_bytes(encode_utf8(s))
}

pub open spec fn dec_u64(b: Seq<u8>) -> Option<(u64, int)> {
    if b.len() >= 8 {
        Some((spec_u64_from_le_bytes(b.take(8)), 8int))
    } else {
        None
    }
}

pub open spec fn dec_bool(b: Seq<u8>) -> Option<(bool, int)> {
    match dec_u64(b) {
        Some((v, n)) => Some((v != 0, n)),
        None => None,
    }
}

pub open spec fn dec_bytes(b: Seq<u8>) -> Option<(Seq<u8>, int)> {
    match dec_u64(b) {
        Some((l, _)) => {
            let len = l as int;
            let total = 8 + len + pad_len(len);
            if b.len() >= total {
                Some((b.subrange(8, 8 + len), total))
            } else {
                None
            }
        },
        None => None,
    }
}

pub open spec fn dec_str(b: Seq<u8>) -> Option<(Seq<char>, int)> {
    match dec_bytes(b) {
        Some((raw, n)) => if valid_utf8(raw) {
            Some((decode_utf8(raw), n))
        } else {
            None
        },
        None => None,
    }
}

/// The streams that `enc_bytes` can produce: long enough, padding zero.
pub open spec fn wf_bytes_at(b: Seq<u8>) -> bool {
    &&& b.len() >= 8
    &&& {
        let len = spec_u64_from_le_bytes(b.take(8)) as int;
        &&& b.len() >= 8 + len + pad_len(len)
        &&& b.subrange(8 + len, 8 + len + pad_len(len)) == zero_pad(pad_len(len))
    }
}

/// The streams that `enc_str` can produce.
pub open spec fn wf_str_at(b: Seq<u8>) -> bool {
    &&& wf_bytes_at(b)
    &&& valid_utf8(b.subrange(8, 8 + spec_u64_from_le_bytes(b.take(8)) as int))
}

/// The total on-wire size of a byte string is a whole number of
/// eight-byte words.
pub proof fn lemma_enc_bytes_aligned(b: Seq<u8>)
    ensures
        enc_bytes(b).len() == 8 + b.len() + pad_len(b.len() as int),
        enc_bytes(b).len() % 8 == 0,
{
    lemma_auto_spec_u64_to_from_le_bytes();
}

/// The total on-wire size of a string is a whole number of eight-byte
/// words.
pub proof fn lemma_enc_str_aligned(s: Seq<char>)
    ensures
        enc_str(s).len() % 8 == 0,
{
    lemma_enc_bytes_aligned(encode_utf8(s));
}

/// Decoding an encoded `u64` gives the value back, whatever follows.
pub proof fn lemma_dec_enc_u64(v: u64, rest: Seq<u8>)
    ensures
        dec_u64(enc_u64(v) + rest) == Some((v, 8int)),
{
    lemma_auto_spec_u64_to_from_le_bytes();
    assert((enc_u64(v) + rest).take(8) =~= enc_u64(v));
}

/// Decoding an encoded boolean gives the value back, whatever follows.
pub proof fn lemma_dec_enc_bool(v: bool, rest: Seq<u8>)
    ensures
        dec_bool(enc_bool(v) + rest) == Some((v, 8int)),
{
    lemma_dec_enc_u64(if v { 1u64 } else { 0u64 }, rest);
}

/// Decoding an encoded byte string gives the bytes back, whatever
/// follows.
pub proof fn lemma_dec_enc_bytes(b: Seq<u8>, rest: Seq<u8>)
    requires
        b.len() <= u64::MAX,
    ensures
        dec_bytes(enc_bytes(b) + rest) == Some((b, enc_bytes(b).len() as int)),
{
    lemma_auto_spec_u64_to_from_le_bytes();
    let whole = enc_bytes(b) + rest;
    let len = b.len() as int;
    assert(whole.take(8) =~= enc_u64(b.len() as u64));
    assert(spec_u64_from_le_bytes(whole.take(8)) == b.len() as u64);
    lemma_enc_bytes_aligned(b);
    assert(whole.subrange(8, 8 + len) =~= b);
}

/// Decoding an encoded string gives the characters back, whatever
/// follows.
pub proof fn lemma_dec_enc_str(s: Seq<char>, rest: Seq<u8>)
    requires
        encode_utf8(s).len() <= u64::MAX,
    ensures
        dec_str(enc_str(s) + rest) == Some((s, enc_str(s).len() as int)),
{
    lemma_dec_enc_bytes(encode_utf8(s), rest);
    encode_utf8_valid_utf8(s);
    encode_utf8_decode_utf8(s);
}

/// Re-encoding a decoded `u64` rebuilds exactly the bytes read.
pub proof fn lemma_enc_dec_u64(b: Seq<u8>)
    requires
        dec_u64(b) is Some,
    ensures
        enc_u64(dec_u64(b)->Some_0.0) == b.take(8),
{
    lemma_auto_spec_u64_to_from_le_bytes();
}

/// Re-encoding a decoded boolean rebuilds exactly the bytes read,
/// provided the tag was canonical.
pub proof fn lemma_enc_dec_bool(b: Seq<u8>)
    requires
        dec_u64(b) is Some,
        dec_u64(b)->Some_0.0 == 0 || dec_u64(b)->Some_0.0 == 1,
    ensures
        enc_bool(dec_bool(b)->Some_0.0) == b.take(8),
{
    lemma_enc_dec_u64(b);
}

/// Re-encoding a decoded byte string rebuilds exactly the bytes read,
/// provided the padding was zero.
pub proof fn lemma_enc_dec_bytes(b: Seq<u8>)
    requires
        wf_bytes_at(b),
    ensures
        dec_bytes(b) is Some,
        enc_bytes(dec_bytes(b)->Some_0.0) == b.take(dec_bytes(b)->Some_0.1),
{
    lemma_auto_spec_u64_to_from_le_bytes();
    let len = spec_u64_from_le_bytes(b.take(8)) as int;
    let payload = b.subrange(8, 8 + len);
    let total = 8 + len + pad_len(len);
    assert(payload.len() == len);
    assert(enc_u64(payload.len() as u64) == b.take(8));
    assert(enc_bytes(payload) =~= b.take(total));
}

/// Re-encoding a decoded string rebuilds exactly the bytes read,
/// provided the stream was well formed.
pub proof fn lemma_enc_dec_str(b: Seq<u8>)
    requires
        wf_str_at(b),
    ensures
        dec_str(b) is Some,
        enc_str(dec_str(b)->Some_0.0) == b.take(dec_str(b)->Some_0.1),
{
    lemma_enc_dec_bytes(b);
    let payload = dec_bytes(b)->Some_0.0;
    decode_utf8_encode_utf8(payload);
}

/// The encodings of a run of elements, one after the other.
pub open spec fn concat_enc<T>(items: Seq<T>, enc: spec_fn(T) -> Seq<u8>) -> Seq<u8>
    decreases items.len(),
{
    if items.len() == 0 {
        Seq::empty()
    } else {
        enc(items[0]) + concat_enc(items.drop_first(), enc)
    }
}

/// Read exactly `n` elements off the front of a stream.
pub open spec fn dec_n<T>(b: Seq<u8>, n: nat, dec: spec_fn(Seq<u8>) -> Option<(T, int)>) -> Option<
    (Seq<T>, int),
>
    decreases n,
{
    if n == 0 {
        Some((Seq::empty(), 0int))
    } else {
        match dec(b) {
            Some((v, k)) => match dec_n(b.skip(k), (n - 1) as nat, dec) {
                Some((tail, m)) => Some((seq![v] + tail, k + m)),
                None => None,
            },
            None => None,
        }
    }
}

/// A stream holds `n` well-formed elements in a row.
pub open spec fn wf_n<T>(
    b: Seq<u8>,
    n: nat,
    dec: spec_fn(Seq<u8>) -> Option<(T, int)>,
    wf_one: spec_fn(Seq<u8>) -> bool,
) -> bool
    decreases n,
{
    if n == 0 {
        true
    } else {
        &&& wf_one(b)
        &&& match dec(b) {
            Some((v, k)) => wf_n(b.skip(k), (n - 1) as nat, dec, wf_one),
            None => true,
        }
    }
}

/// An element decoder is sound when it consumes a positive number of
/// the bytes it was given, never more than there are.
pub open spec fn dec_consumes<T>(dec: spec_fn(Seq<u8>) -> Option<(T, int)>) -> bool {
    forall|b: Seq<u8>|
        (#[trigger] dec(b)) is Some ==> 0 < dec(b)->Some_0.1 <= b.len()
}

/// A sound decoder's run consumes no more bytes than there are.
pub proof fn lemma_dec_n_bounds<T>(b: Seq<u8>, n: nat, dec: spec_fn(Seq<u8>) -> Option<(T, int)>)
    requires
        dec_consumes(dec),
        dec_n(b, n, dec) is Some,
    ensures
        0 <= dec_n(b, n, dec)->Some_0.1 <= b.len(),
        dec_n(b, n, dec)->Some_0.0.len() == n,
    decreases n,
{
    if n > 0 {
        let (v, k) = dec(b)->Some_0;
        lemma_dec_n_bounds(b.skip(k), (n - 1) as nat, dec);
    }
}

/// Extending a decoded run by one more decoded element.
pub proof fn lemma_dec_n_snoc<T>(b: Seq<u8>, n: nat, dec: spec_fn(Seq<u8>) -> Option<(T, int)>)
    requires
        dec_consumes(dec),
        dec_n(b, n, dec) is Some,
        dec(b.skip(dec_n(b, n, dec)->Some_0.1)) is Some,
    ensures
        ({
            let (vs, m) = dec_n(b, n, dec)->Some_0;
            let (v, k) = dec(b.skip(m))->Some_0;
            dec_n(b, n + 1, dec) == Some::<(Seq<T>, int)>((vs.push(v), m + k))
        }),
    decreases n,
{
    let (vs, m) = dec_n(b, n, dec)->Some_0;
    let (v, k) = dec(b.skip(m))->Some_0;
    if n == 0 {
        assert(b.skip(0) == b);
        assert(dec_n(b.skip(k), 0, dec) == Some::<(Seq<T>, int)>((Seq::empty(), 0int)));
        assert(dec_n(b, 1, dec) == Some::<(Seq<T>, int)>((seq![v] + Seq::<T>::empty(), k + 0)));
        assert(seq![v] + Seq::<T>::empty() =~= vs.push(v));
    } else {
        let (v0, k0) = dec(b)->Some_0;
        let (tail, mt) = dec_n(b.skip(k0), (n - 1) as nat, dec)->Some_0;
        assert(vs == seq![v0] + tail);
        assert(m == k0 + mt);
        lemma_dec_n_bounds(b.skip(k0), (n - 1) as nat, dec);
        assert(b.skip(k0).skip(mt) =~= b.skip(m));
        assert(dec(b.skip(k0).skip(mt)) == dec(b.skip(m)));
        lemma_dec_n_snoc(b.skip(k0), (n - 1) as nat, dec);
        assert(dec_n(b.skip(k0), n, dec) == Some::<(Seq<T>, int)>((tail.push(v), mt + k)));
        assert(dec_n(b, n + 1, dec) == Some::<(Seq<T>, int)>(
            (seq![v0] + tail.push(v), k0 + (mt + k)),
        ));
        assert(seq![v0] + tail.push(v) =~= (seq![v0] + tail).push(v));
    }
}

/// Once an element fails to decode, any longer run fails with it.
pub proof fn lemma_dec_n_stuck<T>(
    b: Seq<u8>,
    i: nat,
    n: nat,
    dec: spec_fn(Seq<u8>) -> Option<(T, int)>,
)
    requires
        dec_consumes(dec),
        i < n,
        dec_n(b, i, dec) is Some,
        dec(b.skip(dec_n(b, i, dec)->Some_0.1)) is None,
    ensures
        dec_n(b, n, dec) is None,
    decreases i,
{
    if i == 0 {
        assert(b.skip(0) == b);
    } else {
        let (v0, k0) = dec(b)->Some_0;
        let (tail, mt) = dec_n(b.skip(k0), (i - 1) as nat, dec)->Some_0;
        lemma_dec_n_bounds(b.skip(k0), (i - 1) as nat, dec);
        assert(b.skip(k0).skip(mt) =~= b.skip(k0 + mt));
        lemma_dec_n_stuck(b.skip(k0), (i - 1) as nat, (n - 1) as nat, dec);
    }
}

/// Decoding an encoded run of elements gives them all back, whatever
/// follows: the elementwise round trip, lifted.
pub proof fn lemma_dec_enc_list<T>(
    items: Seq<T>,
    rest: Seq<u8>,
    enc: spec_fn(T) -> Seq<u8>,
    dec: spec_fn(Seq<u8>) -> Option<(T, int)>,
)
    requires
        forall|i: int, r: Seq<u8>|
            0 <= i < items.len() ==> #[trigger] dec(enc(items[i]) + r) == Some(
                (items[i], enc(items[i]).len() as int),
            ),
    ensures
        dec_n(concat_enc(items, enc) + rest, items.len(), dec) == Some(
            (items, concat_enc(items, enc).len() as int),
        ),
    decreases items.len(),
{
    if items.len() == 0 {
        assert(concat_enc(items, enc) + rest =~= rest);
        assert(items =~= Seq::<T>::empty());
    } else {
        let h = items[0];
        let tail = items.drop_first();
        let whole = concat_enc(items, enc) + rest;
        assert(whole =~= enc(h) + (concat_enc(tail, enc) + rest));
        assert(dec(enc(h) + (concat_enc(tail, enc) + rest)) == Some(
            (h, enc(h).len() as int),
        ));
        assert((enc(h) + (concat_enc(tail, enc) + rest)).skip(enc(h).len() as int) =~= concat_enc(
            tail,
            enc,
        ) + rest);
        assert(forall|i: int, r: Seq<u8>|
            0 <= i < tail.len() ==> #[trigger] dec(enc(tail[i]) + r) == Some(
                (tail[i], enc(tail[i]).len() as int),
            )) by {
            assert forall|i: int, r: Seq<u8>| 0 <= i < tail.len() implies #[trigger] dec(
                enc(tail[i]) + r,
            ) == Some((tail[i], enc(tail[i]).len() as int)) by {
                assert(tail[i] == items[i + 1]);
            }
        }
        lemma_dec_enc_list(tail, rest, enc, dec);
        assert(seq![h] + tail =~= items);
    }
}

/// The string codec, packaged for the run combinators.
pub open spec fn str_enc() -> spec_fn(Seq<char>) -> Seq<u8> {
    |s: Seq<char>| enc_str(s)
}

pub open spec fn str_dec() -> spec_fn(Seq<u8>) -> Option<(Seq<char>, int)> {
    |b: Seq<u8>| dec_str(b)
}

pub open spec fn str_wf() -> spec_fn(Seq<u8>) -> bool {
    |b: Seq<u8>| wf_str_at(b)
}

/// A pair of strings travels as its two fields, one after the other.
pub open spec fn enc_str_pair(p: (Seq<char>, Seq<char>)) -> Seq<u8> {
    enc_str(p.0) + enc_str(p.1)
}

pub open spec fn dec_str_pair(b: Seq<u8>) -> Option<((Seq<char>, Seq<char>), int)> {
    match dec_str(b) {
        Some((x, n1)) => match dec_str(b.skip(n1)) {
            Some((y, n2)) => Some(((x, y), n1 + n2)),
            None => None,
        },
        None => None,
    }
}

pub open spec fn wf_str_pair_at(b: Seq<u8>) -> bool {
    &&& wf_str_at(b)
    &&& match dec_str(b) {
        Some((x, n1)) => wf_str_at(b.skip(n1)),
        None => true,
    }
}

pub open spec fn pair_enc() -> spec_fn((Seq<char>, Seq<char>)) -> Seq<u8> {
    |p: (Seq<char>, Seq<char>)| enc_str_pair(p)
}

pub open spec fn pair_dec() -> spec_fn(Seq<u8>) -> Option<((Seq<char>, Seq<char>), int)> {
    |b: Seq<u8>| dec_str_pair(b)
}

pub open spec fn pair_wf() -> spec_fn(Seq<u8>) -> bool {
    |b: Seq<u8>| wf_str_pair_at(b)
}

/// A sequence of strings travels as its count, then its elements.
pub open spec fn enc_str_seq(ss: Seq<Seq<char>>) -> Seq<u8> {
    enc_u64(ss.len() as u64) + concat_enc(ss, str_enc())
}

pub open spec fn dec_str_seq(b: Seq<u8>) -> Option<(Seq<Seq<char>>, int)> {
    match dec_u64(b) {
        Some((c, _)) => match dec_n(b.skip(8), c as nat, str_dec()) {
            Some((vs, m)) => Some((vs, 8 + m)),
            None => None,
        },
        None => None,
    }
}

pub open spec fn wf_str_seq_at(b: Seq<u8>) -> bool {
    &&& b.len() >= 8
    &&& wf_n(b.skip(8), spec_u64_from_le_bytes(b.take(8)) as nat, str_dec(), str_wf())
}

/// A sequence of string pairs travels as its count, then its elements.
pub open spec fn enc_str_pair_seq(ps: Seq<(Seq<char>, Seq<char>)>) -> Seq<u8> {
    enc_u64(ps.len() as u64) + concat_enc(ps, pair_enc())
}

pub open spec fn dec_str_pair_seq(b: Seq<u8>) -> Option<(Seq<(Seq<char>, Seq<char>)>, int)> {
    match dec_u64(b) {
        Some((c, _)) => match dec_n(b.skip(8), c as nat, pair_dec()) {
            Some((vs, m)) => Some((vs, 8 + m)),
            None => None,
        },
        None => None,
    }
}

pub open spec fn wf_str_pair_seq_at(b: Seq<u8>) -> bool {
    &&& b.len() >= 8
    &&& wf_n(b.skip(8), spec_u64_from_le_bytes(b.take(8)) as nat, pair_dec(), pair_wf())
}

/// An optional `u64` travels as a boolean tag, then the value when the
/// tag is true.
pub open spec fn enc_opt_u64(o: Option<u64>) -> Seq<u8> {
    match o {
        None => enc_bool(false),
        Some(v) => enc_bool(true) + enc_u64(v),
    }
}

pub open spec fn dec_opt_u64(b: Seq<u8>) -> Option<(Option<u64>, int)> {
    match dec_bool(b) {
        Some((t, _)) => if !t {
            Some((None, 8int))
        } else {
            match dec_u64(b.skip(8)) {
                Some((v, _)) => Some((Some(v), 16int)),
                None => None,
            }
        },
        None => None,
    }
}

/// A string can be encoded at all: its UTF-8 form fits a `u64` length.
pub open spec fn str_encodable(s: Seq<char>) -> bool {
    encode_utf8(s).len() <= u64::MAX
}

/// `dec_str` consumes a positive number of the bytes it was given.
pub proof fn lemma_str_dec_consumes()
    ensures
        dec_consumes(str_dec()),
{
    assert forall|b: Seq<u8>| (#[trigger] str_dec()(b)) is Some implies 0 < str_dec()(
        b,
    )->Some_0.1 <= b.len() by {}
}

/// `dec_str_pair` consumes a positive number of the bytes it was given.
pub proof fn lemma_pair_dec_consumes()
    ensures
        dec_consumes(pair_dec()),
{
    lemma_str_dec_consumes();
    assert forall|b: Seq<u8>| (#[trigger] pair_dec()(b)) is Some implies 0 < pair_dec()(
        b,
    )->Some_0.1 <= b.len() by {
        let (x, n1) = dec_str(b)->Some_0;
        assert(str_dec()(b) == dec_str(b));
        assert(str_dec()(b.skip(n1)) == dec_str(b.skip(n1)));
    }
}

/// The string round trip, lifted to pairs.
pub proof fn lemma_dec_enc_str_pair(p: (Seq<char>, Seq<char>), rest: Seq<u8>)
    requires
        str_encodable(p.0),
        str_encodable(p.1),
    ensures
        dec_str_pair(enc_str_pair(p) + rest) == Some((p, enc_str_pair(p).len() as int)),
{
    let whole = enc_str_pair(p) + rest;
    assert(whole =~= enc_str(p.0) + (enc_str(p.1) + rest));
    lemma_dec_enc_str(p.0, enc_str(p.1) + rest);
    assert(whole.skip(enc_str(p.0).len() as int) =~= enc_str(p.1) + rest);
    lemma_dec_enc_str(p.1, rest);
}

pub proof fn lemma_enc_dec_str_pair(b: Seq<u8>)
    requires
        wf_str_pair_at(b),
    ensures
        dec_str_pair(b) is Some,
        enc_str_pair(dec_str_pair(b)->Some_0.0) == b.take(dec_str_pair(b)->Some_0.1),
{
    lemma_enc_dec_str(b);
    let (x, n1) = dec_str(b)->Some_0;
    lemma_enc_dec_str(b.skip(n1));
    let (y, n2) = dec_str(b.skip(n1))->Some_0;
    lemma_str_dec_consumes();
    assert(b.take(n1) + b.skip(n1).take(n2) =~= b.take(n1 + n2));
}

/// Decoding an encoded sequence of strings gives them back, whatever
/// follows.
pub proof fn lemma_dec_enc_str_seq(ss: Seq<Seq<char>>, rest: Seq<u8>)
    requires
        ss.len() <= u64::MAX,
        forall|i: int| 0 <= i < ss.len() ==> str_encodable(#[trigger] ss[i]),
    ensures
        dec_str_seq(enc_str_seq(ss) + rest) == Some((ss, enc_str_seq(ss).len() as int)),
{
    lemma_auto_spec_u64_to_from_le_bytes();
    let body = concat_enc(ss, str_enc());
    let whole = enc_str_seq(ss) + rest;
    lemma_dec_enc_u64(ss.len() as u64, body + rest);
    assert(whole =~= enc_u64(ss.len() as u64) + (body + rest));
    assert(whole.skip(8) =~= body + rest);
    assert forall|i: int, r: Seq<u8>| 0 <= i < ss.len() implies #[trigger] str_dec()(
        str_enc()(ss[i]) + r,
    ) == Some((ss[i], str_enc()(ss[i]).len() as int)) by {
        lemma_dec_enc_str(ss[i], r);
    }
    lemma_dec_enc_list(ss, rest, str_enc(), str_dec());
}

/// Re-encoding a decoded sequence of strings rebuilds exactly the
/// bytes read, on a well-formed stream.
pub proof fn lemma_enc_dec_str_seq(b: Seq<u8>)
    requires
        wf_str_seq_at(b),
    ensures
        dec_str_seq(b) is Some,
        0 <= dec_str_seq(b)->Some_0.1 <= b.len(),
        enc_str_seq(dec_str_seq(b)->Some_0.0) == b.take(dec_str_seq(b)->Some_0.1),
{
    lemma_auto_spec_u64_to_from_le_bytes();
    let count = spec_u64_from_le_bytes(b.take(8));
    lemma_str_dec_consumes();
    assert forall|s: Seq<u8>| #[trigger] str_wf()(s) implies str_dec()(s) is Some && str_enc()(
        str_dec()(s)->Some_0.0,
    ) == s.take(str_dec()(s)->Some_0.1) by {
        lemma_enc_dec_str(s);
    }
    lemma_enc_dec_list(b.skip(8), count as nat, str_enc(), str_dec(), str_wf());
    let (vs, m) = dec_n(b.skip(8), count as nat, str_dec())->Some_0;
    assert(enc_u64(vs.len() as u64) == b.take(8)) by {
        lemma_enc_dec_u64(b);
    }
    assert(b.take(8) + b.skip(8).take(m) =~= b.take(8 + m));
}

/// Decoding an encoded sequence of string pairs gives them back,
/// whatever follows.
pub proof fn lemma_dec_enc_str_pair_seq(ps: Seq<(Seq<char>, Seq<char>)>, rest: Seq<u8>)
    requires
        ps.len() <= u64::MAX,
        forall|i: int|
            0 <= i < ps.len() ==> str_encodable((#[trigger] ps[i]).0) && str_encodable(ps[i].1),
    ensures
        dec_str_pair_seq(enc_str_pair_seq(ps) + rest) == Some(
            (ps, enc_str_pair_seq(ps).len() as int),
        ),
{
    lemma_auto_spec_u64_to_from_le_bytes();
    let body = concat_enc(ps, pair_enc());
    let whole = enc_str_pair_seq(ps) + rest;
    lemma_dec_enc_u64(ps.len() as u64, body + rest);
    assert(whole =~= enc_u64(ps.len() as u64) + (body + rest));
    assert(whole.skip(8) =~= body + rest);
    assert forall|i: int, r: Seq<u8>| 0 <= i < ps.len() implies #[trigger] pair_dec()(
        pair_enc()(ps[i]) + r,
    ) == Some((ps[i], pair_enc()(ps[i]).len() as int)) by {
        lemma_dec_enc_str_pair(ps[i], r);
    }
    lemma_dec_enc_list(ps, rest, pair_enc(), pair_dec());
}

/// Re-encoding a decoded sequence of string pairs rebuilds exactly the
/// bytes read, on a well-formed stream.
pub proof fn lemma_enc_dec_str_pair_seq(b: Seq<u8>)
    requires
        wf_str_pair_seq_at(b),
    ensures
        dec_str_pair_seq(b) is Some,
        0 <= dec_str_pair_seq(b)->Some_0.1 <= b.len(),
        enc_str_pair_seq(dec_str_pair_seq(b)->Some_0.0) == b.take(dec_str_pair_seq(b)->Some_0.1),
{
    lemma_auto_spec_u64_to_from_le_bytes();
    let count = spec_u64_from_le_bytes(b.take(8));
    lemma_pair_dec_consumes();
    assert forall|s: Seq<u8>| #[trigger] pair_wf()(s) implies pair_dec()(s) is Some && pair_enc()(
        pair_dec()(s)->Some_0.0,
    ) == s.take(pair_dec()(s)->Some_0.1) by {
        lemma_enc_dec_str_pair(s);
    }
    lemma_enc_dec_list(b.skip(8), count as nat, pair_enc(), pair_dec(), pair_wf());
    let (vs, m) = dec_n(b.skip(8), count as nat, pair_dec())->Some_0;
    assert(enc_u64(vs.len() as u64) == b.take(8)) by {
        lemma_enc_dec_u64(b);
    }
    assert(b.take(8) + b.skip(8).take(m) =~= b.take(8 + m));
}

/// Decoding an encoded optional gives the value back, whatever
/// follows.
pub proof fn lemma_dec_enc_opt_u64(o: Option<u64>, rest: Seq<u8>)
    ensures
        dec_opt_u64(enc_opt_u64(o) + rest) == Some((o, enc_opt_u64(o).len() as int)),
{
    lemma_auto_spec_u64_to_from_le_bytes();
    match o {
        None => {
            lemma_dec_enc_bool(false, rest);
        },
        Some(v) => {
            let whole = enc_opt_u64(o) + rest;
            assert(whole =~= enc_bool(true) + (enc_u64(v) + rest));
            lemma_dec_enc_bool(true, enc_u64(v) + rest);
            assert(whole.skip(8) =~= enc_u64(v) + rest);
            lemma_dec_enc_u64(v, rest);
            lemma_auto_spec_u64_to_from_le_bytes();
        },
    }
}

/// Re-encoding a decoded optional rebuilds exactly the bytes read,
/// provided the tag was canonical.
pub proof fn lemma_enc_dec_opt_u64(b: Seq<u8>)
    requires
        dec_opt_u64(b) is Some,
        dec_u64(b)->Some_0.0 == 0 || dec_u64(b)->Some_0.0 == 1,
    ensures
        enc_opt_u64(dec_opt_u64(b)->Some_0.0) == b.take(dec_opt_u64(b)->Some_0.1),
{
    lemma_enc_dec_bool(b);
    let (t, _) = dec_bool(b)->Some_0;
    if t {
        lemma_enc_dec_u64(b.skip(8));
        assert(b.take(8) + b.skip(8).take(8) =~= b.take(16));
    }
}

/// Re-encoding a decoded run rebuilds exactly the bytes read, provided
/// every element's stream was well formed: the elementwise round trip,
/// lifted.
pub proof fn lemma_enc_dec_list<T>(
    b: Seq<u8>,
    n: nat,
    enc: spec_fn(T) -> Seq<u8>,
    dec: spec_fn(Seq<u8>) -> Option<(T, int)>,
    wf_one: spec_fn(Seq<u8>) -> bool,
)
    requires
        dec_consumes(dec),
        forall|s: Seq<u8>| #[trigger]
            wf_one(s) ==> dec(s) is Some && enc(dec(s)->Some_0.0) == s.take(dec(s)->Some_0.1),
        wf_n(b, n, dec, wf_one),
    ensures
        dec_n(b, n, dec) is Some,
        ({
            let (vs, m) = dec_n(b, n, dec)->Some_0;
            &&& vs.len() == n
            &&& 0 <= m <= b.len()
            &&& concat_enc(vs, enc) == b.take(m)
        }),
    decreases n,
{
    if n == 0 {
        assert(concat_enc(Seq::<T>::empty(), enc) =~= b.take(0));
    } else {
        let (v, k) = dec(b)->Some_0;
        lemma_enc_dec_list(b.skip(k), (n - 1) as nat, enc, dec, wf_one);
        let (tail, mt) = dec_n(b.skip(k), (n - 1) as nat, dec)->Some_0;
        let (vs, m) = dec_n(b, n, dec)->Some_0;
        assert(vs == seq![v] + tail && m == k + mt);
        assert(vs.drop_first() =~= tail);
        assert(vs[0] == v);
        assert(concat_enc(vs, enc) == enc(v) + concat_enc(tail, enc));
        assert(enc(v) == b.take(k));
        assert(concat_enc(tail, enc) == b.skip(k).take(mt));
        assert(b.take(k) + b.skip(k).take(mt) =~= b.take(k + mt));
    }
}


/// A well-formed sequence of strings followed by a well-formed
/// string.
pub open spec fn wf_seq_then_str_at(b: Seq<u8>) -> bool {
    &&& wf_str_seq_at(b)
    &&& match dec_str_seq(b) {
        Some((_, n)) => wf_str_at(b.skip(n)),
        None => true,
    }
}

/// Re-encoding a decoded sequence-then-string pair rebuilds exactly
/// the bytes read, on a well-formed stream.
pub proof fn lemma_enc_dec_seq_then_str(b: Seq<u8>)
    requires
        wf_seq_then_str_at(b),
    ensures
        dec_str_seq(b) is Some,
        ({
            let (vs, n) = dec_str_seq(b)->Some_0;
            &&& dec_str(b.skip(n)) is Some
            &&& 0 <= n <= b.len()
            &&& ({
                let (s, m) = dec_str(b.skip(n))->Some_0;
                &&& 0 < m
                &&& n + m <= b.len()
                &&& enc_str_seq(vs) + enc_str(s) == b.take(n + m)
            })
        }),
{
    lemma_enc_dec_str_seq(b);
    let (vs, n) = dec_str_seq(b)->Some_0;
    lemma_enc_dec_str(b.skip(n));
    let (s, m) = dec_str(b.skip(n))->Some_0;
    assert(0 < m <= b.skip(n).len());
    assert(b.take(n) + b.skip(n).take(m) =~= b.take(n + m));
}

/// A well-formed string followed by a well-formed sequence of
/// strings.
pub open spec fn wf_str_then_seq_at(b: Seq<u8>) -> bool {
    &&& wf_str_at(b)
    &&& match dec_str(b) {
        Some((_, n)) => wf_str_seq_at(b.skip(n)),
        None => true,
    }
}

/// Re-encoding a decoded string-then-sequence pair rebuilds exactly
/// the bytes read, on a well-formed stream.
pub proof fn lemma_enc_dec_str_then_seq(b: Seq<u8>)
    requires
        wf_str_then_seq_at(b),
    ensures
        dec_str(b) is Some,
        ({
            let (s, n) = dec_str(b)->Some_0;
            &&& dec_str_seq(b.skip(n)) is Some
            &&& 0 < n <= b.len()
            &&& ({
                let (vs, m) = dec_str_seq(b.skip(n))->Some_0;
                &&& 0 <= m
                &&& n + m <= b.len()
                &&& enc_str(s) + enc_str_seq(vs) == b.take(n + m)
            })
        }),
{
    lemma_enc_dec_str(b);
    let (s, n) = dec_str(b)->Some_0;
    lemma_enc_dec_str_seq(b.skip(n));
    let (vs, m) = dec_str_seq(b.skip(n))->Some_0;
    assert(0 <= m <= b.skip(n).len());
    assert(b.take(n) + b.skip(n).take(m) =~= b.take(n + m));
}

} // verus!
