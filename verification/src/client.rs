//! The protocol engine, client side: a daemon client over byte
//! buffers. The write half collects the bytes to transmit; the read
//! half is fed the bytes the daemon answered; every protocol decision
//! between the two is verified. The surrounding process moves the
//! buffers over its socket.
use crate::de::Deserializer;
use crate::error::Error;
use crate::protocol::MIN_MINOR_VERSION;
use crate::protocol::PROTOCOL_VERSION;
use crate::protocol::STDERR_ERROR;
use crate::protocol::STDERR_LAST;
use crate::protocol::STDERR_NEXT;
use crate::protocol::STDERR_READ;
use crate::protocol::STDERR_RESULT;
use crate::protocol::STDERR_START_ACTIVITY;
use crate::protocol::STDERR_STOP_ACTIVITY;
use crate::protocol::STDERR_WRITE;
use crate::protocol::WORKER_MAGIC_1;
use crate::protocol::WORKER_MAGIC_2;
use crate::protocol::Op;
use crate::ser::Serializer;
use crate::types::dec_path_info_rest;
use crate::types::ValidPathInfo;
use crate::types::PathInfoWithoutPath;
use crate::wire::dec_consumes;
use crate::wire::dec_n;
use crate::wire::dec_str;
use crate::wire::dec_u64;
use crate::wire::enc_bool;
use crate::wire::enc_str;
use crate::wire::enc_u64;
use crate::wire::lemma_dec_n_snoc;
use crate::wire::lemma_dec_n_stuck;
use vstd::prelude::*;

verus! {

/// What can go wrong on the client side: a codec fault, or a protocol
/// answer the client refuses.
#[derive(Debug)]
pub enum ClientError {
    Serde(Error),
    Generic(String),
}

/// One field of an activity or result message, as the historical
/// protocol shapes it: a tag choosing an integer (zero) or a string
/// (one) payload.
pub open spec fn dec_field(b: Seq<u8>) -> Option<int> {
    match dec_u64(b) {
        Some((t, _)) => if t == 0 {
            if b.len() >= 16 {
                Some(16int)
            } else {
                None
            }
        } else if t == 1 {
            match dec_str(b.skip(8)) {
                Some((_, k)) => Some(8 + k),
                None => None,
            }
        } else {
            None
        },
        None => None,
    }
}

/// The field codec, packaged for the run combinators; a discarded
/// field carries no value.
pub open spec fn field_dec() -> spec_fn(Seq<u8>) -> Option<((), int)> {
    |b: Seq<u8>|
        match dec_field(b) {
            Some(k) => Some(((), k)),
            None => None,
        }
}

/// The field run of an activity or result message: a count, then the
/// fields.
pub open spec fn dec_fields(b: Seq<u8>) -> Option<int> {
    match dec_u64(b) {
        Some((c, _)) => match dec_n(b.skip(8), c as nat, field_dec()) {
            Some((_, m)) => Some(8 + m),
            None => None,
        },
        None => None,
    }
}

/// One trace of an error message: a position marker, which the
/// historical wire always carries as zero, then the trace text.
pub open spec fn dec_trace(b: Seq<u8>) -> Option<int> {
    match dec_u64(b) {
        Some((hp, _)) => if hp == 0 {
            match dec_str(b.skip(8)) {
                Some((_, k)) => Some(8 + k),
                None => None,
            }
        } else {
            None
        },
        None => None,
    }
}

/// The trace codec, packaged for the run combinators.
pub open spec fn trace_dec() -> spec_fn(Seq<u8>) -> Option<((), int)> {
    |b: Seq<u8>|
        match dec_trace(b) {
            Some(k) => Some(((), k)),
            None => None,
        }
}

/// The payload of an `ERROR` message: its kind string, level, name,
/// text, a zero position marker, and its traces.
pub open spec fn dec_error_payload(b: Seq<u8>) -> Option<int> {
    match dec_str(b) {
        Some((_, k1)) => match dec_u64(b.skip(k1)) {
            Some(_) => match dec_str(b.skip(k1 + 8)) {
                Some((_, k2)) => match dec_str(b.skip(k1 + 8 + k2)) {
                    Some((_, k3)) => match dec_u64(b.skip(k1 + 8 + k2 + k3)) {
                        Some((hp, _)) => if hp == 0 {
                            match dec_u64(b.skip(k1 + 16 + k2 + k3)) {
                                Some((c, _)) => match dec_n(
                                    b.skip(k1 + 24 + k2 + k3),
                                    c as nat,
                                    trace_dec(),
                                ) {
                                    Some((_, m)) => Some(k1 + 24 + k2 + k3 + m),
                                    None => None,
                                },
                                None => None,
                            }
                        } else {
                            None
                        },
                        None => None,
                    },
                    None => None,
                },
                None => None,
            },
            None => None,
        },
        None => None,
    }
}

/// The payload a discarded stderr message carries, by its tag, as the
/// historical protocol shapes them: a log line for `NEXT`, a length
/// for `READ`, an activity id for `STOP_ACTIVITY`, id/level/type,
/// text, fields and parent for `START_ACTIVITY`, id/type and fields
/// for `RESULT`, and the error record for `ERROR`. Any other tag is
/// unknown and the stream is malformed.
#[verifier::opaque]
pub open spec fn dec_stderr_payload(tag: u64, b: Seq<u8>) -> Option<int> {
    if tag == STDERR_NEXT {
        match dec_str(b) {
            Some((_, k)) => Some(k),
            None => None,
        }
    } else if tag == STDERR_READ || tag == STDERR_STOP_ACTIVITY {
        if b.len() >= 8 {
            Some(8int)
        } else {
            None
        }
    } else if tag == STDERR_START_ACTIVITY {
        if b.len() >= 24 {
            match dec_str(b.skip(24)) {
                Some((_, k)) => match dec_fields(b.skip(24 + k)) {
                    Some(m) => if b.skip(24 + k + m).len() >= 8 {
                        Some(24 + k + m + 8)
                    } else {
                        None
                    },
                    None => None,
                },
                None => None,
            }
        } else {
            None
        }
    } else if tag == STDERR_RESULT {
        if b.len() >= 16 {
            match dec_fields(b.skip(16)) {
                Some(m) => Some(16 + m),
                None => None,
            }
        } else {
            None
        }
    } else if tag == STDERR_ERROR {
        dec_error_payload(b)
    } else {
        None
    }
}

/// Reading the stderr channel ahead of a reply: `WRITE` messages are
/// collected and every other recognized message is consumed and
/// discarded, up to the `LAST` terminator; an unknown tag or a
/// malformed payload refuses the stream.
pub open spec fn dec_stderr(b: Seq<u8>) -> Option<(Seq<Seq<char>>, int)>
    decreases b.len(),
{
    match dec_u64(b) {
        Some((tag, _)) => if tag == STDERR_LAST {
            Some((Seq::empty(), 8int))
        } else if tag == STDERR_WRITE {
            match dec_str(b.skip(8)) {
                Some((s, k)) => if 8 + k <= b.len() {
                    match dec_stderr(b.skip(8 + k)) {
                        Some((rest, m)) => Some((seq![s] + rest, 8 + k + m)),
                        None => None,
                    }
                } else {
                    None
                },
                None => None,
            }
        } else {
            match dec_stderr_payload(tag, b.skip(8)) {
                Some(k) => if 0 <= k && 8 + k <= b.len() {
                    match dec_stderr(b.skip(8 + k)) {
                        Some((rest, m)) => Some((rest, 8 + k + m)),
                        None => None,
                    }
                } else {
                    None
                },
                None => None,
            }
        },
        None => None,
    }
}

/// A discarded field or trace consumes a positive number of the bytes
/// it was given.
proof fn lemma_skip_dec_consumes()
    ensures
        dec_consumes(field_dec()),
        dec_consumes(trace_dec()),
{
    assert forall|b: Seq<u8>| (#[trigger] field_dec()(b)) is Some implies 0 < field_dec()(
        b,
    )->Some_0.1 <= b.len() by {
        if dec_field(b)->Some_0 != 16 {
            let k = dec_str(b.skip(8))->Some_0.1;
            assert(0 < k <= b.skip(8).len());
        }
    }
    assert forall|b: Seq<u8>| (#[trigger] trace_dec()(b)) is Some implies 0 < trace_dec()(
        b,
    )->Some_0.1 <= b.len() by {
        let k = dec_str(b.skip(8))->Some_0.1;
        assert(0 < k <= b.skip(8).len());
    }
}

/// Consumes one field of an activity or result message.
fn skip_field(de: &mut Deserializer) -> (r: Result<(), Error>)
    requires
        old(de).wf(),
    ensures
        final(de).wf(),
        final(de).data == old(de).data,
        match r {
            Ok(_) => {
                &&& dec_field(old(de).rest()) == Some(final(de).pos - old(de).pos)
                &&& final(de).pos >= old(de).pos
            },
            Err(_) => dec_field(old(de).rest()) is None,
        },
{
    let ghost b = de.rest();
    let start = de.pos;
    let t = match de.parse_u64() {
        Ok(v) => v,
        Err(e) => {
            return Err(e);
        },
    };
    proof {
        assert(de.rest() =~= b.skip(8));
    }
    if t == 0 {
        match de.parse_u64() {
            Ok(_) => Ok(()),
            Err(e) => {
                de.pos = start;
                Err(e)
            },
        }
    } else if t == 1 {
        match de.parse_string() {
            Ok(_) => Ok(()),
            Err(e) => {
                de.pos = start;
                Err(e)
            },
        }
    } else {
        de.pos = start;
        Err(Error::Encoding)
    }
}

/// Consumes the field run of an activity or result message.
fn skip_fields(de: &mut Deserializer) -> (r: Result<(), Error>)
    requires
        old(de).wf(),
    ensures
        final(de).wf(),
        final(de).data == old(de).data,
        match r {
            Ok(_) => {
                &&& dec_fields(old(de).rest()) == Some(final(de).pos - old(de).pos)
                &&& final(de).pos >= old(de).pos
            },
            Err(_) => dec_fields(old(de).rest()) is None,
        },
{
    let ghost b = de.rest();
    let start = de.pos;
    let count = match de.parse_u64() {
        Ok(v) => v,
        Err(e) => {
            return Err(e);
        },
    };
    let ghost bb = b.skip(8);
    proof {
        lemma_skip_dec_consumes();
        assert(de.rest() =~= bb);
        assert(bb.skip(0) == bb);
    }
    let mut i: u64 = 0;
    while i < count
        invariant
            de.wf(),
            de.data == old(de).data,
            i <= count,
            start + 8 <= de.pos <= de.data@.len(),
            b == old(de).rest(),
            bb == b.skip(8),
            old(de).pos == start,
            dec_u64(b) == Some((count, 8int)),
            dec_n(bb, i as nat, field_dec()) matches Some((_, m)) && m == de.pos - start - 8,
            de.rest() == bb.skip(de.pos - start - 8),
        decreases count - i,
    {
        let ghost m = de.pos - start - 8;
        let r = skip_field(de);
        match r {
            Ok(_) => {
                proof {
                    assert(field_dec()(bb.skip(m)) matches Some((_, k)) && k == de.pos - start - 8
                        - m);
                    lemma_dec_n_snoc(bb, i as nat, field_dec());
                    let k = field_dec()(bb.skip(m))->Some_0.1;
                    assert(bb.skip(m).skip(k) =~= bb.skip(m + k));
                    assert(de.rest() =~= bb.skip(de.pos - start - 8));
                }
            },
            Err(e) => {
                proof {
                    assert(field_dec()(bb.skip(m)) is None);
                    lemma_dec_n_stuck(bb, i as nat, count as nat, field_dec());
                }
                de.pos = start;
                return Err(e);
            },
        }
        i = i + 1;
    }
    Ok(())
}

/// Consumes one trace of an error message; a nonzero position marker
/// is outside the historical wire and refuses the stream.
fn skip_trace(de: &mut Deserializer) -> (r: Result<(), Error>)
    requires
        old(de).wf(),
    ensures
        final(de).wf(),
        final(de).data == old(de).data,
        match r {
            Ok(_) => {
                &&& dec_trace(old(de).rest()) == Some(final(de).pos - old(de).pos)
                &&& final(de).pos >= old(de).pos
            },
            Err(_) => dec_trace(old(de).rest()) is None,
        },
{
    let ghost b = de.rest();
    let start = de.pos;
    let hp = match de.parse_u64() {
        Ok(v) => v,
        Err(e) => {
            return Err(e);
        },
    };
    if hp != 0 {
        de.pos = start;
        return Err(Error::Encoding);
    }
    proof {
        assert(de.rest() =~= b.skip(8));
    }
    match de.parse_string() {
        Ok(_) => Ok(()),
        Err(e) => {
            de.pos = start;
            Err(e)
        },
    }
}

/// Consumes the payload of an `ERROR` message.
#[verifier::rlimit(100)]
fn skip_error_payload(de: &mut Deserializer) -> (r: Result<(), Error>)
    requires
        old(de).wf(),
    ensures
        final(de).wf(),
        final(de).data == old(de).data,
        match r {
            Ok(_) => {
                &&& dec_error_payload(old(de).rest()) == Some(final(de).pos - old(de).pos)
                &&& final(de).pos >= old(de).pos
            },
            Err(_) => dec_error_payload(old(de).rest()) is None,
        },
{
    let ghost b = de.rest();
    let start = de.pos;
    let _kind = match de.parse_string() {
        Ok(v) => v,
        Err(e) => {
            de.pos = start;
            return Err(e);
        },
    };
    let ghost k1 = de.pos - start;
    proof {
        assert(de.rest() =~= b.skip(k1 as int));
    }
    let _level = match de.parse_u64() {
        Ok(v) => v,
        Err(e) => {
            de.pos = start;
            return Err(e);
        },
    };
    proof {
        assert(de.rest() =~= b.skip(k1 + 8));
    }
    let _name = match de.parse_string() {
        Ok(v) => v,
        Err(e) => {
            de.pos = start;
            return Err(e);
        },
    };
    let ghost k2 = de.pos - start - k1 - 8;
    proof {
        assert(de.rest() =~= b.skip(k1 + 8 + k2));
    }
    let _msg = match de.parse_string() {
        Ok(v) => v,
        Err(e) => {
            de.pos = start;
            return Err(e);
        },
    };
    let ghost k3 = de.pos - start - k1 - 8 - k2;
    proof {
        assert(de.rest() =~= b.skip(k1 + 8 + k2 + k3));
    }
    let hp = match de.parse_u64() {
        Ok(v) => v,
        Err(e) => {
            de.pos = start;
            return Err(e);
        },
    };
    if hp != 0 {
        de.pos = start;
        return Err(Error::Encoding);
    }
    proof {
        assert(de.rest() =~= b.skip(k1 + 16 + k2 + k3));
    }
    let count = match de.parse_u64() {
        Ok(v) => v,
        Err(e) => {
            de.pos = start;
            return Err(e);
        },
    };
    let ghost bb = b.skip(k1 + 24 + k2 + k3);
    proof {
        lemma_skip_dec_consumes();
        assert(de.rest() =~= bb);
        assert(bb.skip(0) == bb);
    }
    let traces_start = de.pos;
    proof {
        assert(dec_error_payload(b) == (match dec_n(bb, count as nat, trace_dec()) {
            Some((_, mm)) => Some((traces_start - start) + mm),
            None => None,
        }));
    }
    let mut i: u64 = 0;
    while i < count
        invariant
            de.wf(),
            de.data == old(de).data,
            i <= count,
            b == old(de).rest(),
            old(de).pos == start,
            start <= traces_start <= de.pos <= de.data@.len(),
            bb == de.data@.skip(traces_start as int),
            dec_error_payload(b) == (match dec_n(bb, count as nat, trace_dec()) {
                Some((_, mm)) => Some((traces_start - start) + mm),
                None => None,
            }),
            dec_n(bb, i as nat, trace_dec()) matches Some((_, m)) && m == de.pos - traces_start,
            de.rest() == bb.skip(de.pos - traces_start),
        decreases count - i,
    {
        let ghost m = de.pos - traces_start;
        let r = skip_trace(de);
        match r {
            Ok(_) => {
                proof {
                    assert(trace_dec()(bb.skip(m)) matches Some((_, k)) && k == de.pos
                        - traces_start - m);
                    lemma_dec_n_snoc(bb, i as nat, trace_dec());
                    let k = trace_dec()(bb.skip(m))->Some_0.1;
                    assert(bb.skip(m).skip(k) =~= bb.skip(m + k));
                    assert(de.rest() =~= bb.skip(de.pos - traces_start));
                }
            },
            Err(e) => {
                proof {
                    assert(trace_dec()(bb.skip(m)) is None);
                    lemma_dec_n_stuck(bb, i as nat, count as nat, trace_dec());
                }
                de.pos = start;
                return Err(e);
            },
        }
        i = i + 1;
    }
    Ok(())
}

/// Consumes the payload of one discarded stderr message, by its tag.
fn skip_stderr_payload(de: &mut Deserializer, tag: u64) -> (r: Result<(), Error>)
    requires
        old(de).wf(),
    ensures
        final(de).wf(),
        final(de).data == old(de).data,
        match r {
            Ok(_) => {
                &&& dec_stderr_payload(tag, old(de).rest()) == Some(
                    final(de).pos - old(de).pos,
                )
                &&& final(de).pos >= old(de).pos
            },
            Err(_) => dec_stderr_payload(tag, old(de).rest()) is None,
        },
{
    proof {
        reveal(dec_stderr_payload);
    }
    let ghost b = de.rest();
    let start = de.pos;
    if tag == STDERR_NEXT {
        match de.parse_string() {
            Ok(_) => Ok(()),
            Err(e) => {
                de.pos = start;
                Err(e)
            },
        }
    } else if tag == STDERR_READ || tag == STDERR_STOP_ACTIVITY {
        match de.parse_u64() {
            Ok(_) => Ok(()),
            Err(e) => Err(e),
        }
    } else if tag == STDERR_START_ACTIVITY {
        let rem = de.remaining();
        if rem < 24 {
            return Err(Error::Truncated);
        }
        de.advance(8);
        de.advance(8);
        de.advance(8);
        proof {
            assert(de.rest() =~= b.skip(24));
        }
        let _text = match de.parse_string() {
            Ok(v) => v,
            Err(e) => {
                de.pos = start;
                return Err(e);
            },
        };
        let ghost k = de.pos - start - 24;
        proof {
            assert(de.rest() =~= b.skip(24 + k));
        }
        match skip_fields(de) {
            Ok(_) => {},
            Err(e) => {
                de.pos = start;
                return Err(e);
            },
        }
        let ghost m = de.pos - start - 24 - k;
        proof {
            assert(de.rest() =~= b.skip(24 + k + m));
        }
        match de.parse_u64() {
            Ok(_) => Ok(()),
            Err(e) => {
                de.pos = start;
                Err(e)
            },
        }
    } else if tag == STDERR_RESULT {
        let rem = de.remaining();
        if rem < 16 {
            return Err(Error::Truncated);
        }
        de.advance(8);
        de.advance(8);
        proof {
            assert(de.rest() =~= b.skip(16));
        }
        match skip_fields(de) {
            Ok(_) => Ok(()),
            Err(e) => {
                de.pos = start;
                Err(e)
            },
        }
    } else if tag == STDERR_ERROR {
        skip_error_payload(de)
    } else {
        Err(Error::Unsupported)
    }
}

/// A daemon client: the bytes it has decided to send, the bytes it
/// was given to read, and the diagnostic lines the daemon pushed over
/// the stderr channel.
pub struct Client {
    pub w: Serializer,
    pub r: Deserializer,
    pub logs: Vec<String>,
}

impl Client {
    /// The handshake bytes a client opens with: its magic, its
    /// version, and the two obsolete fields.
    pub open spec fn hello_bytes() -> Seq<u8> {
        enc_u64(WORKER_MAGIC_1) + enc_u64(PROTOCOL_VERSION) + enc_u64(0) + enc_bool(false)
    }

    /// A well-formed daemon half of the handshake: the server magic,
    /// an agreeable version, a version string and a stderr channel.
    pub open spec fn greeting_ok(b: Seq<u8>) -> bool {
        &&& dec_u64(b) matches Some((m, _)) && m == WORKER_MAGIC_2
        &&& dec_u64(b.skip(8)) matches Some((v, _)) && v & 0xff00 == PROTOCOL_VERSION & 0xff00
            && v & 0x00ff >= MIN_MINOR_VERSION
        &&& dec_str(b.skip(16)) is Some
        &&& dec_stderr(b.skip(16 + dec_str(b.skip(16))->Some_0.1)) is Some
    }

    /// Opens a connection over the given buffers: queues the client
    /// half of the handshake and checks the daemon's half — its
    /// magic, an agreeable version, its version string, and the
    /// stderr channel that ends the handshake. It succeeds exactly on
    /// a well-formed greeting.
    pub fn new(w: Serializer, r: Deserializer) -> (res: Result<Client, ClientError>)
        requires
            r.wf(),
        ensures
            res is Ok <==> Self::greeting_ok(r.rest()),
            match res {
                Ok(c) => {
                    &&& c.w.buf@ == w.buf@ + Self::hello_bytes()
                    &&& c.r.data == r.data
                    &&& c.r.wf()
                    &&& dec_u64(r.rest()) == Some((WORKER_MAGIC_2, 8int))
                },
                Err(_) => true,
            },
    {
        let mut client = Client { w, r, logs: Vec::new() };
        let ghost rest0 = client.r.rest();
        client.w.write_u64(WORKER_MAGIC_1);
        let magic = match client.r.parse_u64() {
            Ok(v) => v,
            Err(e) => {
                return Err(ClientError::Serde(e));
            },
        };
        if magic != WORKER_MAGIC_2 {
            return Err(ClientError::Generic(String::from_str("protocol magic mismatch")));
        }
        proof {
            assert(client.r.rest() =~= rest0.skip(8));
        }
        let ghost after_version = rest0.skip(16);
        let version = match client.r.parse_u64() {
            Ok(v) => v,
            Err(e) => {
                return Err(ClientError::Serde(e));
            },
        };
        if crate::protocol::protocol_version_major(version) != crate::protocol::protocol_version_major(
            PROTOCOL_VERSION,
        ) {
            return Err(ClientError::Generic(String::from_str("protocol major version mismatch")));
        }
        if crate::protocol::protocol_version_minor(version) < MIN_MINOR_VERSION {
            return Err(ClientError::Generic(String::from_str("protocol minor version too low")));
        }
        client.w.write_u64(PROTOCOL_VERSION);
        client.w.write_u64(0);
        client.w.write_bool(false);
        proof {
            assert(rest0.skip(8).skip(8) =~= after_version);
            assert(client.r.rest() =~= after_version);
        }
        let _daemon_version = match client.r.parse_string() {
            Ok(v) => v,
            Err(e) => {
                return Err(ClientError::Serde(e));
            },
        };
        let ghost k = dec_str(after_version)->Some_0.1;
        proof {
            assert(after_version.skip(k) =~= rest0.skip(16 + k));
            assert(client.r.rest() =~= rest0.skip(16 + k));
        }
        match client.process_stderr() {
            Ok(_) => {},
            Err(e) => {
                return Err(e);
            },
        }
        proof {
            assert(client.w.buf@ =~= w.buf@ + Self::hello_bytes());
            assert(Self::greeting_ok(rest0));
        }
        Ok(client)
    }

    /// Reads the stderr channel up to its terminator, collecting the
    /// daemon's `WRITE` lines and discarding its other messages.
    #[verifier::rlimit(100)]
    pub fn process_stderr(&mut self) -> (res: Result<(), ClientError>)
        requires
            old(self).r.wf(),
        ensures
            final(self).r.wf(),
            final(self).r.data == old(self).r.data,
            final(self).w == old(self).w,
            match res {
                Ok(_) => ({
                    &&& dec_stderr(old(self).r.rest()) is Some
                    &&& final(self).r.pos >= old(self).r.pos
                    &&& ({
                        let (msgs, n) = dec_stderr(old(self).r.rest())->Some_0;
                        &&& final(self).logs.deep_view() == old(self).logs.deep_view() + msgs
                        &&& final(self).r.pos == old(self).r.pos + n
                    })
                }),
                Err(e) => {
                    &&& e is Serde
                    &&& dec_stderr(old(self).r.rest()) is None
                    &&& final(self).r.pos == old(self).r.pos
                    &&& final(self).logs@ == old(self).logs@
                },
            },
    {
        let ghost rest0 = old(self).r.rest();
        let ghost logs0 = old(self).logs.deep_view();
        let ghost mut acc: Seq<Seq<char>> = Seq::empty();
        let start_pos = self.r.pos;
        let start_logs = self.logs.len();
        proof {
            assert(logs0 + acc =~= logs0);
            assert(rest0.skip(0) == rest0);
            assert(self.logs@.take(start_logs as int) =~= old(self).logs@);
        }
        loop
            invariant
                self.r.wf(),
                self.r.data == old(self).r.data,
                self.w == old(self).w,
                start_pos == old(self).r.pos,
                start_logs == old(self).logs@.len(),
                start_pos <= self.r.pos,
                rest0 == old(self).r.rest(),
                logs0 == old(self).logs.deep_view(),
                self.logs.deep_view() == logs0 + acc,
                self.logs@.len() >= start_logs,
                self.logs@.take(start_logs as int) == old(self).logs@,
                self.r.rest() == rest0.skip(self.r.pos - start_pos),
                match dec_stderr(self.r.rest()) {
                    Some((ms, m)) => dec_stderr(rest0) == Some(
                        (acc + ms, self.r.pos - start_pos + m),
                    ),
                    None => dec_stderr(rest0) is None,
                },
            decreases self.r.rest().len(),
        {
            let ghost rest_i = self.r.rest();
            let tag = match self.r.parse_u64() {
                Ok(v) => v,
                Err(e) => {
                    self.r.pos = start_pos;
                    self.logs.truncate(start_logs);
                    proof {
                        assert(self.logs@ =~= old(self).logs@);
                    }
                    return Err(ClientError::Serde(e));
                },
            };
            if tag == STDERR_LAST {
                proof {
                    assert(dec_stderr(rest_i) == Some((Seq::<Seq<char>>::empty(), 8int)));
                    assert(acc + Seq::<Seq<char>>::empty() =~= acc);
                }
                return Ok(());
            }
            if tag == STDERR_WRITE {
                proof {
                    assert(self.r.rest() =~= rest_i.skip(8));
                }
                let s = match self.r.parse_string() {
                    Ok(v) => v,
                    Err(e) => {
                        self.r.pos = start_pos;
                        self.logs.truncate(start_logs);
                        proof {
                            assert(self.logs@ =~= old(self).logs@);
                        }
                        return Err(ClientError::Serde(e));
                    },
                };
                let ghost k = dec_str(rest_i.skip(8))->Some_0.1;
                proof {
                    assert(rest_i.skip(8).skip(k) =~= rest_i.skip(8 + k));
                    assert(self.r.rest() =~= rest_i.skip(8 + k));
                }
                let ghost ldv0 = self.logs.deep_view();
                self.logs.push(s);
                proof {
                    let sv = s@;
                    assert(self.logs.deep_view() =~= ldv0.push(sv));
                    acc = acc.push(sv);
                    assert(self.logs.deep_view() =~= logs0 + acc);
                    assert(rest0.skip(self.r.pos - start_pos) =~= self.r.rest());
                    match dec_stderr(self.r.rest()) {
                        Some((ms2, m2)) => {
                            assert(dec_stderr(rest_i) == Some(
                                (seq![sv] + ms2, 8 + k + m2),
                            ));
                            assert((acc.drop_last() + (seq![sv] + ms2)) =~= (acc + ms2));
                            assert(dec_stderr(rest0) == Some(
                                (acc + ms2, self.r.pos - start_pos + m2),
                            ));
                        },
                        None => {
                            assert(dec_stderr(rest_i) is None);
                        },
                    }
                }
            } else if tag == STDERR_NEXT || tag == STDERR_READ || tag == STDERR_ERROR || tag
                == STDERR_START_ACTIVITY || tag == STDERR_STOP_ACTIVITY || tag
                == STDERR_RESULT {
                proof {
                    assert(self.r.rest() =~= rest_i.skip(8));
                }
                let r = skip_stderr_payload(&mut self.r, tag);
                match r {
                    Ok(_) => {
                        proof {
                            let k = dec_stderr_payload(tag, rest_i.skip(8))->Some_0;
                            assert(rest_i.skip(8).skip(k) =~= rest_i.skip(8 + k));
                            assert(self.r.rest() =~= rest_i.skip(8 + k));
                            assert(rest0.skip(self.r.pos - start_pos) =~= self.r.rest());
                            match dec_stderr(self.r.rest()) {
                                Some((ms2, m2)) => {
                                    assert(dec_stderr(rest_i) == Some((ms2, 8 + k + m2)));
                                },
                                None => {
                                    assert(dec_stderr(rest_i) is None);
                                },
                            }
                        }
                    },
                    Err(e) => {
                        proof {
                            assert(dec_stderr_payload(tag, rest_i.skip(8)) is None);
                            assert(dec_stderr(rest_i) is None);
                        }
                        self.r.pos = start_pos;
                        self.logs.truncate(start_logs);
                        proof {
                            assert(self.logs@ =~= old(self).logs@);
                        }
                        return Err(ClientError::Serde(e));
                    },
                }
            } else {
                proof {
                    reveal(dec_stderr_payload);
                    assert(dec_stderr_payload(tag, rest_i.skip(8)) is None);
                    assert(dec_stderr(rest_i) is None);
                }
                self.r.pos = start_pos;
                self.logs.truncate(start_logs);
                proof {
                    assert(self.logs@ =~= old(self).logs@);
                }
                return Err(ClientError::Serde(Error::Unsupported));
            }
        }
    }

    /// A well-formed and affirmative reply to `QueryPathInfo`: the
    /// stderr channel, a nonzero validity flag, and the metadata.
    pub open spec fn query_reply_ok(b: Seq<u8>) -> bool {
        &&& dec_stderr(b) is Some
        &&& ({
            let body = b.skip(dec_stderr(b)->Some_0.1);
            &&& dec_u64(body) is Some
            &&& dec_u64(body)->Some_0.0 != 0
            &&& dec_path_info_rest(body.skip(8)) is Some
        })
    }

    /// Asks the daemon about one store path: queues the request and
    /// reads the reply — the stderr channel, a validity flag, and the
    /// metadata when the path is valid. It succeeds exactly on a
    /// well-formed reply that declares the path valid; an invalid path
    /// is an error, as the daemon holds nothing to return.
    pub fn query_path_info(&mut self, path: &str) -> (res: Result<ValidPathInfo, ClientError>)
        requires
            old(self).r.wf(),
        ensures
            final(self).r.wf(),
            final(self).r.data == old(self).r.data,
            final(self).w.buf@ == old(self).w.buf@ + enc_u64(Op::QueryPathInfo.spec_code())
                + enc_str(path@),
            res is Ok <==> Self::query_reply_ok(old(self).r.rest()),
            match res {
                Ok(v) => ({
                    &&& dec_stderr(old(self).r.rest()) is Some
                    &&& ({
                        let (msgs, n) = dec_stderr(old(self).r.rest())->Some_0;
                        let body = old(self).r.rest().skip(n);
                        &&& dec_u64(body) matches Some((valid, _)) && valid != 0
                        &&& dec_path_info_rest(body.skip(8)) matches Some((info, m)) && {
                            &&& v.path@ == path@
                            &&& v.deriver matches Some(d) && d@ == info.deriver
                            &&& v.hash@ == info.hash
                            &&& v.references.deep_view() == info.references
                            &&& v.registration_time == info.registration_time
                            &&& v.nar_size == info.nar_size
                            &&& v.ultimate == info.ultimate
                            &&& v.sigs.deep_view() == info.sigs
                            &&& v.ca matches Some(c) && c@ == info.ca
                            &&& v.id == 0
                        }
                    })
                }),
                Err(e) => ({
                    let b = old(self).r.rest();
                    &&& (e is Generic <==> ({
                        &&& dec_stderr(b) is Some
                        &&& dec_u64(b.skip(dec_stderr(b)->Some_0.1)) matches Some((valid, _))
                            && valid == 0
                    }))
                    &&& (e is Generic ==> final(self).r.pos == old(self).r.pos + dec_stderr(
                        b,
                    )->Some_0.1 + 8)
                }),
            },
    {
        let ghost rest0 = self.r.rest();
        self.w.write_u64(Op::QueryPathInfo.code());
        self.w.write_str(path);
        match self.process_stderr() {
            Ok(_) => {},
            Err(e) => {
                return Err(e);
            },
        }
        proof {
            let n = dec_stderr(rest0)->Some_0.1;
            assert(self.r.rest() =~= rest0.skip(n));
        }
        let ghost body = self.r.rest();
        let valid = match self.r.parse_bool() {
            Ok(v) => v,
            Err(e) => {
                return Err(ClientError::Serde(e));
            },
        };
        if !valid {
            return Err(ClientError::Generic(String::from_str("invalid path")));
        }
        proof {
            assert(self.r.rest() =~= body.skip(8));
        }
        let info = match PathInfoWithoutPath::decode(&mut self.r) {
            Ok(v) => v,
            Err(e) => {
                return Err(ClientError::Serde(e));
            },
        };
        let PathInfoWithoutPath {
            deriver,
            hash,
            references,
            registration_time,
            nar_size,
            ultimate,
            sigs,
            ca,
        } = info;
        Ok(
            ValidPathInfo {
                path: String::from_str(path),
                deriver: Some(deriver),
                hash,
                nar_size,
                id: 0,
                ca: Some(ca),
                references,
                sigs,
                ultimate,
                registration_time,
            },
        )
    }
}

} // verus!
