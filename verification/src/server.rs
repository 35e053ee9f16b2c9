//! The protocol engine, server side: the handshake checks, the
//! per-connection state machine, and one handler per served
//! operation, each returning exactly the reply bytes the wire model
//! prescribes. The surrounding process reads requests off the socket,
//! hands the decoded values in, and writes the returned bytes back
//! out; every decision in between is made here.
use crate::consts::BuildStatus;
use crate::error::Error;
use crate::protocol::MIN_MINOR_VERSION;
use crate::protocol::PROTOCOL_VERSION;
use crate::protocol::STDERR_LAST;
use crate::protocol::WORKER_MAGIC_1;
use crate::protocol::WORKER_MAGIC_2;
use crate::protocol::Op;
use crate::ser::Serializer;
use crate::store::built_info;
use crate::store::scannable;
use crate::store::sort_strings;
use crate::store::str_le_fn;
use crate::store::StoreIndex;
use crate::types::enc_path_info_rest;
use crate::types::ClientSettings;
use crate::types::PathInfo;
use crate::types::PathInfoWithoutPathView;
use crate::wire::enc_bool;
use crate::wire::enc_str;
use crate::wire::enc_str_seq;
use crate::wire::enc_u64;
use vstd::prelude::*;

verus! {

broadcast use vstd::seq_lib::group_to_multiset_ensures, vstd::multiset::group_multiset_axioms;

/// Where a connection stands: fresh, greeted, serving, or done.
#[derive(Clone, Copy, Debug, PartialEq, Eq, Structural)]
pub enum ConnState {
    /// Accepted; the client magic has not arrived yet.
    Accepted,
    /// Magic verified and answered; the client version is pending.
    Greeted,
    /// Handshake complete; operations are served.
    Ready,
    /// A fatal fault or an orderly disconnect ended the connection.
    Closed,
}

/// One connection's engine state: where the handshake stands and the
/// settings the client pushed.
pub struct ServerConn {
    pub state: ConnState,
    pub settings: ClientSettings,
}

/// The stderr-channel terminator that precedes every reply body.
pub open spec fn stderr_last_bytes() -> Seq<u8> {
    enc_u64(STDERR_LAST)
}

/// The wire form of an optional metadata record: a tag, then the
/// record when present.
pub open spec fn enc_opt_path_info(o: Option<PathInfoWithoutPathView>) -> Seq<u8> {
    match o {
        None => enc_bool(false),
        Some(p) => enc_bool(true) + enc_path_info_rest(p),
    }
}

/// The reply body of `BuildDerivation`: the status, a message, four
/// zero counters and an empty realisation map.
pub open spec fn build_reply_bytes(status: BuildStatus) -> Seq<u8> {
    enc_u64(status.spec_code()) + enc_str("built"@) + enc_u64(0) + enc_u64(0) + enc_u64(0)
        + enc_u64(0) + enc_u64(0)
}

/// The operations this server carries out; every other recognized tag
/// is refused as unsupported.
pub open spec fn spec_op_served(op: Op) -> bool {
    match op {
        Op::Nop => true,
        Op::SetOptions => true,
        Op::QueryPathInfo => true,
        Op::QueryValidPaths => true,
        Op::AddMultipleToStore => true,
        Op::BuildDerivation => true,
        Op::NarFromPath => true,
        _ => false,
    }
}

/// Whether this server carries the operation out.
pub fn op_served(op: Op) -> (r: bool)
    ensures
        r == spec_op_served(op),
{
    match op {
        Op::Nop => true,
        Op::SetOptions => true,
        Op::QueryPathInfo => true,
        Op::QueryValidPaths => true,
        Op::AddMultipleToStore => true,
        Op::BuildDerivation => true,
        Op::NarFromPath => true,
        _ => false,
    }
}

impl ServerConn {
    /// A freshly accepted connection, its settings at their defaults.
    pub fn new() -> (r: Self)
        ensures
            r.state == ConnState::Accepted,
            r.settings@.build_cores == 0,
    {
        ServerConn { state: ConnState::Accepted, settings: ClientSettings::initial() }
    }

    /// The first handshake step: the client's magic word arrives, and
    /// the greeting goes back, the server magic then the offered
    /// version. A wrong word closes the connection with no reply.
    pub fn handshake_magic(&mut self, client_magic: u64) -> (r: Result<Vec<u8>, Error>)
        requires
            old(self).state == ConnState::Accepted,
        ensures
            final(self).settings == old(self).settings,
            match r {
                Ok(out) => {
                    &&& client_magic == WORKER_MAGIC_1
                    &&& final(self).state == ConnState::Greeted
                    &&& out@ == enc_u64(WORKER_MAGIC_2) + enc_u64(PROTOCOL_VERSION)
                },
                Err(e) => {
                    &&& client_magic != WORKER_MAGIC_1
                    &&& final(self).state == ConnState::Closed
                    &&& e == Error::ProtocolMagic
                },
            },
    {
        if client_magic != WORKER_MAGIC_1 {
            self.state = ConnState::Closed;
            return Err(Error::ProtocolMagic);
        }
        self.state = ConnState::Greeted;
        let mut ser = Serializer::new();
        ser.write_u64(WORKER_MAGIC_2);
        ser.write_u64(PROTOCOL_VERSION);
        Ok(ser.into_bytes())
    }

    /// The second handshake step: the client's version and the two
    /// obsolete fields arrive. A client of another major version, or
    /// one below the minimum minor, is turned away; otherwise the
    /// stderr terminator closes the handshake and the connection is
    /// ready.
    pub fn handshake_version(
        &mut self,
        client_version: u64,
        _obsolete_affinity: u64,
        _obsolete_reserve: bool,
    ) -> (r: Result<Vec<u8>, Error>)
        requires
            old(self).state == ConnState::Greeted,
        ensures
            final(self).settings == old(self).settings,
            match r {
                Ok(out) => {
                    &&& client_version & 0xff00 == PROTOCOL_VERSION & 0xff00
                    &&& client_version & 0x00ff >= MIN_MINOR_VERSION
                    &&& final(self).state == ConnState::Ready
                    &&& out@ == stderr_last_bytes()
                },
                Err(e) => {
                    &&& !(client_version & 0xff00 == PROTOCOL_VERSION & 0xff00 && client_version
                        & 0x00ff >= MIN_MINOR_VERSION)
                    &&& final(self).state == ConnState::Closed
                    &&& e == Error::ProtocolVersion
                },
            },
    {
        let major = crate::protocol::protocol_version_major(client_version);
        let minor = crate::protocol::protocol_version_minor(client_version);
        let own_major = crate::protocol::protocol_version_major(PROTOCOL_VERSION);
        if major != own_major || minor < MIN_MINOR_VERSION {
            self.state = ConnState::Closed;
            return Err(Error::ProtocolVersion);
        }
        self.state = ConnState::Ready;
        let mut ser = Serializer::new();
        ser.write_u64(STDERR_LAST);
        Ok(ser.into_bytes())
    }

    /// Turns an operation tag into the operation to carry out, or
    /// closes the connection on one this server does not serve.
    pub fn dispatch(&mut self, tag: u64) -> (r: Result<Op, Error>)
        requires
            old(self).state == ConnState::Ready,
        ensures
            final(self).settings == old(self).settings,
            match r {
                Ok(op) => {
                    &&& Op::spec_from_code(tag) == Some(op)
                    &&& spec_op_served(op)
                    &&& final(self).state == ConnState::Ready
                },
                Err(e) => {
                    &&& match Op::spec_from_code(tag) {
                        Some(op) => !spec_op_served(op),
                        None => true,
                    }
                    &&& final(self).state == ConnState::Closed
                    &&& e == Error::Unsupported
                },
            },
    {
        match Op::from_code(tag) {
            Some(op) => {
                if op_served(op) {
                    Ok(op)
                } else {
                    self.state = ConnState::Closed;
                    Err(Error::Unsupported)
                }
            },
            None => {
                self.state = ConnState::Closed;
                Err(Error::Unsupported)
            },
        }
    }

    /// An orderly disconnect: the stream ended where an operation tag
    /// would have begun.
    pub fn disconnect(&mut self)
        ensures
            final(self).state == ConnState::Closed,
            final(self).settings == old(self).settings,
    {
        self.state = ConnState::Closed;
    }

    /// `Nop`: nothing to do; the reply is the terminator alone.
    pub fn handle_nop(&self) -> (r: Vec<u8>)
        requires
            self.state == ConnState::Ready,
        ensures
            r@ == stderr_last_bytes(),
    {
        let mut ser = Serializer::new();
        ser.write_u64(STDERR_LAST);
        ser.into_bytes()
    }

    /// `SetOptions`: the pushed settings replace the connection's.
    pub fn handle_set_options(&mut self, settings: ClientSettings) -> (r: Vec<u8>)
        requires
            old(self).state == ConnState::Ready,
        ensures
            final(self).state == ConnState::Ready,
            final(self).settings == settings,
            r@ == stderr_last_bytes(),
    {
        self.settings = settings;
        let mut ser = Serializer::new();
        ser.write_u64(STDERR_LAST);
        ser.into_bytes()
    }

    /// `QueryPathInfo`: the metadata the index holds for the path,
    /// or the optional-none encoding when it holds none.
    pub fn handle_query_path_info(&self, store: &StoreIndex, path: &String) -> (r: Vec<u8>)
        requires
            self.state == ConnState::Ready,
            store.wf(),
        ensures
            r@ == stderr_last_bytes() + enc_opt_path_info(
                if store.contains_key(path@) {
                    Some(store.info_at(path@))
                } else {
                    None
                },
            ),
    {
        let mut ser = Serializer::new();
        ser.write_u64(STDERR_LAST);
        match store.lookup(path) {
            Some(p) => {
                ser.write_bool(true);
                p.info.encode(&mut ser);
                proof {
                    assert(ser.buf@ =~= stderr_last_bytes() + enc_opt_path_info(
                        Some(store.info_at(path@)),
                    ));
                }
            },
            None => {
                ser.write_bool(false);
            },
        }
        ser.into_bytes()
    }

    /// `QueryValidPaths`: of the candidate paths, those the index
    /// holds, in index order. The substitutes flag of the request is
    /// accepted and ignored.
    pub fn handle_query_valid_paths(
        &self,
        store: &StoreIndex,
        candidates: &Vec<String>,
        _use_substitutes: bool,
    ) -> (r: Vec<u8>)
        requires
            self.state == ConnState::Ready,
            store.wf(),
        ensures
            r@ == stderr_last_bytes() + enc_str_seq(
                store.keys().filter(|k: Seq<char>| candidates.deep_view().contains(k)),
            ),
    {
        let subset = store.valid_subset(candidates);
        let mut ser = Serializer::new();
        ser.write_u64(STDERR_LAST);
        ser.write_str_seq(&subset);
        ser.into_bytes()
    }

    /// One ingested path of `AddMultipleToStore`: when its archive
    /// unpacked, the record enters the index; when it did not, the
    /// index is untouched and the connection is lost to `StoreIO`,
    /// since the framed payload position is unrecoverable.
    pub fn ingest_entry(&self, store: &mut StoreIndex, info: PathInfo, unpack_ok: bool) -> (r:
        Result<(), Error>)
        requires
            self.state == ConnState::Ready,
            old(store).wf(),
        ensures
            final(store).wf(),
            match r {
                Ok(_) => {
                    &&& unpack_ok
                    &&& final(store).map_view() =~= old(store).map_view().insert(
                        info.path@,
                        info.info@,
                    )
                    &&& final(store).keys() == (if old(store).contains_key(info.path@) {
                        old(store).keys()
                    } else {
                        old(store).keys().push(info.path@)
                    })
                },
                Err(e) => {
                    &&& !unpack_ok
                    &&& *final(store) == *old(store)
                    &&& e == Error::StoreIO
                },
            },
    {
        if !unpack_ok {
            return Err(Error::StoreIO);
        }
        store.insert(info);
        Ok(())
    }

    /// The reply that closes a completed `AddMultipleToStore`.
    pub fn ingest_done(&self) -> (r: Vec<u8>)
        requires
            self.state == ConnState::Ready,
        ensures
            r@ == stderr_last_bytes(),
    {
        let mut ser = Serializer::new();
        ser.write_u64(STDERR_LAST);
        ser.into_bytes()
    }

    /// `NarFromPath`: the terminator goes out, and the caller then
    /// streams the path's archive bytes raw onto the connection. Says
    /// whether the index knows the path at all.
    pub fn handle_nar_from_path(&self, store: &StoreIndex, path: &String) -> (r: (bool, Vec<u8>))
        requires
            self.state == ConnState::Ready,
            store.wf(),
        ensures
            r.0 == store.contains_key(path@),
            r.1@ == stderr_last_bytes(),
    {
        let known = match store.lookup(path) {
            Some(_) => true,
            None => false,
        };
        let mut ser = Serializer::new();
        ser.write_u64(STDERR_LAST);
        (known, ser.into_bytes())
    }
}

/// The index after registering each output in turn, first to last.
pub open spec fn registered_all(
    m: Map<Seq<char>, PathInfoWithoutPathView>,
    outputs: Seq<(Seq<char>, Seq<u8>)>,
    srcs: Seq<Seq<char>>,
) -> Map<Seq<char>, PathInfoWithoutPathView>
    decreases outputs.len(),
{
    if outputs.len() == 0 {
        m
    } else {
        registered_all(
            m.insert(outputs[0].0, built_info(outputs[0].1, srcs)),
            outputs.drop_first(),
            srcs,
        )
    }
}

/// Registering one more output at the end of the run.
proof fn lemma_registered_all_snoc(
    m: Map<Seq<char>, PathInfoWithoutPathView>,
    outputs: Seq<(Seq<char>, Seq<u8>)>,
    x: (Seq<char>, Seq<u8>),
    srcs: Seq<Seq<char>>,
)
    ensures
        registered_all(m, outputs.push(x), srcs) == registered_all(m, outputs, srcs).insert(
            x.0,
            built_info(x.1, srcs),
        ),
    decreases outputs.len(),
{
    if outputs.len() == 0 {
        assert(outputs.push(x).drop_first() =~= outputs);
        assert(outputs.push(x)[0] == x);
        assert(registered_all(m, outputs, srcs) == m);
        assert(registered_all(
            m.insert(x.0, built_info(x.1, srcs)),
            outputs.push(x).drop_first(),
            srcs,
        ) == m.insert(x.0, built_info(x.1, srcs)));
    } else {
        assert(outputs.push(x).drop_first() =~= outputs.drop_first().push(x));
        lemma_registered_all_snoc(
            m.insert(outputs[0].0, built_info(outputs[0].1, srcs)),
            outputs.drop_first(),
            x,
            srcs,
        );
    }
}

impl ServerConn {
    /// `BuildDerivation`, after the builder ran: a failed builder
    /// leaves the index untouched and reports `MiscFailure`; a
    /// successful one registers every produced output — its archive
    /// hashed and scanned against the input sources, sorted by path —
    /// and reports `Built`. Either way the reply carries the status,
    /// zeroed counters and an empty realisation map.
    pub fn build_finish(
        &self,
        store: &mut StoreIndex,
        success: bool,
        outputs: &Vec<(String, Vec<u8>)>,
        input_srcs: &Vec<String>,
    ) -> (r: (BuildStatus, Vec<u8>))
        requires
            self.state == ConnState::Ready,
            old(store).wf(),
            forall|i: int|
                0 <= i < input_srcs.deep_view().len() ==> scannable(
                    #[trigger] input_srcs.deep_view()[i],
                ),
            forall|i: int|
                0 <= i < outputs.deep_view().len() ==> (#[trigger] outputs.deep_view()[i]).1.len()
                    <= u64::MAX,
        ensures
            final(store).wf(),
            r.1@ == stderr_last_bytes() + build_reply_bytes(r.0),
            (if success {
                r.0 == BuildStatus::Built
            } else {
                r.0 == BuildStatus::MiscFailure
            }),
            !success ==> *final(store) == *old(store),
            success ==> final(store).map_view() == registered_all(
                old(store).map_view(),
                outputs.deep_view(),
                input_srcs.deep_view().sort_by(str_le_fn()),
            ),
    {
        let ghost odv = outputs.deep_view();
        let status: BuildStatus;
        if success {
            let sorted = sort_strings(input_srcs);
            let ghost ss = input_srcs.deep_view().sort_by(str_le_fn());
            proof {
                crate::store::lemma_str_le_total_ordering();
                input_srcs.deep_view().lemma_sort_by_ensures(str_le_fn());
                assert forall|i: int| 0 <= i < ss.len() implies scannable(#[trigger] ss[i]) by {
                    assert(ss.to_multiset().contains(ss[i]));
                    assert(input_srcs.deep_view().to_multiset().contains(ss[i]));
                    let j = choose|j: int|
                        0 <= j < input_srcs.deep_view().len() && input_srcs.deep_view()[j] == ss[i];
                    assert(scannable(input_srcs.deep_view()[j]));
                }
                assert(odv.take(0) =~= Seq::<(Seq<char>, Seq<u8>)>::empty());
            }
            let n = outputs.len();
            let mut i: usize = 0;
            while i < n
                invariant
                    n == outputs@.len(),
                    i <= n,
                    odv == outputs.deep_view(),
                    sorted.deep_view() == input_srcs.deep_view().sort_by(str_le_fn()),
                    forall|j: int|
                        0 <= j < sorted.deep_view().len() ==> scannable(
                            #[trigger] sorted.deep_view()[j],
                        ),
                    forall|j: int|
                        0 <= j < odv.len() ==> (#[trigger] odv[j]).1.len() <= u64::MAX,
                    store.wf(),
                    store.map_view() == registered_all(
                        old(store).map_view(),
                        odv.take(i as int),
                        sorted.deep_view(),
                    ),
                decreases n - i,
            {
                let path = outputs[i].0.clone();
                proof {
                    assert(odv[i as int] == (outputs@[i as int].0@, outputs@[i as int].1@));
                }
                store.register_output(path, &outputs[i].1, &sorted);
                proof {
                    lemma_registered_all_snoc(
                        old(store).map_view(),
                        odv.take(i as int),
                        odv[i as int],
                        sorted.deep_view(),
                    );
                    assert(odv.take(i as int).push(odv[i as int]) =~= odv.take(i + 1));
                }
                i = i + 1;
            }
            proof {
                assert(odv.take(n as int) =~= odv);
            }
            status = BuildStatus::Built;
        } else {
            status = BuildStatus::MiscFailure;
        }
        let mut ser = Serializer::new();
        ser.write_u64(STDERR_LAST);
        ser.write_u64(status.code());
        ser.write_str("built");
        ser.write_u64(0);
        ser.write_u64(0);
        ser.write_u64(0);
        ser.write_u64(0);
        ser.write_u64(0);
        proof {
            assert(ser.buf@ =~= stderr_last_bytes() + build_reply_bytes(status));
        }
        (status, ser.into_bytes())
    }
}

} // verus!
