//! The data model: store path metadata, build recipes, realisations
//! and per-connection client settings, each with a ghost view and,
//! where the protocol carries it, a codec proved against the wire
//! model.
use crate::error::Error;
use crate::de::Deserializer;
use crate::ser::Serializer;
use crate::wire::dec_bool;
use crate::wire::dec_str;
use crate::wire::dec_str_seq;
use crate::wire::dec_u64;
use crate::wire::enc_bool;
use crate::wire::enc_str;
use crate::wire::enc_str_seq;
use crate::wire::enc_u64;
use crate::wire::lemma_dec_enc_bool;
use crate::wire::lemma_dec_enc_str;
use crate::wire::lemma_dec_enc_str_seq;
use crate::wire::lemma_dec_enc_u64;
use crate::wire::dec_str_pair;
use crate::wire::enc_str_pair;
use crate::wire::lemma_enc_dec_str_pair;
use crate::wire::wf_str_pair_at;
use crate::wire::str_encodable;
use crate::wire::concat_enc;
use crate::wire::dec_consumes;
use crate::wire::dec_n;
use crate::wire::dec_str_pair_seq;
use crate::wire::enc_str_pair_seq;
use crate::wire::lemma_dec_enc_list;
use crate::wire::lemma_dec_enc_str_pair_seq;
use crate::wire::lemma_dec_n_snoc;
use crate::wire::lemma_dec_n_stuck;
use crate::wire::lemma_str_dec_consumes;
use crate::wire::str_dec;
use crate::wire::lemma_enc_dec_bool;
use crate::wire::lemma_enc_dec_list;
use crate::wire::lemma_enc_dec_seq_then_str;
use crate::wire::lemma_enc_dec_str;
use crate::wire::lemma_enc_dec_str_pair_seq;
use crate::wire::lemma_enc_dec_str_seq;
use crate::wire::lemma_enc_dec_str_then_seq;
use crate::wire::lemma_enc_dec_u64;
use crate::wire::wf_n;
use crate::wire::wf_seq_then_str_at;
use crate::wire::wf_str_at;
use crate::wire::wf_str_pair_seq_at;
use crate::wire::wf_str_seq_at;
use crate::wire::wf_str_then_seq_at;
use vstd::prelude::*;

verus! {

/// A content hash carried by the realisation operations: its size and
/// its raw bytes.
#[derive(Clone, Debug)]
pub struct Hash {
    pub hash_size: u64,
    pub hash: Vec<u8>,
}

/// The view of a [`Hash`].
pub struct HashView {
    pub hash_size: u64,
    pub hash: Seq<u8>,
}

impl View for Hash {
    type V = HashView;

    open spec fn view(&self) -> HashView {
        HashView { hash_size: self.hash_size, hash: self.hash@ }
    }
}

/// A store path by its base name alone.
#[derive(Clone, Debug)]
pub struct StorePath {
    pub base_name: String,
}

/// The view of a [`StorePath`].
pub struct StorePathView {
    pub base_name: Seq<char>,
}

impl View for StorePath {
    type V = StorePathView;

    open spec fn view(&self) -> StorePathView {
        StorePathView { base_name: self.base_name@ }
    }
}

/// The identity of one derivation output: the derivation's hash and
/// the output's name.
#[derive(Clone, Debug)]
pub struct DrvOutput {
    pub drv_hash: Hash,
    pub output_name: String,
}

/// The view of a [`DrvOutput`].
pub struct DrvOutputView {
    pub drv_hash: HashView,
    pub output_name: Seq<char>,
}

impl View for DrvOutput {
    type V = DrvOutputView;

    open spec fn view(&self) -> DrvOutputView {
        DrvOutputView { drv_hash: self.drv_hash@, output_name: self.output_name@ }
    }
}

/// The outcome of building one derivation output: where it landed and
/// what vouches for it. Dependent realisations are kept as a list of
/// pairs with unique identities.
#[derive(Clone, Debug)]
pub struct Realisation {
    pub id: DrvOutput,
    pub out_path: StorePath,
    pub signature: Vec<String>,
    pub dependent_realisations: Vec<(DrvOutput, StorePath)>,
}

/// Store path metadata, without the path it belongs to: the wire shape
/// of a `QueryPathInfo` reply.
#[derive(Clone, Debug, PartialEq)]
pub struct PathInfoWithoutPath {
    pub deriver: String,
    pub hash: String,
    pub references: Vec<String>,
    pub registration_time: u64,
    pub nar_size: u64,
    pub ultimate: bool,
    pub sigs: Vec<String>,
    pub ca: String,
}

/// The view of a [`PathInfoWithoutPath`].
pub struct PathInfoWithoutPathView {
    pub deriver: Seq<char>,
    pub hash: Seq<char>,
    pub references: Seq<Seq<char>>,
    pub registration_time: u64,
    pub nar_size: u64,
    pub ultimate: bool,
    pub sigs: Seq<Seq<char>>,
    pub ca: Seq<char>,
}

impl View for PathInfoWithoutPath {
    type V = PathInfoWithoutPathView;

    open spec fn view(&self) -> PathInfoWithoutPathView {
        PathInfoWithoutPathView {
            deriver: self.deriver@,
            hash: self.hash@,
            references: self.references.deep_view(),
            registration_time: self.registration_time,
            nar_size: self.nar_size,
            ultimate: self.ultimate,
            sigs: self.sigs.deep_view(),
            ca: self.ca@,
        }
    }
}

/// Store path metadata keyed by its path: the store index entry and
/// the per-path record of an `AddMultipleToStore` payload.
#[derive(Clone, Debug, PartialEq)]
pub struct PathInfo {
    pub path: String,
    pub info: PathInfoWithoutPath,
}

/// The view of a [`PathInfo`].
pub struct PathInfoView {
    pub path: Seq<char>,
    pub info: PathInfoWithoutPathView,
}

impl View for PathInfo {
    type V = PathInfoView;

    open spec fn view(&self) -> PathInfoView {
        PathInfoView { path: self.path@, info: self.info@ }
    }
}

/// The wire form of the first half of the metadata record: deriver,
/// hash, references, registration time.
pub open spec fn enc_path_meta_head(p: PathInfoWithoutPathView) -> Seq<u8> {
    enc_str(p.deriver) + enc_str(p.hash) + enc_str_seq(p.references) + enc_u64(
        p.registration_time,
    )
}

/// The wire form of the second half: archive size, ultimate flag,
/// signatures, content address.
pub open spec fn enc_path_meta_tail(p: PathInfoWithoutPathView) -> Seq<u8> {
    enc_u64(p.nar_size) + enc_bool(p.ultimate) + enc_str_seq(p.sigs) + enc_str(p.ca)
}

/// The wire form of path metadata: its fields in declaration order.
pub open spec fn enc_path_info_rest(p: PathInfoWithoutPathView) -> Seq<u8> {
    enc_path_meta_head(p) + enc_path_meta_tail(p)
}

/// The wire form of a full path record: the path, then its metadata.
pub open spec fn enc_path_info(p: PathInfoView) -> Seq<u8> {
    enc_str(p.path) + enc_path_info_rest(p.info)
}

/// Reading the first half of the metadata record.
pub open spec fn dec_path_meta_head(b: Seq<u8>) -> Option<
    ((Seq<char>, Seq<char>, Seq<Seq<char>>, u64), int),
> {
    match dec_str(b) {
        Some((deriver, n1)) => match dec_str(b.skip(n1)) {
            Some((hash, n2)) => match dec_str_seq(b.skip(n1 + n2)) {
                Some((references, n3)) => match dec_u64(b.skip(n1 + n2 + n3)) {
                    Some((registration_time, n4)) => Some(
                        ((deriver, hash, references, registration_time), n1 + n2 + n3 + n4),
                    ),
                    None => None,
                },
                None => None,
            },
            None => None,
        },
        None => None,
    }
}

/// Reading the second half of the metadata record.
pub open spec fn dec_path_meta_tail(b: Seq<u8>) -> Option<
    ((u64, bool, Seq<Seq<char>>, Seq<char>), int),
> {
    match dec_u64(b) {
        Some((nar_size, n1)) => match dec_bool(b.skip(n1)) {
            Some((ultimate, n2)) => match dec_str_seq(b.skip(n1 + n2)) {
                Some((sigs, n3)) => match dec_str(b.skip(n1 + n2 + n3)) {
                    Some((ca, n4)) => Some(((nar_size, ultimate, sigs, ca), n1 + n2 + n3 + n4)),
                    None => None,
                },
                None => None,
            },
            None => None,
        },
        None => None,
    }
}

/// Reading path metadata off the front of a stream.
pub open spec fn dec_path_info_rest(b: Seq<u8>) -> Option<(PathInfoWithoutPathView, int)> {
    match dec_path_meta_head(b) {
        Some(((deriver, hash, references, registration_time), n)) => match dec_path_meta_tail(
            b.skip(n),
        ) {
            Some(((nar_size, ultimate, sigs, ca), m)) => Some(
                (
                    PathInfoWithoutPathView {
                        deriver,
                        hash,
                        references,
                        registration_time,
                        nar_size,
                        ultimate,
                        sigs,
                        ca,
                    },
                    n + m,
                ),
            ),
            None => None,
        },
        None => None,
    }
}

/// Reading a full path record off the front of a stream.
pub open spec fn dec_path_info(b: Seq<u8>) -> Option<(PathInfoView, int)> {
    match dec_str(b) {
        Some((path, n1)) => match dec_path_info_rest(b.skip(n1)) {
            Some((info, n2)) => Some((PathInfoView { path, info }, n1 + n2)),
            None => None,
        },
        None => None,
    }
}

/// Every string in the record fits a `u64` length when encoded.
pub open spec fn path_info_rest_encodable(p: PathInfoWithoutPathView) -> bool {
    &&& str_encodable(p.deriver)
    &&& str_encodable(p.hash)
    &&& p.references.len() <= u64::MAX
    &&& forall|i: int| 0 <= i < p.references.len() ==> str_encodable(#[trigger] p.references[i])
    &&& p.sigs.len() <= u64::MAX
    &&& forall|i: int| 0 <= i < p.sigs.len() ==> str_encodable(#[trigger] p.sigs[i])
    &&& str_encodable(p.ca)
}

pub open spec fn path_info_encodable(p: PathInfoView) -> bool {
    &&& str_encodable(p.path)
    &&& path_info_rest_encodable(p.info)
}

/// Decoding the encoded first half gives its fields back, whatever
/// follows.
#[verifier::rlimit(100)]
pub proof fn lemma_dec_enc_path_meta_head(p: PathInfoWithoutPathView, rest: Seq<u8>)
    requires
        path_info_rest_encodable(p),
    ensures
        dec_path_meta_head(enc_path_meta_head(p) + rest) == Some(
            (
                (p.deriver, p.hash, p.references, p.registration_time),
                enc_path_meta_head(p).len() as int,
            ),
        ),
{
    vstd::bytes::lemma_auto_spec_u64_to_from_le_bytes();
    let e1 = enc_str(p.deriver);
    let e2 = enc_str(p.hash);
    let e3 = enc_str_seq(p.references);
    let e4 = enc_u64(p.registration_time);
    let whole = enc_path_meta_head(p) + rest;
    let t4 = e4 + rest;
    let t3 = e3 + t4;
    let t2 = e2 + t3;
    let t1 = e1 + t2;
    assert(whole =~= t1);
    lemma_dec_enc_str(p.deriver, t2);
    assert(t1.skip(e1.len() as int) =~= t2);
    lemma_dec_enc_str(p.hash, t3);
    assert(t1.skip((e1.len() + e2.len()) as int) =~= t3);
    lemma_dec_enc_str_seq(p.references, t4);
    assert(t1.skip((e1.len() + e2.len() + e3.len()) as int) =~= t4);
    lemma_dec_enc_u64(p.registration_time, rest);
}

/// Decoding the encoded second half gives its fields back, whatever
/// follows.
#[verifier::rlimit(100)]
pub proof fn lemma_dec_enc_path_meta_tail(p: PathInfoWithoutPathView, rest: Seq<u8>)
    requires
        path_info_rest_encodable(p),
    ensures
        dec_path_meta_tail(enc_path_meta_tail(p) + rest) == Some(
            ((p.nar_size, p.ultimate, p.sigs, p.ca), enc_path_meta_tail(p).len() as int),
        ),
{
    vstd::bytes::lemma_auto_spec_u64_to_from_le_bytes();
    let e1 = enc_u64(p.nar_size);
    let e2 = enc_bool(p.ultimate);
    let e3 = enc_str_seq(p.sigs);
    let e4 = enc_str(p.ca);
    let whole = enc_path_meta_tail(p) + rest;
    let t4 = e4 + rest;
    let t3 = e3 + t4;
    let t2 = e2 + t3;
    let t1 = e1 + t2;
    assert(whole =~= t1);
    lemma_dec_enc_u64(p.nar_size, t2);
    assert(t1.skip(e1.len() as int) =~= t2);
    lemma_dec_enc_bool(p.ultimate, t3);
    assert(t1.skip((e1.len() + e2.len()) as int) =~= t3);
    lemma_dec_enc_str_seq(p.sigs, t4);
    assert(t1.skip((e1.len() + e2.len() + e3.len()) as int) =~= t4);
    lemma_dec_enc_str(p.ca, rest);
}

/// Decoding encoded path metadata gives the record back, whatever
/// follows.
#[verifier::rlimit(100)]
pub proof fn lemma_dec_enc_path_info_rest(p: PathInfoWithoutPathView, rest: Seq<u8>)
    requires
        path_info_rest_encodable(p),
    ensures
        dec_path_info_rest(enc_path_info_rest(p) + rest) == Some(
            (p, enc_path_info_rest(p).len() as int),
        ),
{
    let eh = enc_path_meta_head(p);
    let et = enc_path_meta_tail(p);
    let whole = enc_path_info_rest(p) + rest;
    assert(whole =~= eh + (et + rest));
    lemma_dec_enc_path_meta_head(p, et + rest);
    assert(whole.skip(eh.len() as int) =~= et + rest);
    lemma_dec_enc_path_meta_tail(p, rest);
}

/// Decoding an encoded path record gives it back, whatever follows.
#[verifier::rlimit(100)]
pub proof fn lemma_dec_enc_path_info(p: PathInfoView, rest: Seq<u8>)
    requires
        path_info_encodable(p),
    ensures
        dec_path_info(enc_path_info(p) + rest) == Some((p, enc_path_info(p).len() as int)),
{
    let e1 = enc_str(p.path);
    let e2 = enc_path_info_rest(p.info);
    let whole = enc_path_info(p) + rest;
    assert(whole =~= e1 + (e2 + rest));
    lemma_dec_enc_str(p.path, e2 + rest);
    assert(whole.skip(e1.len() as int) =~= e2 + rest);
    lemma_dec_enc_path_info_rest(p.info, rest);
}

impl PathInfoWithoutPath {
    /// Appends this record's wire form to the encoder.
    pub fn encode(&self, ser: &mut Serializer)
        ensures
            final(ser).buf@ == old(ser).buf@ + enc_path_info_rest(self@),
    {
        ser.write_str(self.deriver.as_str());
        ser.write_str(self.hash.as_str());
        ser.write_str_seq(&self.references);
        ser.write_u64(self.registration_time);
        ser.write_u64(self.nar_size);
        ser.write_bool(self.ultimate);
        ser.write_str_seq(&self.sigs);
        ser.write_str(self.ca.as_str());
        proof {
            assert(final(ser).buf@ =~= old(ser).buf@ + enc_path_info_rest(self@));
        }
    }

    /// Reads the first half of the record off the decoder.
    #[verifier::rlimit(100)]
    fn decode_head(de: &mut Deserializer) -> (r: Result<(String, String, Vec<String>, u64), Error>)
        requires
            old(de).wf(),
        ensures
            final(de).wf(),
            final(de).data == old(de).data,
            match r {
                Ok(v) => {
                    &&& dec_path_meta_head(old(de).rest()) == Some(
                        ((v.0@, v.1@, v.2.deep_view(), v.3), final(de).pos - old(de).pos),
                    )
                    &&& final(de).pos >= old(de).pos
                },
                Err(e) => {
                    &&& dec_path_meta_head(old(de).rest()) is None
                    &&& *final(de) == *old(de)
                    &&& (e == Error::EndOfStream || e == Error::Truncated || e == Error::Encoding)
                },
            },
    {
        let ghost b = de.rest();
        let start = de.pos;
        let deriver = match de.parse_string() {
            Ok(v) => v,
            Err(e) => {
                de.pos = start;
                return Err(e);
            },
        };
        let ghost n1 = de.pos - start;
        proof {
            assert(de.rest() =~= b.skip(n1 as int));
        }
        let hash = match de.parse_string() {
            Ok(v) => v,
            Err(e) => {
                de.pos = start;
                return Err(e);
            },
        };
        let ghost n2 = de.pos - start - n1;
        proof {
            assert(de.rest() =~= b.skip(n1 + n2));
        }
        let references = match de.parse_string_seq() {
            Ok(v) => v,
            Err(e) => {
                de.pos = start;
                return Err(e);
            },
        };
        let ghost n3 = de.pos - start - n1 - n2;
        proof {
            assert(de.rest() =~= b.skip(n1 + n2 + n3));
        }
        let registration_time = match de.parse_u64() {
            Ok(v) => v,
            Err(e) => {
                de.pos = start;
                return Err(e);
            },
        };
        Ok((deriver, hash, references, registration_time))
    }

    /// Reads the second half of the record off the decoder.
    #[verifier::rlimit(100)]
    fn decode_tail(de: &mut Deserializer) -> (r: Result<(u64, bool, Vec<String>, String), Error>)
        requires
            old(de).wf(),
        ensures
            final(de).wf(),
            final(de).data == old(de).data,
            match r {
                Ok(v) => {
                    &&& dec_path_meta_tail(old(de).rest()) == Some(
                        ((v.0, v.1, v.2.deep_view(), v.3@), final(de).pos - old(de).pos),
                    )
                    &&& final(de).pos >= old(de).pos
                },
                Err(e) => {
                    &&& dec_path_meta_tail(old(de).rest()) is None
                    &&& *final(de) == *old(de)
                    &&& (e == Error::EndOfStream || e == Error::Truncated || e == Error::Encoding)
                },
            },
    {
        let ghost b = de.rest();
        let start = de.pos;
        let nar_size = match de.parse_u64() {
            Ok(v) => v,
            Err(e) => {
                de.pos = start;
                return Err(e);
            },
        };
        let ghost n1 = de.pos - start;
        proof {
            assert(de.rest() =~= b.skip(n1 as int));
        }
        let ultimate = match de.parse_bool() {
            Ok(v) => v,
            Err(e) => {
                de.pos = start;
                return Err(e);
            },
        };
        let ghost n2 = de.pos - start - n1;
        proof {
            assert(de.rest() =~= b.skip(n1 + n2));
        }
        let sigs = match de.parse_string_seq() {
            Ok(v) => v,
            Err(e) => {
                de.pos = start;
                return Err(e);
            },
        };
        let ghost n3 = de.pos - start - n1 - n2;
        proof {
            assert(de.rest() =~= b.skip(n1 + n2 + n3));
        }
        let ca = match de.parse_string() {
            Ok(v) => v,
            Err(e) => {
                de.pos = start;
                return Err(e);
            },
        };
        Ok((nar_size, ultimate, sigs, ca))
    }

    /// Reads one record off the decoder.
    pub fn decode(de: &mut Deserializer) -> (r: Result<Self, Error>)
        requires
            old(de).wf(),
        ensures
            final(de).wf(),
            final(de).data == old(de).data,
            match r {
                Ok(v) => {
                    &&& dec_path_info_rest(old(de).rest()) == Some(
                        (v@, final(de).pos - old(de).pos),
                    )
                    &&& final(de).pos >= old(de).pos
                },
                Err(e) => {
                    &&& dec_path_info_rest(old(de).rest()) is None
                    &&& *final(de) == *old(de)
                    &&& (e == Error::EndOfStream || e == Error::Truncated || e == Error::Encoding)
                },
            },
    {
        let ghost b = de.rest();
        let start = de.pos;
        let head = match Self::decode_head(de) {
            Ok(v) => v,
            Err(e) => {
                de.pos = start;
                return Err(e);
            },
        };
        let ghost n = de.pos - start;
        proof {
            assert(de.rest() =~= b.skip(n as int));
        }
        let tail = match Self::decode_tail(de) {
            Ok(v) => v,
            Err(e) => {
                de.pos = start;
                return Err(e);
            },
        };
        let (deriver, hash, references, registration_time) = head;
        let (nar_size, ultimate, sigs, ca) = tail;
        Ok(
            PathInfoWithoutPath {
                deriver,
                hash,
                references,
                registration_time,
                nar_size,
                ultimate,
                sigs,
                ca,
            },
        )
    }
}

impl PathInfo {
    /// Appends this record's wire form to the encoder.
    pub fn encode(&self, ser: &mut Serializer)
        ensures
            final(ser).buf@ == old(ser).buf@ + enc_path_info(self@),
    {
        ser.write_str(self.path.as_str());
        self.info.encode(ser);
        proof {
            assert(final(ser).buf@ =~= old(ser).buf@ + enc_path_info(self@));
        }
    }

    /// Reads one record off the decoder.
    pub fn decode(de: &mut Deserializer) -> (r: Result<Self, Error>)
        requires
            old(de).wf(),
        ensures
            final(de).wf(),
            final(de).data == old(de).data,
            match r {
                Ok(v) => {
                    &&& dec_path_info(old(de).rest()) == Some((v@, final(de).pos - old(de).pos))
                    &&& final(de).pos >= old(de).pos
                },
                Err(e) => {
                    &&& dec_path_info(old(de).rest()) is None
                    &&& *final(de) == *old(de)
                    &&& (e == Error::EndOfStream || e == Error::Truncated || e == Error::Encoding)
                },
            },
    {
        let ghost b = de.rest();
        let start = de.pos;
        let path = match de.parse_string() {
            Ok(v) => v,
            Err(e) => {
                de.pos = start;
                return Err(e);
            },
        };
        let ghost n1 = de.pos - start;
        proof {
            assert(de.rest() =~= b.skip(n1 as int));
        }
        let info = match PathInfoWithoutPath::decode(de) {
            Ok(v) => v,
            Err(e) => {
                de.pos = start;
                return Err(e);
            },
        };
        Ok(PathInfo { path, info })
    }
}


/// One declared output of a derivation: its name, predicted path,
/// hash algorithm and optional fixed hash.
#[derive(Clone, Debug, PartialEq)]
pub struct DerivationOutput {
    pub name: String,
    pub path_s: String,
    pub hash_algo: String,
    pub hash: String,
}

/// The view of a [`DerivationOutput`].
pub struct DerivationOutputView {
    pub name: Seq<char>,
    pub path_s: Seq<char>,
    pub hash_algo: Seq<char>,
    pub hash: Seq<char>,
}

impl View for DerivationOutput {
    type V = DerivationOutputView;

    open spec fn view(&self) -> DerivationOutputView {
        DerivationOutputView {
            name: self.name@,
            path_s: self.path_s@,
            hash_algo: self.hash_algo@,
            hash: self.hash@,
        }
    }
}

/// A build recipe: what to run, where its outputs land, and the
/// environment it sees. Immutable once received.
#[derive(Clone, Debug, PartialEq)]
pub struct BasicDerivation {
    pub name: String,
    pub outputs: Vec<DerivationOutput>,
    pub input_srcs: Vec<String>,
    pub platform: String,
    pub builder: String,
    pub args: Vec<String>,
    pub env: Vec<(String, String)>,
}

/// The view of a [`BasicDerivation`].
pub struct BasicDerivationView {
    pub name: Seq<char>,
    pub outputs: Seq<DerivationOutputView>,
    pub input_srcs: Seq<Seq<char>>,
    pub platform: Seq<char>,
    pub builder: Seq<char>,
    pub args: Seq<Seq<char>>,
    pub env: Seq<(Seq<char>, Seq<char>)>,
}

/// The views of a run of declared outputs.
pub open spec fn outputs_view(v: Seq<DerivationOutput>) -> Seq<DerivationOutputView> {
    v.map_values(|o: DerivationOutput| o@)
}

impl View for BasicDerivation {
    type V = BasicDerivationView;

    open spec fn view(&self) -> BasicDerivationView {
        BasicDerivationView {
            name: self.name@,
            outputs: outputs_view(self.outputs@),
            input_srcs: self.input_srcs.deep_view(),
            platform: self.platform@,
            builder: self.builder@,
            args: self.args.deep_view(),
            env: self.env.deep_view(),
        }
    }
}

/// The wire form of one declared output: four strings.
pub open spec fn enc_drv_output(o: DerivationOutputView) -> Seq<u8> {
    enc_str(o.name) + enc_str(o.path_s) + enc_str(o.hash_algo) + enc_str(o.hash)
}

/// Reading one declared output off the front of a stream.
pub open spec fn dec_drv_output(b: Seq<u8>) -> Option<(DerivationOutputView, int)> {
    match dec_str(b) {
        Some((name, n1)) => match dec_str(b.skip(n1)) {
            Some((path_s, n2)) => match dec_str(b.skip(n1 + n2)) {
                Some((hash_algo, n3)) => match dec_str(b.skip(n1 + n2 + n3)) {
                    Some((hash, n4)) => Some(
                        (DerivationOutputView { name, path_s, hash_algo, hash }, n1 + n2 + n3 + n4),
                    ),
                    None => None,
                },
                None => None,
            },
            None => None,
        },
        None => None,
    }
}

/// The declared-output codec, packaged for the run combinators.
pub open spec fn out_enc() -> spec_fn(DerivationOutputView) -> Seq<u8> {
    |o: DerivationOutputView| enc_drv_output(o)
}

pub open spec fn out_dec() -> spec_fn(Seq<u8>) -> Option<(DerivationOutputView, int)> {
    |b: Seq<u8>| dec_drv_output(b)
}

/// The wire form of the declared outputs: count, then elements.
pub open spec fn enc_drv_output_seq(os: Seq<DerivationOutputView>) -> Seq<u8> {
    enc_u64(os.len() as u64) + concat_enc(os, out_enc())
}

/// Reading the declared outputs off the front of a stream.
pub open spec fn dec_drv_output_seq(b: Seq<u8>) -> Option<(Seq<DerivationOutputView>, int)> {
    match dec_u64(b) {
        Some((c, _)) => match dec_n(b.skip(8), c as nat, out_dec()) {
            Some((vs, m)) => Some((vs, 8 + m)),
            None => None,
        },
        None => None,
    }
}

/// `dec_drv_output` consumes a positive number of the bytes it was
/// given.
pub proof fn lemma_out_dec_consumes()
    ensures
        dec_consumes(out_dec()),
{
    lemma_str_dec_consumes();
    assert forall|b: Seq<u8>| (#[trigger] out_dec()(b)) is Some implies 0 < out_dec()(
        b,
    )->Some_0.1 <= b.len() by {
        let (name, n1) = dec_str(b)->Some_0;
        assert(str_dec()(b) == dec_str(b));
        let (path_s, n2) = dec_str(b.skip(n1))->Some_0;
        assert(str_dec()(b.skip(n1)) == dec_str(b.skip(n1)));
        let (hash_algo, n3) = dec_str(b.skip(n1 + n2))->Some_0;
        assert(str_dec()(b.skip(n1 + n2)) == dec_str(b.skip(n1 + n2)));
        let (hash, n4) = dec_str(b.skip(n1 + n2 + n3))->Some_0;
        assert(str_dec()(b.skip(n1 + n2 + n3)) == dec_str(b.skip(n1 + n2 + n3)));
    }
}

/// Every string of the output fits a `u64` length when encoded.
pub open spec fn drv_output_encodable(o: DerivationOutputView) -> bool {
    &&& str_encodable(o.name)
    &&& str_encodable(o.path_s)
    &&& str_encodable(o.hash_algo)
    &&& str_encodable(o.hash)
}

/// Decoding an encoded declared output gives it back, whatever
/// follows.
pub proof fn lemma_dec_enc_drv_output(o: DerivationOutputView, rest: Seq<u8>)
    requires
        drv_output_encodable(o),
    ensures
        dec_drv_output(enc_drv_output(o) + rest) == Some((o, enc_drv_output(o).len() as int)),
{
    let e1 = enc_str(o.name);
    let e2 = enc_str(o.path_s);
    let e3 = enc_str(o.hash_algo);
    let e4 = enc_str(o.hash);
    let whole = enc_drv_output(o) + rest;
    let t4 = e4 + rest;
    let t3 = e3 + t4;
    let t2 = e2 + t3;
    let t1 = e1 + t2;
    assert(whole =~= t1);
    lemma_dec_enc_str(o.name, t2);
    assert(t1.skip(e1.len() as int) =~= t2);
    lemma_dec_enc_str(o.path_s, t3);
    assert(t1.skip((e1.len() + e2.len()) as int) =~= t3);
    lemma_dec_enc_str(o.hash_algo, t4);
    assert(t1.skip((e1.len() + e2.len() + e3.len()) as int) =~= t4);
    lemma_dec_enc_str(o.hash, rest);
}

/// Decoding an encoded run of declared outputs gives them back,
/// whatever follows.
pub proof fn lemma_dec_enc_drv_output_seq(os: Seq<DerivationOutputView>, rest: Seq<u8>)
    requires
        os.len() <= u64::MAX,
        forall|i: int| 0 <= i < os.len() ==> drv_output_encodable(#[trigger] os[i]),
    ensures
        dec_drv_output_seq(enc_drv_output_seq(os) + rest) == Some(
            (os, enc_drv_output_seq(os).len() as int),
        ),
{
    vstd::bytes::lemma_auto_spec_u64_to_from_le_bytes();
    let body = concat_enc(os, out_enc());
    let whole = enc_drv_output_seq(os) + rest;
    lemma_dec_enc_u64(os.len() as u64, body + rest);
    assert(whole =~= enc_u64(os.len() as u64) + (body + rest));
    assert(whole.skip(8) =~= body + rest);
    assert forall|i: int, r: Seq<u8>| 0 <= i < os.len() implies #[trigger] out_dec()(
        out_enc()(os[i]) + r,
    ) == Some((os[i], out_enc()(os[i]).len() as int)) by {
        lemma_dec_enc_drv_output(os[i], r);
    }
    lemma_dec_enc_list(os, rest, out_enc(), out_dec());
}

/// The streams that `enc_drv_output` can produce: four well-formed
/// strings in a row, taken two at a time.
pub open spec fn wf_drv_output_at(b: Seq<u8>) -> bool {
    &&& wf_str_pair_at(b)
    &&& match dec_str_pair(b) {
        Some((_, n)) => wf_str_pair_at(b.skip(n)),
        None => true,
    }
}

/// Re-encoding a decoded declared output rebuilds exactly the bytes
/// read, on a well-formed stream: the record round trip, stated for
/// one record of the schema.
#[verifier::rlimit(100)]
#[verifier::spinoff_prover]
pub proof fn lemma_enc_dec_drv_output(b: Seq<u8>)
    requires
        wf_drv_output_at(b),
    ensures
        dec_drv_output(b) is Some,
        enc_drv_output(dec_drv_output(b)->Some_0.0) == b.take(dec_drv_output(b)->Some_0.1),
{
    lemma_enc_dec_str_pair(b);
    let ((name, path_s), n) = dec_str_pair(b)->Some_0;
    let n1 = dec_str(b)->Some_0.1;
    let n2 = dec_str(b.skip(n1))->Some_0.1;
    assert(0 < n1 <= b.len() && 0 < n2 <= b.skip(n1).len());
    lemma_enc_dec_str_pair(b.skip(n));
    let ((hash_algo, hash), m) = dec_str_pair(b.skip(n))->Some_0;
    let n3 = dec_str(b.skip(n))->Some_0.1;
    assert(0 < n3 <= b.skip(n).len());
    assert(b.skip(n1).skip(n2) =~= b.skip(n));
    assert(b.skip(n).skip(n3) =~= b.skip(n + n3));
    assert(dec_drv_output(b) == Some(
        (DerivationOutputView { name, path_s, hash_algo, hash }, n + m),
    ));
    assert(enc_drv_output(DerivationOutputView { name, path_s, hash_algo, hash })
        =~= enc_str_pair((name, path_s)) + enc_str_pair((hash_algo, hash)));
    assert(b.take(n) + b.skip(n).take(m) =~= b.take(n + m));
}

impl DerivationOutput {
    /// Reads one declared output off the decoder.
    pub fn decode(de: &mut Deserializer) -> (r: Result<Self, Error>)
        requires
            old(de).wf(),
        ensures
            final(de).wf(),
            final(de).data == old(de).data,
            match r {
                Ok(v) => {
                    &&& dec_drv_output(old(de).rest()) == Some((v@, final(de).pos - old(de).pos))
                    &&& final(de).pos >= old(de).pos
                },
                Err(e) => {
                    &&& dec_drv_output(old(de).rest()) is None
                    &&& *final(de) == *old(de)
                    &&& (e == Error::EndOfStream || e == Error::Truncated || e == Error::Encoding)
                },
            },
    {
        let ghost b = de.rest();
        let start = de.pos;
        let name = match de.parse_string() {
            Ok(v) => v,
            Err(e) => {
                de.pos = start;
                return Err(e);
            },
        };
        let ghost n1 = de.pos - start;
        proof {
            assert(de.rest() =~= b.skip(n1 as int));
        }
        let path_s = match de.parse_string() {
            Ok(v) => v,
            Err(e) => {
                de.pos = start;
                return Err(e);
            },
        };
        let ghost n2 = de.pos - start - n1;
        proof {
            assert(de.rest() =~= b.skip(n1 + n2));
        }
        let hash_algo = match de.parse_string() {
            Ok(v) => v,
            Err(e) => {
                de.pos = start;
                return Err(e);
            },
        };
        let ghost n3 = de.pos - start - n1 - n2;
        proof {
            assert(de.rest() =~= b.skip(n1 + n2 + n3));
        }
        let hash = match de.parse_string() {
            Ok(v) => v,
            Err(e) => {
                de.pos = start;
                return Err(e);
            },
        };
        Ok(DerivationOutput { name, path_s, hash_algo, hash })
    }

    /// Reads the declared-output run off the decoder: a count, then
    /// that many outputs.
    #[verifier::rlimit(100)]
    pub fn decode_seq(de: &mut Deserializer) -> (r: Result<Vec<DerivationOutput>, Error>)
        requires
            old(de).wf(),
        ensures
            final(de).wf(),
            final(de).data == old(de).data,
            match r {
                Ok(v) => {
                    &&& dec_drv_output_seq(old(de).rest()) == Some(
                        (outputs_view(v@), final(de).pos - old(de).pos),
                    )
                    &&& final(de).pos >= old(de).pos
                },
                Err(e) => {
                    &&& dec_drv_output_seq(old(de).rest()) is None
                    &&& *final(de) == *old(de)
                    &&& (e == Error::EndOfStream || e == Error::Truncated || e == Error::Encoding)
                },
            },
    {
        let ghost rest0 = de.rest();
        let start = de.pos;
        let count = match de.parse_u64() {
            Ok(v) => v,
            Err(e) => {
                de.pos = start;
                return Err(e);
            },
        };
        let ghost b = rest0.skip(8);
        proof {
            lemma_out_dec_consumes();
            assert(de.rest() =~= b);
            assert(b.skip(0) == b);
        }
        let mut out: Vec<DerivationOutput> = Vec::new();
        proof {
            assert(outputs_view(out@) =~= Seq::<DerivationOutputView>::empty());
        }
        let mut i: u64 = 0;
        while i < count
            invariant
                de.wf(),
                de.data == old(de).data,
                i <= count,
                out.len() == i,
                start + 8 <= de.pos <= de.data@.len(),
                rest0 == old(de).rest(),
                b == rest0.skip(8),
                old(de).pos == start,
                dec_u64(rest0) == Some((count, 8int)),
                dec_n(b, i as nat, out_dec()) == Some((outputs_view(out@), de.pos - start - 8)),
                de.rest() == b.skip(de.pos - start - 8),
            decreases count - i,
        {
            let ghost m = de.pos - start - 8;
            let ghost out0 = outputs_view(out@);
            let r = DerivationOutput::decode(de);
            match r {
                Ok(o) => {
                    proof {
                        assert(out_dec()(b.skip(m)) == dec_drv_output(b.skip(m)));
                        lemma_dec_n_snoc(b, i as nat, out_dec());
                    }
                    out.push(o);
                    proof {
                        assert(outputs_view(out@) =~= out0.push(o@));
                        let k = dec_drv_output(b.skip(m))->Some_0.1;
                        assert(b.skip(m).skip(k) =~= b.skip(m + k));
                        assert(de.rest() =~= b.skip(de.pos - start - 8));
                    }
                },
                Err(e) => {
                    proof {
                        assert(out_dec()(b.skip(m)) == dec_drv_output(b.skip(m)));
                        lemma_dec_n_stuck(b, i as nat, count as nat, out_dec());
                    }
                    de.pos = start;
                    return Err(e);
                },
            }
            i = i + 1;
        }
        Ok(out)
    }
}

/// The wire form of the first half of a recipe: name and outputs.
pub open spec fn enc_derivation_head(d: BasicDerivationView) -> Seq<u8> {
    enc_str(d.name) + enc_drv_output_seq(d.outputs)
}

/// The wire form of the second half: sources, platform, builder,
/// arguments, environment.
pub open spec fn enc_derivation_tail(d: BasicDerivationView) -> Seq<u8> {
    enc_str_seq(d.input_srcs) + enc_str(d.platform) + enc_str(d.builder) + enc_str_seq(d.args)
        + enc_str_pair_seq(d.env)
}

/// The wire form of a recipe: its fields in declaration order.
pub open spec fn enc_basic_derivation(d: BasicDerivationView) -> Seq<u8> {
    enc_derivation_head(d) + enc_derivation_tail(d)
}

/// Reading the first half of a recipe.
pub open spec fn dec_derivation_head(b: Seq<u8>) -> Option<
    ((Seq<char>, Seq<DerivationOutputView>), int),
> {
    match dec_str(b) {
        Some((name, n1)) => match dec_drv_output_seq(b.skip(n1)) {
            Some((outputs, n2)) => Some(((name, outputs), n1 + n2)),
            None => None,
        },
        None => None,
    }
}

/// Reading the second half of a recipe.
pub open spec fn dec_derivation_tail(b: Seq<u8>) -> Option<
    ((Seq<Seq<char>>, Seq<char>, Seq<char>, Seq<Seq<char>>, Seq<(Seq<char>, Seq<char>)>), int),
> {
    match dec_str_seq(b) {
        Some((input_srcs, n1)) => match dec_str(b.skip(n1)) {
            Some((platform, n2)) => match dec_str(b.skip(n1 + n2)) {
                Some((builder, n3)) => match dec_str_seq(b.skip(n1 + n2 + n3)) {
                    Some((args, n4)) => match dec_str_pair_seq(b.skip(n1 + n2 + n3 + n4)) {
                        Some((env, n5)) => Some(
                            ((input_srcs, platform, builder, args, env), n1 + n2 + n3 + n4 + n5),
                        ),
                        None => None,
                    },
                    None => None,
                },
                None => None,
            },
            None => None,
        },
        None => None,
    }
}

/// Reading a whole recipe off the front of a stream.
pub open spec fn dec_basic_derivation(b: Seq<u8>) -> Option<(BasicDerivationView, int)> {
    match dec_derivation_head(b) {
        Some(((name, outputs), n)) => match dec_derivation_tail(b.skip(n)) {
            Some(((input_srcs, platform, builder, args, env), m)) => Some(
                (
                    BasicDerivationView { name, outputs, input_srcs, platform, builder, args, env },
                    n + m,
                ),
            ),
            None => None,
        },
        None => None,
    }
}

/// Every string of the recipe fits a `u64` length when encoded.
pub open spec fn basic_derivation_encodable(d: BasicDerivationView) -> bool {
    &&& str_encodable(d.name)
    &&& d.outputs.len() <= u64::MAX
    &&& forall|i: int| 0 <= i < d.outputs.len() ==> drv_output_encodable(#[trigger] d.outputs[i])
    &&& d.input_srcs.len() <= u64::MAX
    &&& forall|i: int| 0 <= i < d.input_srcs.len() ==> str_encodable(#[trigger] d.input_srcs[i])
    &&& str_encodable(d.platform)
    &&& str_encodable(d.builder)
    &&& d.args.len() <= u64::MAX
    &&& forall|i: int| 0 <= i < d.args.len() ==> str_encodable(#[trigger] d.args[i])
    &&& d.env.len() <= u64::MAX
    &&& forall|i: int|
        0 <= i < d.env.len() ==> str_encodable((#[trigger] d.env[i]).0) && str_encodable(d.env[i].1)
}

/// Decoding the encoded first half gives its fields back, whatever
/// follows.
pub proof fn lemma_dec_enc_derivation_head(d: BasicDerivationView, rest: Seq<u8>)
    requires
        basic_derivation_encodable(d),
    ensures
        dec_derivation_head(enc_derivation_head(d) + rest) == Some(
            ((d.name, d.outputs), enc_derivation_head(d).len() as int),
        ),
{
    let e1 = enc_str(d.name);
    let e2 = enc_drv_output_seq(d.outputs);
    let whole = enc_derivation_head(d) + rest;
    assert(whole =~= e1 + (e2 + rest));
    lemma_dec_enc_str(d.name, e2 + rest);
    assert(whole.skip(e1.len() as int) =~= e2 + rest);
    lemma_dec_enc_drv_output_seq(d.outputs, rest);
}

/// Decoding the encoded second half gives its fields back, whatever
/// follows.
#[verifier::rlimit(100)]
pub proof fn lemma_dec_enc_derivation_tail(d: BasicDerivationView, rest: Seq<u8>)
    requires
        basic_derivation_encodable(d),
    ensures
        dec_derivation_tail(enc_derivation_tail(d) + rest) == Some(
            (
                (d.input_srcs, d.platform, d.builder, d.args, d.env),
                enc_derivation_tail(d).len() as int,
            ),
        ),
{
    let e1 = enc_str_seq(d.input_srcs);
    let e2 = enc_str(d.platform);
    let e3 = enc_str(d.builder);
    let e4 = enc_str_seq(d.args);
    let e5 = enc_str_pair_seq(d.env);
    let whole = enc_derivation_tail(d) + rest;
    let t5 = e5 + rest;
    let t4 = e4 + t5;
    let t3 = e3 + t4;
    let t2 = e2 + t3;
    let t1 = e1 + t2;
    assert(whole =~= t1);
    lemma_dec_enc_str_seq(d.input_srcs, t2);
    assert(t1.skip(e1.len() as int) =~= t2);
    lemma_dec_enc_str(d.platform, t3);
    assert(t1.skip((e1.len() + e2.len()) as int) =~= t3);
    lemma_dec_enc_str(d.builder, t4);
    assert(t1.skip((e1.len() + e2.len() + e3.len()) as int) =~= t4);
    lemma_dec_enc_str_seq(d.args, t5);
    assert(t1.skip((e1.len() + e2.len() + e3.len() + e4.len()) as int) =~= t5);
    lemma_dec_enc_str_pair_seq(d.env, rest);
}

/// Decoding an encoded recipe gives it back, whatever follows.
pub proof fn lemma_dec_enc_basic_derivation(d: BasicDerivationView, rest: Seq<u8>)
    requires
        basic_derivation_encodable(d),
    ensures
        dec_basic_derivation(enc_basic_derivation(d) + rest) == Some(
            (d, enc_basic_derivation(d).len() as int),
        ),
{
    let eh = enc_derivation_head(d);
    let et = enc_derivation_tail(d);
    let whole = enc_basic_derivation(d) + rest;
    assert(whole =~= eh + (et + rest));
    lemma_dec_enc_derivation_head(d, et + rest);
    assert(whole.skip(eh.len() as int) =~= et + rest);
    lemma_dec_enc_derivation_tail(d, rest);
}

impl BasicDerivation {
    /// Reads the second half of a recipe off the decoder.
    #[verifier::rlimit(100)]
    fn decode_tail(de: &mut Deserializer) -> (r: Result<
        (Vec<String>, String, String, Vec<String>, Vec<(String, String)>),
        Error,
    >)
        requires
            old(de).wf(),
        ensures
            final(de).wf(),
            final(de).data == old(de).data,
            match r {
                Ok(v) => {
                    &&& dec_derivation_tail(old(de).rest()) == Some(
                        (
                            (v.0.deep_view(), v.1@, v.2@, v.3.deep_view(), v.4.deep_view()),
                            final(de).pos - old(de).pos,
                        ),
                    )
                    &&& final(de).pos >= old(de).pos
                },
                Err(e) => {
                    &&& dec_derivation_tail(old(de).rest()) is None
                    &&& *final(de) == *old(de)
                    &&& (e == Error::EndOfStream || e == Error::Truncated || e == Error::Encoding)
                },
            },
    {
        let ghost b = de.rest();
        let start = de.pos;
        let input_srcs = match de.parse_string_seq() {
            Ok(v) => v,
            Err(e) => {
                de.pos = start;
                return Err(e);
            },
        };
        let ghost n1 = de.pos - start;
        proof {
            assert(de.rest() =~= b.skip(n1 as int));
        }
        let platform = match de.parse_string() {
            Ok(v) => v,
            Err(e) => {
                de.pos = start;
                return Err(e);
            },
        };
        let ghost n2 = de.pos - start - n1;
        proof {
            assert(de.rest() =~= b.skip(n1 + n2));
        }
        let builder = match de.parse_string() {
            Ok(v) => v,
            Err(e) => {
                de.pos = start;
                return Err(e);
            },
        };
        let ghost n3 = de.pos - start - n1 - n2;
        proof {
            assert(de.rest() =~= b.skip(n1 + n2 + n3));
        }
        let args = match de.parse_string_seq() {
            Ok(v) => v,
            Err(e) => {
                de.pos = start;
                return Err(e);
            },
        };
        let ghost n4 = de.pos - start - n1 - n2 - n3;
        proof {
            assert(de.rest() =~= b.skip(n1 + n2 + n3 + n4));
        }
        let env = match de.parse_string_pair_seq() {
            Ok(v) => v,
            Err(e) => {
                de.pos = start;
                return Err(e);
            },
        };
        Ok((input_srcs, platform, builder, args, env))
    }

    /// Reads the first half of a recipe off the decoder.
    #[verifier::rlimit(100)]
    fn decode_head(de: &mut Deserializer) -> (r: Result<(String, Vec<DerivationOutput>), Error>)
        requires
            old(de).wf(),
        ensures
            final(de).wf(),
            final(de).data == old(de).data,
            match r {
                Ok(v) => {
                    &&& dec_derivation_head(old(de).rest()) == Some(
                        ((v.0@, outputs_view(v.1@)), final(de).pos - old(de).pos),
                    )
                    &&& final(de).pos >= old(de).pos
                },
                Err(e) => {
                    &&& dec_derivation_head(old(de).rest()) is None
                    &&& *final(de) == *old(de)
                    &&& (e == Error::EndOfStream || e == Error::Truncated || e == Error::Encoding)
                },
            },
    {
        let ghost b = de.rest();
        let start = de.pos;
        let name = match de.parse_string() {
            Ok(v) => v,
            Err(e) => {
                de.pos = start;
                return Err(e);
            },
        };
        let ghost n1 = de.pos - start;
        proof {
            assert(de.rest() =~= b.skip(n1 as int));
        }
        let outputs = match DerivationOutput::decode_seq(de) {
            Ok(v) => v,
            Err(e) => {
                de.pos = start;
                return Err(e);
            },
        };
        Ok((name, outputs))
    }

    /// Reads a whole recipe off the decoder.
    #[verifier::rlimit(100)]
    pub fn decode(de: &mut Deserializer) -> (r: Result<Self, Error>)
        requires
            old(de).wf(),
        ensures
            final(de).wf(),
            final(de).data == old(de).data,
            match r {
                Ok(v) => {
                    &&& dec_basic_derivation(old(de).rest()) == Some(
                        (v@, final(de).pos - old(de).pos),
                    )
                    &&& final(de).pos >= old(de).pos
                },
                Err(e) => {
                    &&& dec_basic_derivation(old(de).rest()) is None
                    &&& *final(de) == *old(de)
                    &&& (e == Error::EndOfStream || e == Error::Truncated || e == Error::Encoding)
                },
            },
    {
        let ghost b = de.rest();
        let start = de.pos;
        let head = match Self::decode_head(de) {
            Ok(v) => v,
            Err(e) => {
                de.pos = start;
                return Err(e);
            },
        };
        let ghost n = de.pos - start;
        proof {
            assert(de.rest() =~= b.skip(n as int));
        }
        let tail = match Self::decode_tail(de) {
            Ok(v) => v,
            Err(e) => {
                de.pos = start;
                return Err(e);
            },
        };
        let (name, outputs) = head;
        let (input_srcs, platform, builder, args, env) = tail;
        Ok(BasicDerivation { name, outputs, input_srcs, platform, builder, args, env })
    }
}


/// The configuration record a client pushes once per connection.
/// Several fields are obsolete on the wire and kept only so the
/// record keeps its shape; the build consults `build_cores`.
#[derive(Clone, Debug, PartialEq)]
pub struct ClientSettings {
    pub keep_failed: bool,
    pub keep_going: bool,
    pub try_fallback: bool,
    pub verbosity: u64,
    pub max_build_jobs: u64,
    pub max_silent_time: u64,
    pub use_build_hook: u64,
    pub verbose_build: u64,
    pub log_type: u64,
    pub print_build_trace: u64,
    pub build_cores: u64,
    pub use_subsitutes: bool,
    pub overrides: Vec<(String, String)>,
}

/// The view of a [`ClientSettings`].
pub struct ClientSettingsView {
    pub keep_failed: bool,
    pub keep_going: bool,
    pub try_fallback: bool,
    pub verbosity: u64,
    pub max_build_jobs: u64,
    pub max_silent_time: u64,
    pub use_build_hook: u64,
    pub verbose_build: u64,
    pub log_type: u64,
    pub print_build_trace: u64,
    pub build_cores: u64,
    pub use_subsitutes: bool,
    pub overrides: Seq<(Seq<char>, Seq<char>)>,
}

impl View for ClientSettings {
    type V = ClientSettingsView;

    open spec fn view(&self) -> ClientSettingsView {
        ClientSettingsView {
            keep_failed: self.keep_failed,
            keep_going: self.keep_going,
            try_fallback: self.try_fallback,
            verbosity: self.verbosity,
            max_build_jobs: self.max_build_jobs,
            max_silent_time: self.max_silent_time,
            use_build_hook: self.use_build_hook,
            verbose_build: self.verbose_build,
            log_type: self.log_type,
            print_build_trace: self.print_build_trace,
            build_cores: self.build_cores,
            use_subsitutes: self.use_subsitutes,
            overrides: self.overrides.deep_view(),
        }
    }
}

impl ClientSettings {
    /// A fresh connection's settings, before the client pushed any.
    pub fn initial() -> (r: Self)
        ensures
            r@.keep_failed == false,
            r@.keep_going == false,
            r@.try_fallback == false,
            r@.verbosity == 0,
            r@.max_build_jobs == 0,
            r@.max_silent_time == 0,
            r@.build_cores == 0,
            r@.use_subsitutes == false,
            r@.overrides =~= Seq::<(Seq<char>, Seq<char>)>::empty(),
    {
        ClientSettings {
            keep_failed: false,
            keep_going: false,
            try_fallback: false,
            verbosity: 0,
            max_build_jobs: 0,
            max_silent_time: 0,
            use_build_hook: 0,
            verbose_build: 0,
            log_type: 0,
            print_build_trace: 0,
            build_cores: 0,
            use_subsitutes: false,
            overrides: Vec::new(),
        }
    }
}

/// The wire form of the first third of the settings: the three leading
/// flags and three numeric knobs.
pub open spec fn enc_settings_head(v: ClientSettingsView) -> Seq<u8> {
    enc_bool(v.keep_failed) + enc_bool(v.keep_going) + enc_bool(v.try_fallback) + enc_u64(
        v.verbosity,
    ) + enc_u64(v.max_build_jobs) + enc_u64(v.max_silent_time)
}

/// The wire form of the middle third: five numeric fields, obsolete
/// ones included.
pub open spec fn enc_settings_mid(v: ClientSettingsView) -> Seq<u8> {
    enc_u64(v.use_build_hook) + enc_u64(v.verbose_build) + enc_u64(v.log_type) + enc_u64(
        v.print_build_trace,
    ) + enc_u64(v.build_cores)
}

/// The wire form of the last third: the substitutes flag and the
/// override pairs.
pub open spec fn enc_settings_tail(v: ClientSettingsView) -> Seq<u8> {
    enc_bool(v.use_subsitutes) + enc_str_pair_seq(v.overrides)
}

/// The wire form of the settings record: its fields in declaration
/// order.
pub open spec fn enc_client_settings(v: ClientSettingsView) -> Seq<u8> {
    enc_settings_head(v) + enc_settings_mid(v) + enc_settings_tail(v)
}

/// Reading the first third of the settings.
pub open spec fn dec_settings_head(b: Seq<u8>) -> Option<((bool, bool, bool, u64, u64, u64), int)> {
    if b.len() >= 48 {
        match (dec_bool(b), dec_bool(b.skip(8)), dec_bool(b.skip(16)), dec_u64(b.skip(24)), dec_u64(
            b.skip(32),
        ), dec_u64(b.skip(40))) {
            (Some((f1, _)), Some((f2, _)), Some((f3, _)), Some((k1, _)), Some((k2, _)), Some(
                (k3, _),
            )) => Some(((f1, f2, f3, k1, k2, k3), 48int)),
            _ => None,
        }
    } else {
        None
    }
}

/// Reading the middle third of the settings.
pub open spec fn dec_settings_mid(b: Seq<u8>) -> Option<((u64, u64, u64, u64, u64), int)> {
    if b.len() >= 40 {
        match (dec_u64(b), dec_u64(b.skip(8)), dec_u64(b.skip(16)), dec_u64(b.skip(24)), dec_u64(
            b.skip(32),
        )) {
            (Some((k1, _)), Some((k2, _)), Some((k3, _)), Some((k4, _)), Some((k5, _))) => Some(
                ((k1, k2, k3, k4, k5), 40int),
            ),
            _ => None,
        }
    } else {
        None
    }
}

/// Reading the last third of the settings.
pub open spec fn dec_settings_tail(b: Seq<u8>) -> Option<
    ((bool, Seq<(Seq<char>, Seq<char>)>), int),
> {
    match dec_bool(b) {
        Some((flag, n1)) => match dec_str_pair_seq(b.skip(n1)) {
            Some((overrides, n2)) => Some(((flag, overrides), n1 + n2)),
            None => None,
        },
        None => None,
    }
}

/// Reading the settings record off the front of a stream.
pub open spec fn dec_client_settings(b: Seq<u8>) -> Option<(ClientSettingsView, int)> {
    match dec_settings_head(b) {
        Some(((keep_failed, keep_going, try_fallback, verbosity, max_build_jobs, max_silent_time),
            n1)) => match dec_settings_mid(b.skip(n1)) {
            Some(((use_build_hook, verbose_build, log_type, print_build_trace, build_cores), n2)) =>
                match dec_settings_tail(b.skip(n1 + n2)) {
                Some(((use_subsitutes, overrides), n3)) => Some(
                    (
                        ClientSettingsView {
                            keep_failed,
                            keep_going,
                            try_fallback,
                            verbosity,
                            max_build_jobs,
                            max_silent_time,
                            use_build_hook,
                            verbose_build,
                            log_type,
                            print_build_trace,
                            build_cores,
                            use_subsitutes,
                            overrides,
                        },
                        n1 + n2 + n3,
                    ),
                ),
                None => None,
            },
            None => None,
        },
        None => None,
    }
}

/// Every override string fits a `u64` length when encoded.
pub open spec fn client_settings_encodable(v: ClientSettingsView) -> bool {
    &&& v.overrides.len() <= u64::MAX
    &&& forall|i: int|
        0 <= i < v.overrides.len() ==> str_encodable((#[trigger] v.overrides[i]).0)
            && str_encodable(v.overrides[i].1)
}

/// Decoding the encoded first third gives its fields back, whatever
/// follows.
#[verifier::rlimit(100)]
pub proof fn lemma_dec_enc_settings_head(v: ClientSettingsView, rest: Seq<u8>)
    ensures
        dec_settings_head(enc_settings_head(v) + rest) == Some(
            (
                (
                    v.keep_failed,
                    v.keep_going,
                    v.try_fallback,
                    v.verbosity,
                    v.max_build_jobs,
                    v.max_silent_time,
                ),
                48int,
            ),
        ),
        enc_settings_head(v).len() == 48,
{
    vstd::bytes::lemma_auto_spec_u64_to_from_le_bytes();
    let e1 = enc_bool(v.keep_failed);
    let e2 = enc_bool(v.keep_going);
    let e3 = enc_bool(v.try_fallback);
    let e4 = enc_u64(v.verbosity);
    let e5 = enc_u64(v.max_build_jobs);
    let e6 = enc_u64(v.max_silent_time);
    let whole = enc_settings_head(v) + rest;
    let t6 = e6 + rest;
    let t5 = e5 + t6;
    let t4 = e4 + t5;
    let t3 = e3 + t4;
    let t2 = e2 + t3;
    let t1 = e1 + t2;
    assert(whole =~= t1);
    lemma_dec_enc_bool(v.keep_failed, t2);
    assert(t1.skip(8) =~= t2);
    lemma_dec_enc_bool(v.keep_going, t3);
    assert(t1.skip(16) =~= t3);
    lemma_dec_enc_bool(v.try_fallback, t4);
    assert(t1.skip(24) =~= t4);
    lemma_dec_enc_u64(v.verbosity, t5);
    assert(t1.skip(32) =~= t5);
    lemma_dec_enc_u64(v.max_build_jobs, t6);
    assert(t1.skip(40) =~= t6);
    lemma_dec_enc_u64(v.max_silent_time, rest);
}

/// Decoding the encoded middle third gives its fields back, whatever
/// follows.
#[verifier::rlimit(100)]
pub proof fn lemma_dec_enc_settings_mid(v: ClientSettingsView, rest: Seq<u8>)
    ensures
        dec_settings_mid(enc_settings_mid(v) + rest) == Some(
            (
                (v.use_build_hook, v.verbose_build, v.log_type, v.print_build_trace, v.build_cores),
                40int,
            ),
        ),
        enc_settings_mid(v).len() == 40,
{
    vstd::bytes::lemma_auto_spec_u64_to_from_le_bytes();
    let e1 = enc_u64(v.use_build_hook);
    let e2 = enc_u64(v.verbose_build);
    let e3 = enc_u64(v.log_type);
    let e4 = enc_u64(v.print_build_trace);
    let e5 = enc_u64(v.build_cores);
    let whole = enc_settings_mid(v) + rest;
    let t5 = e5 + rest;
    let t4 = e4 + t5;
    let t3 = e3 + t4;
    let t2 = e2 + t3;
    let t1 = e1 + t2;
    assert(whole =~= t1);
    lemma_dec_enc_u64(v.use_build_hook, t2);
    assert(t1.skip(8) =~= t2);
    lemma_dec_enc_u64(v.verbose_build, t3);
    assert(t1.skip(16) =~= t3);
    lemma_dec_enc_u64(v.log_type, t4);
    assert(t1.skip(24) =~= t4);
    lemma_dec_enc_u64(v.print_build_trace, t5);
    assert(t1.skip(32) =~= t5);
    lemma_dec_enc_u64(v.build_cores, rest);
}

/// Decoding the encoded last third gives its fields back, whatever
/// follows.
pub proof fn lemma_dec_enc_settings_tail(v: ClientSettingsView, rest: Seq<u8>)
    requires
        client_settings_encodable(v),
    ensures
        dec_settings_tail(enc_settings_tail(v) + rest) == Some(
            ((v.use_subsitutes, v.overrides), enc_settings_tail(v).len() as int),
        ),
{
    vstd::bytes::lemma_auto_spec_u64_to_from_le_bytes();
    let e1 = enc_bool(v.use_subsitutes);
    let e2 = enc_str_pair_seq(v.overrides);
    let whole = enc_settings_tail(v) + rest;
    assert(whole =~= e1 + (e2 + rest));
    lemma_dec_enc_bool(v.use_subsitutes, e2 + rest);
    assert(whole.skip(8) =~= e2 + rest);
    lemma_dec_enc_str_pair_seq(v.overrides, rest);
}

/// Decoding an encoded settings record gives it back, whatever
/// follows.
pub proof fn lemma_dec_enc_client_settings(v: ClientSettingsView, rest: Seq<u8>)
    requires
        client_settings_encodable(v),
    ensures
        dec_client_settings(enc_client_settings(v) + rest) == Some(
            (v, enc_client_settings(v).len() as int),
        ),
{
    let eh = enc_settings_head(v);
    let em = enc_settings_mid(v);
    let et = enc_settings_tail(v);
    let whole = enc_client_settings(v) + rest;
    assert(whole =~= eh + (em + (et + rest)));
    lemma_dec_enc_settings_head(v, em + (et + rest));
    assert(whole.skip(48) =~= em + (et + rest));
    lemma_dec_enc_settings_mid(v, et + rest);
    assert(whole.skip(88) =~= et + rest);
    lemma_dec_enc_settings_tail(v, rest);
}

impl ClientSettings {
    /// Reads the first third of the record off the decoder.
    #[verifier::rlimit(100)]
    fn decode_head(de: &mut Deserializer) -> (r: Result<(bool, bool, bool, u64, u64, u64), Error>)
        requires
            old(de).wf(),
        ensures
            final(de).wf(),
            final(de).data == old(de).data,
            match r {
                Ok(v) => {
                    &&& dec_settings_head(old(de).rest()) == Some(
                        (v, final(de).pos - old(de).pos),
                    )
                    &&& final(de).pos >= old(de).pos
                },
                Err(e) => {
                    &&& dec_settings_head(old(de).rest()) is None
                    &&& *final(de) == *old(de)
                    &&& (e == Error::EndOfStream || e == Error::Truncated)
                },
            },
    {
        let ghost b = de.rest();
        let start = de.pos;
        let rem = de.remaining();
        if rem < 48 {
            return Err(
                if rem == 0 {
                    Error::EndOfStream
                } else {
                    Error::Truncated
                },
            );
        }
        let f1 = match de.parse_bool() {
            Ok(v) => v,
            Err(_) => {
                de.pos = start;
                return Err(Error::Truncated);
            },
        };
        proof {
            assert(de.rest() =~= b.skip(8));
        }
        let f2 = match de.parse_bool() {
            Ok(v) => v,
            Err(_) => {
                de.pos = start;
                return Err(Error::Truncated);
            },
        };
        proof {
            assert(de.rest() =~= b.skip(16));
        }
        let f3 = match de.parse_bool() {
            Ok(v) => v,
            Err(_) => {
                de.pos = start;
                return Err(Error::Truncated);
            },
        };
        proof {
            assert(de.rest() =~= b.skip(24));
        }
        let k1 = match de.parse_u64() {
            Ok(v) => v,
            Err(_) => {
                de.pos = start;
                return Err(Error::Truncated);
            },
        };
        proof {
            assert(de.rest() =~= b.skip(32));
        }
        let k2 = match de.parse_u64() {
            Ok(v) => v,
            Err(_) => {
                de.pos = start;
                return Err(Error::Truncated);
            },
        };
        proof {
            assert(de.rest() =~= b.skip(40));
        }
        let k3 = match de.parse_u64() {
            Ok(v) => v,
            Err(_) => {
                de.pos = start;
                return Err(Error::Truncated);
            },
        };
        Ok((f1, f2, f3, k1, k2, k3))
    }

    /// Reads the middle third of the record off the decoder.
    #[verifier::rlimit(100)]
    fn decode_mid(de: &mut Deserializer) -> (r: Result<(u64, u64, u64, u64, u64), Error>)
        requires
            old(de).wf(),
        ensures
            final(de).wf(),
            final(de).data == old(de).data,
            match r {
                Ok(v) => {
                    &&& dec_settings_mid(old(de).rest()) == Some((v, final(de).pos - old(de).pos))
                    &&& final(de).pos >= old(de).pos
                },
                Err(e) => {
                    &&& dec_settings_mid(old(de).rest()) is None
                    &&& *final(de) == *old(de)
                    &&& (e == Error::EndOfStream || e == Error::Truncated)
                },
            },
    {
        let ghost b = de.rest();
        let start = de.pos;
        let rem = de.remaining();
        if rem < 40 {
            return Err(
                if rem == 0 {
                    Error::EndOfStream
                } else {
                    Error::Truncated
                },
            );
        }
        let k1 = match de.parse_u64() {
            Ok(v) => v,
            Err(_) => {
                de.pos = start;
                return Err(Error::Truncated);
            },
        };
        proof {
            assert(de.rest() =~= b.skip(8));
        }
        let k2 = match de.parse_u64() {
            Ok(v) => v,
            Err(_) => {
                de.pos = start;
                return Err(Error::Truncated);
            },
        };
        proof {
            assert(de.rest() =~= b.skip(16));
        }
        let k3 = match de.parse_u64() {
            Ok(v) => v,
            Err(_) => {
                de.pos = start;
                return Err(Error::Truncated);
            },
        };
        proof {
            assert(de.rest() =~= b.skip(24));
        }
        let k4 = match de.parse_u64() {
            Ok(v) => v,
            Err(_) => {
                de.pos = start;
                return Err(Error::Truncated);
            },
        };
        proof {
            assert(de.rest() =~= b.skip(32));
        }
        let k5 = match de.parse_u64() {
            Ok(v) => v,
            Err(_) => {
                de.pos = start;
                return Err(Error::Truncated);
            },
        };
        Ok((k1, k2, k3, k4, k5))
    }

    /// Reads the settings record off the decoder.
    #[verifier::rlimit(100)]
    pub fn decode(de: &mut Deserializer) -> (r: Result<Self, Error>)
        requires
            old(de).wf(),
        ensures
            final(de).wf(),
            final(de).data == old(de).data,
            match r {
                Ok(v) => {
                    &&& dec_client_settings(old(de).rest()) == Some(
                        (v@, final(de).pos - old(de).pos),
                    )
                    &&& final(de).pos >= old(de).pos
                },
                Err(e) => {
                    &&& dec_client_settings(old(de).rest()) is None
                    &&& *final(de) == *old(de)
                    &&& (e == Error::EndOfStream || e == Error::Truncated || e == Error::Encoding)
                },
            },
    {
        let ghost b = de.rest();
        let start = de.pos;
        let head = match Self::decode_head(de) {
            Ok(v) => v,
            Err(e) => {
                de.pos = start;
                return Err(e);
            },
        };
        let ghost n1 = de.pos - start;
        proof {
            assert(de.rest() =~= b.skip(n1 as int));
        }
        let mid = match Self::decode_mid(de) {
            Ok(v) => v,
            Err(e) => {
                de.pos = start;
                return Err(e);
            },
        };
        let ghost n2 = de.pos - start - n1;
        proof {
            assert(de.rest() =~= b.skip(n1 + n2));
        }
        let use_subsitutes = match de.parse_bool() {
            Ok(v) => v,
            Err(_) => {
                de.pos = start;
                return Err(Error::Truncated);
            },
        };
        let ghost n3 = de.pos - start - n1 - n2;
        proof {
            assert(de.rest() =~= b.skip(n1 + n2 + n3));
            assert(b.skip(n1 + n2).skip(8) =~= b.skip(n1 + n2 + 8));
        }
        let overrides = match de.parse_string_pair_seq() {
            Ok(v) => v,
            Err(e) => {
                de.pos = start;
                return Err(
                    match e {
                        Error::EndOfStream => Error::Truncated,
                        _ => e,
                    },
                );
            },
        };
        let (keep_failed, keep_going, try_fallback, verbosity, max_build_jobs, max_silent_time) =
            head;
        let (use_build_hook, verbose_build, log_type, print_build_trace, build_cores) = mid;
        Ok(
            ClientSettings {
                keep_failed,
                keep_going,
                try_fallback,
                verbosity,
                max_build_jobs,
                max_silent_time,
                use_build_hook,
                verbose_build,
                log_type,
                print_build_trace,
                build_cores,
                use_subsitutes,
                overrides,
            },
        )
    }
}


/// Path metadata as the querying client assembles it, path included
/// and the optional fields wrapped.
#[derive(Clone, Debug, PartialEq)]
pub struct ValidPathInfo {
    pub path: String,
    pub deriver: Option<String>,
    pub hash: String,
    pub references: Vec<String>,
    pub registration_time: u64,
    pub nar_size: u64,
    pub id: u64,
    pub ultimate: bool,
    pub sigs: Vec<String>,
    pub ca: Option<String>,
}


/// The streams the metadata record's first half can come from: the
/// deriver and hash strings, the references run, and the registration
/// time.
pub open spec fn wf_path_meta_head_at(b: Seq<u8>) -> bool {
    &&& wf_str_pair_at(b)
    &&& match dec_str_pair(b) {
        Some((_, n)) => {
            &&& wf_str_seq_at(b.skip(n))
            &&& match dec_str_seq(b.skip(n)) {
                Some((_, m)) => b.skip(n + m).len() >= 8,
                None => true,
            }
        },
        None => true,
    }
}

/// Re-encoding the decoded first half rebuilds exactly the bytes
/// read, on a well-formed stream.
#[verifier::rlimit(100)]
#[verifier::spinoff_prover]
pub proof fn lemma_enc_dec_path_meta_head(b: Seq<u8>)
    requires
        wf_path_meta_head_at(b),
    ensures
        dec_path_meta_head(b) is Some,
        0 <= dec_path_meta_head(b)->Some_0.1 <= b.len(),
        ({
            let ((deriver, hash, references, rt), n) = dec_path_meta_head(b)->Some_0;
            enc_str(deriver) + enc_str(hash) + enc_str_seq(references) + enc_u64(rt) == b.take(n)
        }),
{
    lemma_enc_dec_str_pair(b);
    let ((x, y), np) = dec_str_pair(b)->Some_0;
    let n1 = dec_str(b)->Some_0.1;
    let n2 = dec_str(b.skip(n1))->Some_0.1;
    assert(0 < n1 <= b.len() && 0 < n2 <= b.skip(n1).len());
    assert(b.skip(n1).skip(n2) =~= b.skip(np));
    lemma_enc_dec_str_seq(b.skip(np));
    let (refs, n3) = dec_str_seq(b.skip(np))->Some_0;
    assert(b.skip(np).skip(n3) =~= b.skip(np + n3));
    lemma_enc_dec_u64(b.skip(np + n3));
    assert(enc_str(x) + enc_str(y) =~= enc_str_pair((x, y)));
    assert(b.take(np) + b.skip(np).take(n3) =~= b.take(np + n3));
    assert(b.take(np + n3) + b.skip(np + n3).take(8) =~= b.take(np + n3 + 8));
}

/// The streams the metadata record's second half can come from: the
/// archive size, a canonical ultimate flag, the signatures run, and
/// the content address.
pub open spec fn wf_path_meta_tail_at(b: Seq<u8>) -> bool {
    &&& b.len() >= 16
    &&& (dec_u64(b.skip(8))->Some_0.0 == 0 || dec_u64(b.skip(8))->Some_0.0 == 1)
    &&& wf_str_seq_at(b.skip(16))
    &&& match dec_str_seq(b.skip(16)) {
        Some((_, m)) => wf_str_at(b.skip(16 + m)),
        None => true,
    }
}

/// Re-encoding the decoded second half rebuilds exactly the bytes
/// read, on a well-formed stream.
#[verifier::rlimit(100)]
#[verifier::spinoff_prover]
pub proof fn lemma_enc_dec_path_meta_tail(b: Seq<u8>)
    requires
        wf_path_meta_tail_at(b),
    ensures
        dec_path_meta_tail(b) is Some,
        0 <= dec_path_meta_tail(b)->Some_0.1 <= b.len(),
        ({
            let ((nar_size, ultimate, sigs, ca), n) = dec_path_meta_tail(b)->Some_0;
            enc_u64(nar_size) + enc_bool(ultimate) + enc_str_seq(sigs) + enc_str(ca) == b.take(n)
        }),
{
    lemma_enc_dec_u64(b);
    assert(b.skip(8).len() >= 8);
    lemma_enc_dec_bool(b.skip(8));
    assert(b.skip(8).skip(8) =~= b.skip(16));
    lemma_enc_dec_str_seq(b.skip(16));
    let (sigs, m) = dec_str_seq(b.skip(16))->Some_0;
    assert(b.skip(16).skip(m) =~= b.skip(16 + m));
    lemma_enc_dec_str(b.skip(16 + m));
    let k = dec_str(b.skip(16 + m))->Some_0.1;
    assert(0 < k <= b.skip(16 + m).len());
    assert(b.take(8) + b.skip(8).take(8) =~= b.take(16));
    assert(b.take(16) + b.skip(16).take(m) =~= b.take(16 + m));
    assert(b.take(16 + m) + b.skip(16 + m).take(k) =~= b.take(16 + m + k));
}

/// The streams a whole metadata record can come from.
pub open spec fn wf_path_info_rest_at(b: Seq<u8>) -> bool {
    &&& wf_path_meta_head_at(b)
    &&& match dec_path_meta_head(b) {
        Some((_, n)) => wf_path_meta_tail_at(b.skip(n)),
        None => true,
    }
}

/// Re-encoding a decoded metadata record rebuilds exactly the bytes
/// read, on a well-formed stream.
#[verifier::rlimit(100)]
#[verifier::spinoff_prover]
pub proof fn lemma_enc_dec_path_info_rest(b: Seq<u8>)
    requires
        wf_path_info_rest_at(b),
    ensures
        dec_path_info_rest(b) is Some,
        0 <= dec_path_info_rest(b)->Some_0.1 <= b.len(),
        enc_path_info_rest(dec_path_info_rest(b)->Some_0.0) == b.take(
            dec_path_info_rest(b)->Some_0.1,
        ),
{
    lemma_enc_dec_path_meta_head(b);
    let (hv, n) = dec_path_meta_head(b)->Some_0;
    lemma_enc_dec_path_meta_tail(b.skip(n));
    let (tv, m) = dec_path_meta_tail(b.skip(n))->Some_0;
    let p = dec_path_info_rest(b)->Some_0.0;
    assert(enc_path_meta_head(p) == enc_str(hv.0) + enc_str(hv.1) + enc_str_seq(hv.2) + enc_u64(
        hv.3,
    ));
    assert(enc_path_meta_tail(p) == enc_u64(tv.0) + enc_bool(tv.1) + enc_str_seq(tv.2) + enc_str(
        tv.3,
    ));
    assert(b.take(n) + b.skip(n).take(m) =~= b.take(n + m));
}

/// The streams a full path record can come from.
pub open spec fn wf_path_info_at(b: Seq<u8>) -> bool {
    &&& wf_str_at(b)
    &&& match dec_str(b) {
        Some((_, n)) => wf_path_info_rest_at(b.skip(n)),
        None => true,
    }
}

/// Re-encoding a decoded path record rebuilds exactly the bytes read,
/// on a well-formed stream.
#[verifier::rlimit(100)]
#[verifier::spinoff_prover]
pub proof fn lemma_enc_dec_path_info(b: Seq<u8>)
    requires
        wf_path_info_at(b),
    ensures
        dec_path_info(b) is Some,
        0 <= dec_path_info(b)->Some_0.1 <= b.len(),
        enc_path_info(dec_path_info(b)->Some_0.0) == b.take(dec_path_info(b)->Some_0.1),
{
    lemma_enc_dec_str(b);
    let (path, n) = dec_str(b)->Some_0;
    assert(0 < n <= b.len());
    lemma_enc_dec_path_info_rest(b.skip(n));
    let (info, m) = dec_path_info_rest(b.skip(n))->Some_0;
    assert(b.take(n) + b.skip(n).take(m) =~= b.take(n + m));
}


/// The declared-output well-formedness, packaged for the run
/// combinators.
pub open spec fn out_wf() -> spec_fn(Seq<u8>) -> bool {
    |b: Seq<u8>| wf_drv_output_at(b)
}

/// The streams a declared-output run can come from.
pub open spec fn wf_drv_output_seq_at(b: Seq<u8>) -> bool {
    &&& b.len() >= 8
    &&& wf_n(b.skip(8), dec_u64(b)->Some_0.0 as nat, out_dec(), out_wf())
}

/// Re-encoding a decoded declared-output run rebuilds exactly the
/// bytes read, on a well-formed stream.
#[verifier::rlimit(100)]
#[verifier::spinoff_prover]
pub proof fn lemma_enc_dec_drv_output_seq(b: Seq<u8>)
    requires
        wf_drv_output_seq_at(b),
    ensures
        dec_drv_output_seq(b) is Some,
        0 <= dec_drv_output_seq(b)->Some_0.1 <= b.len(),
        enc_drv_output_seq(dec_drv_output_seq(b)->Some_0.0) == b.take(
            dec_drv_output_seq(b)->Some_0.1,
        ),
{
    vstd::bytes::lemma_auto_spec_u64_to_from_le_bytes();
    let count = dec_u64(b)->Some_0.0;
    lemma_out_dec_consumes();
    assert forall|s: Seq<u8>| #[trigger] out_wf()(s) implies out_dec()(s) is Some && out_enc()(
        out_dec()(s)->Some_0.0,
    ) == s.take(out_dec()(s)->Some_0.1) by {
        lemma_enc_dec_drv_output(s);
    }
    lemma_enc_dec_list(b.skip(8), count as nat, out_enc(), out_dec(), out_wf());
    let (vs, m) = dec_n(b.skip(8), count as nat, out_dec())->Some_0;
    assert(enc_u64(vs.len() as u64) == b.take(8)) by {
        lemma_enc_dec_u64(b);
    }
    assert(b.take(8) + b.skip(8).take(m) =~= b.take(8 + m));
}

/// The streams a recipe's first half can come from: its name and its
/// declared outputs.
pub open spec fn wf_derivation_head_at(b: Seq<u8>) -> bool {
    &&& wf_str_at(b)
    &&& match dec_str(b) {
        Some((_, n)) => wf_drv_output_seq_at(b.skip(n)),
        None => true,
    }
}

/// Re-encoding the decoded first half rebuilds exactly the bytes
/// read, on a well-formed stream.
#[verifier::rlimit(100)]
#[verifier::spinoff_prover]
pub proof fn lemma_enc_dec_derivation_head(b: Seq<u8>)
    requires
        wf_derivation_head_at(b),
    ensures
        dec_derivation_head(b) is Some,
        0 <= dec_derivation_head(b)->Some_0.1 <= b.len(),
        ({
            let ((name, outputs), n) = dec_derivation_head(b)->Some_0;
            enc_str(name) + enc_drv_output_seq(outputs) == b.take(n)
        }),
{
    lemma_enc_dec_str(b);
    let (name, n) = dec_str(b)->Some_0;
    assert(0 < n <= b.len());
    lemma_enc_dec_drv_output_seq(b.skip(n));
    let (outputs, m) = dec_drv_output_seq(b.skip(n))->Some_0;
    assert(b.take(n) + b.skip(n).take(m) =~= b.take(n + m));
}

/// The streams a recipe's second half can come from: sources and
/// platform, builder and arguments, and the environment pairs.
pub open spec fn wf_derivation_tail_at(b: Seq<u8>) -> bool {
    &&& wf_seq_then_str_at(b)
    &&& match dec_str_seq(b) {
        Some((_, n1)) => match dec_str(b.skip(n1)) {
            Some((_, n2)) => {
                &&& wf_str_then_seq_at(b.skip(n1 + n2))
                &&& match dec_str(b.skip(n1 + n2)) {
                    Some((_, n3)) => match dec_str_seq(b.skip(n1 + n2 + n3)) {
                        Some((_, n4)) => wf_str_pair_seq_at(b.skip(n1 + n2 + n3 + n4)),
                        None => true,
                    },
                    None => true,
                }
            },
            None => true,
        },
        None => true,
    }
}

/// Re-encoding the decoded second half rebuilds exactly the bytes
/// read, on a well-formed stream.
#[verifier::rlimit(100)]
#[verifier::spinoff_prover]
pub proof fn lemma_enc_dec_derivation_tail(b: Seq<u8>)
    requires
        wf_derivation_tail_at(b),
    ensures
        dec_derivation_tail(b) is Some,
        0 <= dec_derivation_tail(b)->Some_0.1 <= b.len(),
        ({
            let ((input_srcs, platform, builder, args, env), n) = dec_derivation_tail(b)->Some_0;
            enc_str_seq(input_srcs) + enc_str(platform) + enc_str(builder) + enc_str_seq(args)
                + enc_str_pair_seq(env) == b.take(n)
        }),
{
    lemma_enc_dec_seq_then_str(b);
    let (srcs, n1) = dec_str_seq(b)->Some_0;
    let (platform, n2) = dec_str(b.skip(n1))->Some_0;
    assert(0 < n2 <= b.skip(n1).len());
    assert(b.skip(n1).skip(n2) =~= b.skip(n1 + n2));
    lemma_enc_dec_str_then_seq(b.skip(n1 + n2));
    let (builder, n3) = dec_str(b.skip(n1 + n2))->Some_0;
    assert(b.skip(n1 + n2).skip(n3) =~= b.skip(n1 + n2 + n3));
    let (args, n4) = dec_str_seq(b.skip(n1 + n2 + n3))->Some_0;
    assert(b.skip(n1 + n2 + n3).skip(n4) =~= b.skip(n1 + n2 + n3 + n4));
    lemma_enc_dec_str_pair_seq(b.skip(n1 + n2 + n3 + n4));
    let (env, n5) = dec_str_pair_seq(b.skip(n1 + n2 + n3 + n4))->Some_0;
    assert(b.take(n1 + n2) + b.skip(n1 + n2).take(n3 + n4) =~= b.take(n1 + n2 + n3 + n4));
    assert(b.take(n1 + n2 + n3 + n4) + b.skip(n1 + n2 + n3 + n4).take(n5) =~= b.take(
        n1 + n2 + n3 + n4 + n5,
    ));
    assert(enc_str_seq(srcs) + enc_str(platform) + enc_str(builder) + enc_str_seq(args)
        =~= (enc_str_seq(srcs) + enc_str(platform)) + (enc_str(builder) + enc_str_seq(args)));
}

/// The streams a whole recipe can come from.
pub open spec fn wf_basic_derivation_at(b: Seq<u8>) -> bool {
    &&& wf_derivation_head_at(b)
    &&& match dec_derivation_head(b) {
        Some((_, n)) => wf_derivation_tail_at(b.skip(n)),
        None => true,
    }
}

/// Re-encoding a decoded recipe rebuilds exactly the bytes read, on a
/// well-formed stream.
#[verifier::rlimit(100)]
#[verifier::spinoff_prover]
pub proof fn lemma_enc_dec_basic_derivation(b: Seq<u8>)
    requires
        wf_basic_derivation_at(b),
    ensures
        dec_basic_derivation(b) is Some,
        0 <= dec_basic_derivation(b)->Some_0.1 <= b.len(),
        enc_basic_derivation(dec_basic_derivation(b)->Some_0.0) == b.take(
            dec_basic_derivation(b)->Some_0.1,
        ),
{
    lemma_enc_dec_derivation_head(b);
    let (hv, n) = dec_derivation_head(b)->Some_0;
    lemma_enc_dec_derivation_tail(b.skip(n));
    let (tv, m) = dec_derivation_tail(b.skip(n))->Some_0;
    let d = dec_basic_derivation(b)->Some_0.0;
    assert(enc_derivation_head(d) == enc_str(hv.0) + enc_drv_output_seq(hv.1));
    assert(enc_derivation_tail(d) == enc_str_seq(tv.0) + enc_str(tv.1) + enc_str(tv.2)
        + enc_str_seq(tv.3) + enc_str_pair_seq(tv.4));
    assert(b.take(n) + b.skip(n).take(m) =~= b.take(n + m));
}


/// The streams the settings record's first third can come from: three
/// canonical flags and three numeric knobs.
pub open spec fn wf_settings_head_at(b: Seq<u8>) -> bool {
    &&& b.len() >= 48
    &&& (dec_u64(b)->Some_0.0 == 0 || dec_u64(b)->Some_0.0 == 1)
    &&& (dec_u64(b.skip(8))->Some_0.0 == 0 || dec_u64(b.skip(8))->Some_0.0 == 1)
    &&& (dec_u64(b.skip(16))->Some_0.0 == 0 || dec_u64(b.skip(16))->Some_0.0 == 1)
}

/// Re-encoding the decoded first third rebuilds exactly the bytes
/// read, on a well-formed stream.
#[verifier::rlimit(100)]
#[verifier::spinoff_prover]
pub proof fn lemma_enc_dec_settings_head(b: Seq<u8>)
    requires
        wf_settings_head_at(b),
    ensures
        dec_settings_head(b) is Some,
        dec_settings_head(b)->Some_0.1 == 48,
        ({
            let ((f1, f2, f3, k1, k2, k3), n) = dec_settings_head(b)->Some_0;
            enc_bool(f1) + enc_bool(f2) + enc_bool(f3) + enc_u64(k1) + enc_u64(k2) + enc_u64(k3)
                == b.take(48)
        }),
{
    lemma_enc_dec_bool(b);
    lemma_enc_dec_bool(b.skip(8));
    lemma_enc_dec_bool(b.skip(16));
    lemma_enc_dec_u64(b.skip(24));
    lemma_enc_dec_u64(b.skip(32));
    lemma_enc_dec_u64(b.skip(40));
    assert(b.take(8) + b.skip(8).take(8) =~= b.take(16));
    assert(b.take(16) + b.skip(16).take(8) =~= b.take(24));
    assert(b.take(24) + b.skip(24).take(8) =~= b.take(32));
    assert(b.take(32) + b.skip(32).take(8) =~= b.take(40));
    assert(b.take(40) + b.skip(40).take(8) =~= b.take(48));
}

/// The streams the settings record's middle third can come from: five
/// numeric fields.
pub open spec fn wf_settings_mid_at(b: Seq<u8>) -> bool {
    b.len() >= 40
}

/// Re-encoding the decoded middle third rebuilds exactly the bytes
/// read.
#[verifier::rlimit(100)]
#[verifier::spinoff_prover]
pub proof fn lemma_enc_dec_settings_mid(b: Seq<u8>)
    requires
        wf_settings_mid_at(b),
    ensures
        dec_settings_mid(b) is Some,
        dec_settings_mid(b)->Some_0.1 == 40,
        ({
            let ((k1, k2, k3, k4, k5), n) = dec_settings_mid(b)->Some_0;
            enc_u64(k1) + enc_u64(k2) + enc_u64(k3) + enc_u64(k4) + enc_u64(k5) == b.take(40)
        }),
{
    lemma_enc_dec_u64(b);
    lemma_enc_dec_u64(b.skip(8));
    lemma_enc_dec_u64(b.skip(16));
    lemma_enc_dec_u64(b.skip(24));
    lemma_enc_dec_u64(b.skip(32));
    assert(b.take(8) + b.skip(8).take(8) =~= b.take(16));
    assert(b.take(16) + b.skip(16).take(8) =~= b.take(24));
    assert(b.take(24) + b.skip(24).take(8) =~= b.take(32));
    assert(b.take(32) + b.skip(32).take(8) =~= b.take(40));
}

/// The streams the settings record's last third can come from: a
/// canonical substitutes flag and the override pairs.
pub open spec fn wf_settings_tail_at(b: Seq<u8>) -> bool {
    &&& b.len() >= 8
    &&& (dec_u64(b)->Some_0.0 == 0 || dec_u64(b)->Some_0.0 == 1)
    &&& wf_str_pair_seq_at(b.skip(8))
}

/// Re-encoding the decoded last third rebuilds exactly the bytes
/// read, on a well-formed stream.
#[verifier::rlimit(100)]
#[verifier::spinoff_prover]
pub proof fn lemma_enc_dec_settings_tail(b: Seq<u8>)
    requires
        wf_settings_tail_at(b),
    ensures
        dec_settings_tail(b) is Some,
        0 <= dec_settings_tail(b)->Some_0.1 <= b.len(),
        ({
            let ((flag, overrides), n) = dec_settings_tail(b)->Some_0;
            enc_bool(flag) + enc_str_pair_seq(overrides) == b.take(n)
        }),
{
    lemma_enc_dec_bool(b);
    lemma_enc_dec_str_pair_seq(b.skip(8));
    let (overrides, m) = dec_str_pair_seq(b.skip(8))->Some_0;
    assert(b.take(8) + b.skip(8).take(m) =~= b.take(8 + m));
}

/// The streams a whole settings record can come from.
pub open spec fn wf_client_settings_at(b: Seq<u8>) -> bool {
    &&& wf_settings_head_at(b)
    &&& wf_settings_mid_at(b.skip(48))
    &&& wf_settings_tail_at(b.skip(88))
}

/// Re-encoding a decoded settings record rebuilds exactly the bytes
/// read, on a well-formed stream.
#[verifier::rlimit(100)]
#[verifier::spinoff_prover]
pub proof fn lemma_enc_dec_client_settings(b: Seq<u8>)
    requires
        wf_client_settings_at(b),
    ensures
        dec_client_settings(b) is Some,
        0 <= dec_client_settings(b)->Some_0.1 <= b.len(),
        enc_client_settings(dec_client_settings(b)->Some_0.0) == b.take(
            dec_client_settings(b)->Some_0.1,
        ),
{
    lemma_enc_dec_settings_head(b);
    let (hv, _) = dec_settings_head(b)->Some_0;
    lemma_enc_dec_settings_mid(b.skip(48));
    let (mv, _) = dec_settings_mid(b.skip(48))->Some_0;
    lemma_enc_dec_settings_tail(b.skip(88));
    let (tv, m) = dec_settings_tail(b.skip(88))->Some_0;
    assert(b.skip(48).skip(40) =~= b.skip(88));
    let v = dec_client_settings(b)->Some_0.0;
    assert(enc_settings_head(v) == enc_bool(hv.0) + enc_bool(hv.1) + enc_bool(hv.2) + enc_u64(
        hv.3,
    ) + enc_u64(hv.4) + enc_u64(hv.5));
    assert(enc_settings_mid(v) == enc_u64(mv.0) + enc_u64(mv.1) + enc_u64(mv.2) + enc_u64(mv.3)
        + enc_u64(mv.4));
    assert(enc_settings_tail(v) == enc_bool(tv.0) + enc_str_pair_seq(tv.1));
    assert(b.take(48) + b.skip(48).take(40) =~= b.take(88));
    assert(b.take(88) + b.skip(88).take(m) =~= b.take(88 + m));
}

} // verus!
