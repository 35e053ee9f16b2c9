//! The store manager: an in-memory index from store paths to their
//! metadata, and the verified build-registration logic — hashing an
//! archive, scanning it for references to input sources, and inserting
//! the resulting metadata — with the digest and the substring search
//! carried out by outside crates behind trusted wrappers.
use crate::de::string_from_utf8;
use crate::types::PathInfo;
use crate::types::PathInfoView;
use crate::types::PathInfoWithoutPath;
use crate::types::PathInfoWithoutPathView;
use vstd::multiset::Multiset;
use vstd::prelude::*;
use vstd::seq_lib::group_seq_properties;
use vstd::utf8::encode_utf8;
use vstd::utf8::encode_utf8_decode_utf8;
use vstd::utf8::encode_utf8_valid_utf8;
use vstd::utf8::is_ascii_chars;
use vstd::utf8::is_ascii_chars_encode_utf8;

verus! {

broadcast use vstd::seq_lib::group_to_multiset_ensures, vstd::multiset::group_multiset_axioms;

/// The SHA-256 digest of a byte sequence, named: what sha2 computes.
pub uninterp spec fn sha256_of(b: Seq<u8>) -> Seq<u8>;

/// Relies on sha2's `Sha256`: a 32-byte digest determined by the input
/// bytes alone.
#[verifier::external_body]
fn sha256_digest(data: &[u8]) -> (r: Vec<u8>)
    ensures
        r@ == sha256_of(data@),
        r@.len() == 32,
{
    let mut hasher: sha2::Sha256 = sha2::Digest::new();
    sha2::Digest::update(&mut hasher, data);
    sha2::Digest::finalize(hasher).to_vec()
}

/// `needle` occurs somewhere in `hay` as a contiguous run of bytes.
pub open spec fn contains_subseq(hay: Seq<u8>, needle: Seq<u8>) -> bool {
    exists|i: int|
        0 <= i && i + needle.len() <= hay.len() && #[trigger] hay.subrange(i, i + needle.len())
            == needle
}

/// Relies on kmpsearch's `Haystack::contains_needle`:
/// Knuth-Morris-Pratt substring search over byte slices. Its search
/// indexes the needle unconditionally, so an empty needle is kept out.
#[verifier::external_body]
fn bytes_contain(hay: &[u8], needle: &[u8]) -> (r: bool)
    requires
        needle@.len() >= 1,
    ensures
        r == contains_subseq(hay@, needle@),
{
    kmpsearch::Haystack::contains_needle(&hay, needle)
}

/// The lower-case hex character of a value below sixteen.
pub open spec fn hex_char(n: u8) -> char {
    if n == 0 {
        '0'
    } else if n == 1 {
        '1'
    } else if n == 2 {
        '2'
    } else if n == 3 {
        '3'
    } else if n == 4 {
        '4'
    } else if n == 5 {
        '5'
    } else if n == 6 {
        '6'
    } else if n == 7 {
        '7'
    } else if n == 8 {
        '8'
    } else if n == 9 {
        '9'
    } else if n == 10 {
        'a'
    } else if n == 11 {
        'b'
    } else if n == 12 {
        'c'
    } else if n == 13 {
        'd'
    } else if n == 14 {
        'e'
    } else {
        'f'
    }
}

/// The lower-case hex spelling of a byte sequence: two characters per
/// byte, high nibble first.
pub open spec fn hex_of(b: Seq<u8>) -> Seq<char> {
    Seq::new(
        b.len() * 2,
        |i: int|
            if i % 2 == 0 {
                hex_char(b[i / 2] / 16)
            } else {
                hex_char(b[i / 2] % 16)
            },
    )
}

/// The ASCII code of a hex character.
fn hex_char_byte(n: u8) -> (r: u8)
    requires
        n < 16,
    ensures
        r == hex_char(n) as u8,
        r < 0x80,
{
    if n < 10 {
        n + 48
    } else {
        n + 87
    }
}

/// Spells a byte sequence in lower-case hex.
pub fn to_hex(data: &[u8]) -> (r: String)
    ensures
        r@ == hex_of(data@),
{
    let ghost goal = hex_of(data@);
    proof {
        assert forall|i: int| 0 <= i < goal.len() implies '\0' <= #[trigger] goal[i]
            <= '\u{7f}' by {}
    }
    let mut out: Vec<u8> = Vec::new();
    let mut i: usize = 0;
    while i < data.len()
        invariant
            i <= data.len(),
            goal == hex_of(data@),
            out@.len() == 2 * i,
            forall|j: int| 0 <= j < out@.len() ==> out@[j] == (#[trigger] goal[j]) as u8,
        decreases data.len() - i,
    {
        let b = data[i];
        out.push(hex_char_byte(b / 16));
        out.push(hex_char_byte(b % 16));
        i = i + 1;
    }
    proof {
        assert(is_ascii_chars(goal));
        is_ascii_chars_encode_utf8(goal);
        assert(out@ =~= encode_utf8(goal));
        encode_utf8_valid_utf8(goal);
        encode_utf8_decode_utf8(goal);
    }
    match string_from_utf8(out) {
        Ok(s) => s,
        Err(_) => {
            proof {
                assert(false);
            }
            String::new()
        },
    }
}

/// The in-memory store index: path metadata records with pairwise
/// distinct paths, in insertion order. Created empty at daemon start,
/// grown by successful ingests and builds, never shrunk.
pub struct StoreIndex {
    entries: Vec<PathInfo>,
}

impl StoreIndex {
    /// The records, in insertion order.
    pub closed spec fn entries(&self) -> Seq<PathInfoView> {
        self.entries@.map_values(|p: PathInfo| p@)
    }

    /// The paths, in insertion order.
    pub open spec fn keys(&self) -> Seq<Seq<char>> {
        self.entries().map_values(|p: PathInfoView| p.path)
    }

    /// No two records share a path.
    pub open spec fn wf(&self) -> bool {
        forall|i: int, j: int|
            0 <= i < j < self.entries().len() ==> self.entries()[i].path != self.entries()[j].path
    }

    /// Whether some record is keyed by `k`.
    pub open spec fn contains_key(&self, k: Seq<char>) -> bool {
        exists|i: int| 0 <= i < self.entries().len() && (#[trigger] self.entries()[i]).path == k
    }

    /// The metadata keyed by `k`.
    pub open spec fn info_at(&self, k: Seq<char>) -> PathInfoWithoutPathView {
        self.entries()[choose|i: int|
            0 <= i < self.entries().len() && (#[trigger] self.entries()[i]).path == k].info
    }

    /// The index as a map from path to metadata.
    pub open spec fn map_view(&self) -> Map<Seq<char>, PathInfoWithoutPathView> {
        Map::new(|k: Seq<char>| self.contains_key(k), |k: Seq<char>| self.info_at(k))
    }

    /// The record at `i` is the one its path is keyed to.
    proof fn lemma_at_key(&self, i: int)
        requires
            self.wf(),
            0 <= i < self.entries().len(),
        ensures
            self.contains_key(self.entries()[i].path),
            self.info_at(self.entries()[i].path) == self.entries()[i].info,
    {
        let k = self.entries()[i].path;
        assert(self.contains_key(k));
        let j = choose|j: int|
            0 <= j < self.entries().len() && (#[trigger] self.entries()[j]).path == k;
        assert(j == i);
    }

    /// An empty index.
    pub fn new() -> (r: Self)
        ensures
            r.wf(),
            r.entries() =~= Seq::<PathInfoView>::empty(),
            r.map_view() =~= Map::<Seq<char>, PathInfoWithoutPathView>::empty(),
    {
        let r = StoreIndex { entries: Vec::new() };
        proof {
            assert(r.entries() =~= Seq::<PathInfoView>::empty());
        }
        r
    }

    /// Looks a path up: the pure read of the query operations.
    pub fn lookup(&self, path: &String) -> (r: Option<&PathInfo>)
        requires
            self.wf(),
        ensures
            match r {
                Some(p) => self.contains_key(path@) && p.path@ == path@ && p.info@ == self.info_at(
                    path@,
                ),
                None => !self.contains_key(path@),
            },
    {
        let n = self.entries.len();
        let mut i: usize = 0;
        while i < n
            invariant
                n == self.entries@.len(),
                i <= n,
                self.wf(),
                forall|j: int| 0 <= j < i ==> (#[trigger] self.entries()[j]).path != path@,
            decreases n - i,
        {
            if self.entries[i].path == *path {
                proof {
                    assert(self.entries()[i as int].path == path@);
                }
                return Some(&self.entries[i]);
            }
            proof {
                assert(self.entries()[i as int].path == self.entries@[i as int].path@);
            }
            i = i + 1;
        }
        proof {
            assert forall|j: int|
                0 <= j < self.entries().len() implies (#[trigger] self.entries()[j]).path
                != path@ by {}
        }
        None
    }

    /// Inserts a record keyed by its path, replacing any record the
    /// path already had. Present keys stay present: the index only
    /// grows.
    pub fn insert(&mut self, info: PathInfo)
        requires
            old(self).wf(),
        ensures
            final(self).wf(),
            final(self).map_view() =~= old(self).map_view().insert(info.path@, info.info@),
            final(self).keys() == (if old(self).contains_key(info.path@) {
                old(self).keys()
            } else {
                old(self).keys().push(info.path@)
            }),
    {
        let ghost k = info.path@;
        let n = self.entries.len();
        let mut i: usize = 0;
        while i < n
            invariant
                n == self.entries@.len(),
                i <= n,
                self.wf(),
                *self == *old(self),
                forall|j: int| 0 <= j < i ==> (#[trigger] self.entries()[j]).path != info.path@,
            decreases n - i,
        {
            if self.entries[i].path == info.path {
                proof {
                    assert(self.entries()[i as int].path == info.path@);
                }
                self.entries.set(i, info);
                proof {
                    let fs = *final(self);
                    let os = *old(self);
                    assert(fs.entries() =~= os.entries().update(i as int, info@));
                    assert(fs.keys() =~= os.keys());
                    assert(fs.wf());
                    assert forall|k: Seq<char>| #[trigger]
                        fs.contains_key(k) implies os.contains_key(k) by {
                        let j = choose|j: int|
                            0 <= j < fs.entries().len() && (#[trigger] fs.entries()[j]).path == k;
                        assert(os.entries()[j].path == k);
                    }
                    assert forall|k: Seq<char>| #[trigger]
                        os.contains_key(k) implies fs.contains_key(k) by {
                        let j = choose|j: int|
                            0 <= j < os.entries().len() && (#[trigger] os.entries()[j]).path == k;
                        assert(fs.entries()[j].path == k);
                    }
                    assert forall|k: Seq<char>|
                        fs.contains_key(k) && k != info.path@ implies fs.info_at(k) == os.info_at(
                        k,
                    ) by {
                        let j = choose|j: int|
                            0 <= j < fs.entries().len() && (#[trigger] fs.entries()[j]).path == k;
                        assert(j != i);
                        fs.lemma_at_key(j);
                        os.lemma_at_key(j);
                    }
                    fs.lemma_at_key(i as int);
                    assert(fs.map_view() =~= os.map_view().insert(info.path@, info.info@));
                }
                return ;
            }
            proof {
                assert(self.entries()[i as int].path == self.entries@[i as int].path@);
            }
            i = i + 1;
        }
        proof {
            assert forall|j: int|
                0 <= j < self.entries().len() implies (#[trigger] self.entries()[j]).path
                != info.path@ by {}
            assert(!self.contains_key(info.path@));
        }
        self.entries.push(info);
        proof {
            let fs = *final(self);
            let os = *old(self);
            assert(fs.entries() =~= os.entries().push(info@));
            assert(fs.keys() =~= os.keys().push(info.path@));
            let n2 = fs.entries().len() as int;
            assert(fs.wf());
            assert forall|k: Seq<char>|
                fs.contains_key(k) && k != info.path@ implies os.contains_key(k) && fs.info_at(k)
                == os.info_at(k) by {
                let j = choose|j: int|
                    0 <= j < fs.entries().len() && (#[trigger] fs.entries()[j]).path == k;
                assert(j < n2 - 1);
                assert(os.entries()[j].path == k);
                fs.lemma_at_key(j);
                os.lemma_at_key(j);
            }
            assert forall|k: Seq<char>| #[trigger]
                os.contains_key(k) implies fs.contains_key(k) by {
                let j = choose|j: int|
                    0 <= j < os.entries().len() && (#[trigger] os.entries()[j]).path == k;
                assert(fs.entries()[j].path == k);
            }
            fs.lemma_at_key(n2 - 1);
            assert(fs.map_view() =~= os.map_view().insert(info.path@, info.info@));
        }
    }

    /// The subset of `candidates` that the index holds, in index
    /// order: the body of `QueryValidPaths`.
    pub fn valid_subset(&self, candidates: &Vec<String>) -> (r: Vec<String>)
        requires
            self.wf(),
        ensures
            r.deep_view() == self.keys().filter(
                |k: Seq<char>| candidates.deep_view().contains(k),
            ),
    {
        broadcast use group_seq_properties;

        let ghost pred = |k: Seq<char>| candidates.deep_view().contains(k);
        let mut out: Vec<String> = Vec::new();
        let n = self.entries.len();
        let mut i: usize = 0;
        proof {
            reveal(Seq::filter);
            assert(self.keys().take(0) =~= Seq::<Seq<char>>::empty());
            assert(out.deep_view() =~= self.keys().take(0).filter(pred));
        }
        while i < n
            invariant
                n == self.entries@.len(),
                i <= n,
                self.wf(),
                pred == (|k: Seq<char>| candidates.deep_view().contains(k)),
                out.deep_view() == self.keys().take(i as int).filter(pred),
            decreases n - i,
        {
            let ghost out0 = out.deep_view();
            let hit = contains_string(candidates, &self.entries[i].path);
            proof {
                reveal(Seq::filter);
                assert(self.keys()[i as int] == self.entries@[i as int].path@);
                assert(self.keys().take(i + 1).drop_last() =~= self.keys().take(i as int));
                assert(self.keys().take(i + 1).last() == self.keys()[i as int]);
            }
            if hit {
                let p = self.entries[i].path.clone();
                out.push(p);
                proof {
                    assert(out.deep_view() =~= out0.push(self.keys()[i as int]));
                }
            }
            i = i + 1;
        }
        proof {
            assert(self.keys().take(n as int) =~= self.keys());
        }
        out
    }
}

/// Whether `v` holds a string spelling `s`.
fn contains_string(v: &Vec<String>, s: &String) -> (r: bool)
    ensures
        r == v.deep_view().contains(s@),
{
    let n = v.len();
    let mut i: usize = 0;
    while i < n
        invariant
            n == v@.len(),
            i <= n,
            forall|j: int| 0 <= j < i ==> v.deep_view()[j] != s@,
        decreases n - i,
    {
        if v[i] == *s {
            proof {
                assert(v.deep_view()[i as int] == s@);
            }
            return true;
        }
        proof {
            assert(v.deep_view()[i as int] == v@[i as int]@);
        }
        i = i + 1;
    }
    proof {
        assert(forall|j: int| 0 <= j < v.deep_view().len() ==> v.deep_view()[j] != s@);
    }
    false
}


/// Where the base name begins in a path's bytes: right after the last
/// slash, or at the start when there is none.
pub open spec fn base_start(b: Seq<u8>) -> int
    decreases b.len(),
{
    if b.len() == 0 {
        0
    } else if b[b.len() - 1] == 47 {
        b.len() as int
    } else {
        base_start(b.drop_last())
    }
}

pub proof fn lemma_base_start_bounds(b: Seq<u8>)
    ensures
        0 <= base_start(b) <= b.len(),
    decreases b.len(),
{
    if b.len() > 0 && b[b.len() - 1] != 47 {
        lemma_base_start_bounds(b.drop_last());
    }
}

/// The 32 leading bytes of a path's base name: the hash segment that
/// reference scanning looks for.
pub open spec fn hash_prefix(path: Seq<char>) -> Seq<u8> {
    let b = encode_utf8(path);
    b.subrange(base_start(b), base_start(b) + 32)
}

/// A path whose base name is long enough to carry a hash segment.
pub open spec fn scannable(path: Seq<char>) -> bool {
    encode_utf8(path).len() - base_start(encode_utf8(path)) >= 32
}

/// The input sources an archive references: those whose hash prefix
/// occurs in its bytes.
pub open spec fn references_of(archive: Seq<u8>, srcs: Seq<Seq<char>>) -> Seq<Seq<char>> {
    srcs.filter(|s: Seq<char>| contains_subseq(archive, hash_prefix(s)))
}

/// Finds where the base name begins: right after the last slash.
fn find_base_start(b: &[u8]) -> (r: usize)
    ensures
        r == base_start(b@),
{
    let mut i: usize = b.len();
    proof {
        assert(b@.take(b@.len() as int) =~= b@);
    }
    while i > 0
        invariant
            i <= b.len(),
            base_start(b@) == base_start(b@.take(i as int)),
        decreases i,
    {
        if b[i - 1] == 47 {
            proof {
                assert(b@.take(i as int)[i - 1] == 47);
            }
            return i;
        }
        proof {
            assert(b@.take(i as int)[i - 1] != 47);
            assert(b@.take(i as int).drop_last() =~= b@.take(i - 1));
        }
        i = i - 1;
    }
    proof {
        assert(b@.take(0) =~= Seq::<u8>::empty());
    }
    0
}

/// Scans an archive for each input source's hash prefix: the sources
/// kept are exactly those whose prefix occurs in the archive bytes.
pub fn scan_references(archive: &Vec<u8>, srcs: &Vec<String>) -> (r: Vec<String>)
    requires
        forall|i: int| 0 <= i < srcs.deep_view().len() ==> scannable(#[trigger] srcs.deep_view()[i]),
    ensures
        r.deep_view() == references_of(archive@, srcs.deep_view()),
{
    let ghost dv = srcs.deep_view();
    let ghost pred = |s: Seq<char>| contains_subseq(archive@, hash_prefix(s));
    let mut out: Vec<String> = Vec::new();
    let n = srcs.len();
    let mut i: usize = 0;
    proof {
        reveal(Seq::filter);
        assert(dv.take(0) =~= Seq::<Seq<char>>::empty());
        assert(out.deep_view() =~= dv.take(0).filter(pred));
    }
    while i < n
        invariant
            n == srcs@.len(),
            i <= n,
            dv == srcs.deep_view(),
            forall|j: int| 0 <= j < dv.len() ==> scannable(#[trigger] dv[j]),
            pred == (|s: Seq<char>| contains_subseq(archive@, hash_prefix(s))),
            out.deep_view() == dv.take(i as int).filter(pred),
        decreases n - i,
    {
        let ghost out0 = out.deep_view();
        let bytes: &[u8] = srcs[i].as_str().as_bytes();
        proof {
            assert(dv[i as int] == srcs@[i as int]@);
            assert(bytes@ == encode_utf8(dv[i as int]));
            lemma_base_start_bounds(bytes@);
        }
        let start = find_base_start(bytes);
        let blen = bytes.len();
        proof {
            assert(start + 32 <= blen);
        }
        let prefix: &[u8] = &bytes[start..start + 32];
        proof {
            assert(prefix@ == hash_prefix(dv[i as int]));
        }
        let hit = bytes_contain(archive.as_slice(), prefix);
        proof {
            reveal(Seq::filter);
            assert(dv.take(i + 1).drop_last() =~= dv.take(i as int));
            assert(dv.take(i + 1).last() == dv[i as int]);
        }
        if hit {
            let p = srcs[i].clone();
            out.push(p);
            proof {
                assert(out.deep_view() =~= out0.push(dv[i as int]));
            }
        }
        i = i + 1;
    }
    proof {
        assert(dv.take(n as int) =~= dv);
    }
    out
}

/// Byte-wise lexicographic order on byte sequences.
pub open spec fn bytes_le(a: Seq<u8>, b: Seq<u8>) -> bool
    decreases a.len(),
{
    if a.len() == 0 {
        true
    } else if b.len() == 0 {
        false
    } else if a[0] < b[0] {
        true
    } else if a[0] > b[0] {
        false
    } else {
        bytes_le(a.drop_first(), b.drop_first())
    }
}

/// Lexicographic order on strings, by their UTF-8 bytes.
pub open spec fn str_le(a: Seq<char>, b: Seq<char>) -> bool {
    bytes_le(encode_utf8(a), encode_utf8(b))
}

/// The string order, packaged for sortedness statements.
pub open spec fn str_le_fn() -> spec_fn(Seq<char>, Seq<char>) -> bool {
    |a: Seq<char>, b: Seq<char>| str_le(a, b)
}

proof fn lemma_bytes_le_refl(a: Seq<u8>)
    ensures
        bytes_le(a, a),
    decreases a.len(),
{
    if a.len() > 0 {
        lemma_bytes_le_refl(a.drop_first());
    }
}

proof fn lemma_bytes_le_total(a: Seq<u8>, b: Seq<u8>)
    ensures
        bytes_le(a, b) || bytes_le(b, a),
    decreases a.len(),
{
    if a.len() > 0 && b.len() > 0 && a[0] == b[0] {
        lemma_bytes_le_total(a.drop_first(), b.drop_first());
    }
}

proof fn lemma_bytes_le_antisym(a: Seq<u8>, b: Seq<u8>)
    requires
        bytes_le(a, b),
        bytes_le(b, a),
    ensures
        a == b,
    decreases a.len(),
{
    if a.len() == 0 {
        assert(a =~= b);
    } else {
        lemma_bytes_le_antisym(a.drop_first(), b.drop_first());
        assert(a =~= seq![a[0]] + a.drop_first());
        assert(b =~= seq![b[0]] + b.drop_first());
    }
}

proof fn lemma_bytes_le_trans(a: Seq<u8>, b: Seq<u8>, c: Seq<u8>)
    requires
        bytes_le(a, b),
        bytes_le(b, c),
    ensures
        bytes_le(a, c),
    decreases a.len(),
{
    if a.len() > 0 && b.len() > 0 && c.len() > 0 && a[0] == b[0] && b[0] == c[0] {
        lemma_bytes_le_trans(a.drop_first(), b.drop_first(), c.drop_first());
    }
}

/// The string order is a total order.
pub proof fn lemma_str_le_total_ordering()
    ensures
        vstd::relations::total_ordering(str_le_fn()),
{
    let leq = str_le_fn();
    assert forall|a: Seq<char>| #[trigger] leq(a, a) by {
        lemma_bytes_le_refl(encode_utf8(a));
    }
    assert forall|a: Seq<char>, b: Seq<char>| #[trigger] leq(a, b) && #[trigger] leq(b, a) implies a
        == b by {
        lemma_bytes_le_antisym(encode_utf8(a), encode_utf8(b));
        encode_utf8_decode_utf8(a);
        encode_utf8_decode_utf8(b);
    }
    assert forall|a: Seq<char>, b: Seq<char>, c: Seq<char>|
        #[trigger] leq(a, b) && #[trigger] leq(b, c) implies leq(a, c) by {
        lemma_bytes_le_trans(encode_utf8(a), encode_utf8(b), encode_utf8(c));
    }
    assert forall|a: Seq<char>, b: Seq<char>| !(#[trigger] leq(a, b)) implies leq(b, a) by {
        lemma_bytes_le_total(encode_utf8(a), encode_utf8(b));
    }
}

/// Compares two strings in the lexicographic order of their UTF-8
/// bytes.
fn str_bytes_le(a: &String, b: &String) -> (r: bool)
    ensures
        r == str_le(a@, b@),
{
    let ab: &[u8] = a.as_str().as_bytes();
    let bb: &[u8] = b.as_str().as_bytes();
    let ghost av = ab@;
    let ghost bv = bb@;
    let mut i: usize = 0;
    proof {
        assert(av.skip(0) == av);
        assert(bv.skip(0) == bv);
        assert(av.take(0) =~= bv.take(0));
    }
    while i < ab.len() && i < bb.len()
        invariant
            av == ab@,
            bv == bb@,
            av == encode_utf8(a@),
            bv == encode_utf8(b@),
            i <= av.len(),
            i <= bv.len(),
            av.take(i as int) =~= bv.take(i as int),
            bytes_le(av, bv) == bytes_le(av.skip(i as int), bv.skip(i as int)),
        decreases av.len() - i,
    {
        let x = ab[i];
        let y = bb[i];
        if x < y {
            proof {
                assert(av.skip(i as int)[0] == x && bv.skip(i as int)[0] == y);
                assert(bytes_le(av.skip(i as int), bv.skip(i as int)));
                assert(av == encode_utf8(a@) && bv == encode_utf8(b@));
            }
            return true;
        }
        if x > y {
            proof {
                assert(av.skip(i as int)[0] == x && bv.skip(i as int)[0] == y);
                assert(!bytes_le(av.skip(i as int), bv.skip(i as int)));
                assert(av == encode_utf8(a@) && bv == encode_utf8(b@));
            }
            return false;
        }
        proof {
            assert(av.skip(i as int)[0] == x && bv.skip(i as int)[0] == y);
            assert(av.skip(i as int).drop_first() =~= av.skip(i + 1));
            assert(bv.skip(i as int).drop_first() =~= bv.skip(i + 1));
            assert(av.take(i + 1) =~= bv.take(i + 1));
        }
        i = i + 1;
    }
    proof {
        assert(av == encode_utf8(a@) && bv == encode_utf8(b@));
        if i == av.len() {
            assert(av.skip(i as int).len() == 0);
            assert(bytes_le(av.skip(i as int), bv.skip(i as int)));
        } else {
            assert(bv.skip(i as int).len() == 0);
            assert(av.skip(i as int).len() > 0);
            assert(!bytes_le(av.skip(i as int), bv.skip(i as int)));
        }
    }
    ab.len() <= bb.len()
}

/// Sorts strings by the lexicographic order of their UTF-8 bytes.
pub fn sort_strings(v: &Vec<String>) -> (r: Vec<String>)
    ensures
        r.deep_view() == v.deep_view().sort_by(str_le_fn()),
{
    let ghost dv = v.deep_view();
    let ghost leq = str_le_fn();
    let mut out: Vec<String> = Vec::new();
    let n = v.len();
    let mut i: usize = 0;
    proof {
        assert(dv.take(0) =~= Seq::<Seq<char>>::empty());
        assert(out.deep_view() =~= Seq::<Seq<char>>::empty());
        assert(out.deep_view().to_multiset() =~= dv.take(0).to_multiset());
    }
    while i < n
        invariant
            n == v@.len(),
            i <= n,
            dv == v.deep_view(),
            leq == str_le_fn(),
            vstd::relations::sorted_by(out.deep_view(), leq),
            out.deep_view().to_multiset() == dv.take(i as int).to_multiset(),
        decreases n - i,
    {
        let x = v[i].clone();
        let ghost xv = x@;
        proof {
            assert(dv[i as int] == v@[i as int]@);
            lemma_str_le_total_ordering();
        }
        let mut p: usize = 0;
        while p < out.len() && str_bytes_le(&out[p], &x)
            invariant
                p <= out@.len(),
                xv == x@,
                leq == str_le_fn(),
                vstd::relations::sorted_by(out.deep_view(), leq),
                forall|j: int| 0 <= j < p ==> leq(#[trigger] out.deep_view()[j], xv),
            decreases out@.len() - p,
        {
            proof {
                assert(out.deep_view()[p as int] == out@[p as int]@);
            }
            p = p + 1;
        }
        let ghost out0 = out.deep_view();
        proof {
            lemma_str_le_total_ordering();
            if p < out@.len() {
                assert(out.deep_view()[p as int] == out@[p as int]@);
                assert(!leq(out0[p as int], xv));
                assert(leq(xv, out0[p as int]));
            }
        }
        out.insert(p, x);
        proof {
            let outn = out.deep_view();
            assert(outn =~= out0.take(p as int) + (seq![xv] + out0.skip(p as int)));
            vstd::seq_lib::lemma_multiset_commutative(
                out0.take(p as int),
                seq![xv] + out0.skip(p as int),
            );
            vstd::seq_lib::lemma_multiset_commutative(seq![xv], out0.skip(p as int));
            assert(out0 =~= out0.take(p as int) + out0.skip(p as int));
            vstd::seq_lib::lemma_multiset_commutative(out0.take(p as int), out0.skip(p as int));
            let emp = Seq::<Seq<char>>::empty();
            assert(seq![xv] =~= emp.push(xv));
            assert(emp.push(xv).to_multiset() =~= emp.to_multiset().insert(xv));
            assert forall|e: Seq<char>| emp.to_multiset().count(e) == 0 by {
                assert(!emp.contains(e));
            }
            assert(seq![xv].to_multiset() =~= emp.to_multiset().insert(xv));
            assert(outn.to_multiset() =~= out0.to_multiset().insert(xv));
            assert(dv.take(i + 1).drop_last() =~= dv.take(i as int));
            assert(dv.take(i + 1) =~= dv.take(i as int).push(dv[i as int]));
            assert(dv.take(i + 1).to_multiset() =~= dv.take(i as int).to_multiset().insert(
                dv[i as int],
            ));
            assert(outn.to_multiset() =~= dv.take(i + 1).to_multiset());
            assert forall|a: int, b: int| 0 <= a < b < outn.len() implies #[trigger] leq(
                outn[a],
                outn[b],
            ) by {
                if b < p {
                } else if a < p && b == p {
                } else if a < p && b > p {
                    assert(leq(out0[a], xv));
                    if p < out0.len() {
                        assert(leq(xv, out0[p as int]));
                    }
                    assert(outn[b] == out0[b - 1]);
                    assert(leq(outn[a], outn[b]));
                } else if a == p {
                    assert(outn[b] == out0[b - 1]);
                    assert(b - 1 >= p);
                    if b - 1 == p {
                        assert(leq(xv, out0[p as int]));
                    } else {
                        assert(leq(xv, out0[p as int]));
                        assert(leq(out0[p as int], out0[b - 1]));
                    }
                } else {
                    assert(outn[a] == out0[a - 1] && outn[b] == out0[b - 1]);
                }
            }
        }
        i = i + 1;
    }
    proof {
        assert(dv.take(n as int) =~= dv);
        lemma_str_le_total_ordering();
        dv.lemma_sort_by_ensures(leq);
        vstd::seq_lib::lemma_sorted_unique(out.deep_view(), dv.sort_by(leq), leq);
        assert(out.deep_view() == dv.sort_by(leq));
    }
    out
}

/// The metadata a build writes for one output: empty deriver and
/// content address, the archive's digest in hex, its size, the scanned
/// references, the ultimate flag set and no signatures.
pub open spec fn built_info(archive: Seq<u8>, srcs: Seq<Seq<char>>) -> PathInfoWithoutPathView {
    PathInfoWithoutPathView {
        deriver: Seq::empty(),
        hash: hex_of(sha256_of(archive)),
        references: references_of(archive, srcs),
        registration_time: 0,
        nar_size: archive.len() as u64,
        ultimate: true,
        sigs: Seq::empty(),
        ca: Seq::empty(),
    }
}

impl StoreIndex {
    /// Registers one built output: hashes its archive, scans it for
    /// references to the given sources, and inserts the metadata under
    /// the output path.
    pub fn register_output(&mut self, path: String, archive: &Vec<u8>, srcs: &Vec<String>)
        requires
            old(self).wf(),
            forall|i: int|
                0 <= i < srcs.deep_view().len() ==> scannable(#[trigger] srcs.deep_view()[i]),
            archive@.len() <= u64::MAX,
        ensures
            final(self).wf(),
            final(self).map_view() =~= old(self).map_view().insert(
                path@,
                built_info(archive@, srcs.deep_view()),
            ),
            final(self).keys() == (if old(self).contains_key(path@) {
                old(self).keys()
            } else {
                old(self).keys().push(path@)
            }),
    {
        let digest = sha256_digest(archive.as_slice());
        let hash = to_hex(digest.as_slice());
        let references = scan_references(archive, srcs);
        let nar_size = archive.len() as u64;
        let info = PathInfo {
            path,
            info: PathInfoWithoutPath {
                deriver: String::new(),
                hash,
                references,
                registration_time: 0,
                nar_size,
                ultimate: true,
                sigs: Vec::new(),
                ca: String::new(),
            },
        };
        proof {
            assert(info.info@.references =~= references_of(archive@, srcs.deep_view()));
            assert(info.info@.sigs =~= Seq::<Seq<char>>::empty());
            assert(info.info@ == built_info(archive@, srcs.deep_view()));
        }
        self.insert(info);
    }
}

} // verus!
