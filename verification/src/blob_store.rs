//! Content-addressed blob storage keyed by BLAKE3 hashes.

use vstd::prelude::*;
use crate::hex::{self, hex_decode_result, hex_encode_spec, HexError};
use crate::text::{
    char_range, chars_of, decimal, decimal_string, find_char, first_pos, push_char, push_str,
    split_chars, split_on, string_of,
};
use vstd::utf8::encode_utf8;
use vstd::string::StringSliceAdditionalSpecFns;
use std::collections::HashMap;

verus! {

/// What `blake3::hash` returns for `data`: its 32-byte BLAKE3 digest.
pub uninterp spec fn blake3_digest_of(data: Seq<u8>) -> [u8; 32];

/// The bytes of the BLAKE3 digest of `data`.
pub open spec fn blake3_hash(data: Seq<u8>) -> Seq<u8> {
    blake3_digest_of(data)@
}

/// Calls `blake3::hash` and returns the digest bytes. The contract claims only that the
/// result is the BLAKE3 digest of `data`; the digest itself is not stated.
#[verifier::external_body]
fn blake3_digest(data: &[u8]) -> (r: [u8; 32])
    ensures
        r == blake3_digest_of(data@),
{
    *blake3::hash(data).as_bytes()
}

#[verifier::external_type_specification]
#[verifier::external_body]
pub struct ExBlake3Hasher(blake3::Hasher);

/// The bytes fed so far to an incremental BLAKE3 hasher.
pub uninterp spec fn hasher_input(h: blake3::Hasher) -> Seq<u8>;

/// Whether a hasher is in the state that `Hasher::new` leaves and `Hasher::update` keeps: the
/// regular hash function (not keyed, not key derivation), with no input offset set. Other
/// hashers finalize to other values, or refuse to update.
pub uninterp spec fn hasher_regular(h: blake3::Hasher) -> bool;

/// `blake3::Hasher::new`: a hasher for the regular hash function that has been fed nothing.
#[verifier::external_body]
pub(crate) fn hasher_new() -> (r: blake3::Hasher)
    ensures
        hasher_regular(r),
        hasher_input(r) == Seq::<u8>::empty(),
{
    blake3::Hasher::new()
}

/// `blake3::Hasher::update`: feeds `data` after what the hasher was fed before.
#[verifier::external_body]
pub(crate) fn hasher_update(h: &mut blake3::Hasher, data: &[u8])
    requires
        hasher_regular(*old(h)),
    ensures
        hasher_regular(*final(h)),
        hasher_input(*final(h)) == hasher_input(*old(h)) + data@,
{
    h.update(data);
}

/// `blake3::Hasher::finalize`: the hash of everything fed, which the crate documents to be
/// what `blake3::hash` returns for those bytes taken at once.
#[verifier::external_body]
pub(crate) fn hasher_finalize(h: &blake3::Hasher) -> (r: [u8; 32])
    requires
        hasher_regular(*h),
    ensures
        r@ == blake3_hash(hasher_input(*h)),
{
    *h.finalize().as_bytes()
}

/// What `blake3::derive_key` returns for `context` and `material`.
pub uninterp spec fn blake3_derive_key(context: Seq<char>, material: Seq<u8>) -> Seq<u8>;

/// `blake3::derive_key`: the 32-byte key derived from `material` in the given context.
#[verifier::external_body]
pub(crate) fn derive_key(context: &str, material: &[u8]) -> (r: [u8; 32])
    ensures
        r@ == blake3_derive_key(context@, material@),
{
    blake3::derive_key(context, material)
}

/// A BLAKE3 hash that names content-addressed data.
#[derive(Debug, Clone, Copy, PartialEq, Eq, Hash)]
pub struct BlobHash(pub [u8; 32]);

/// Why a hash could not be read from its hex form.
#[derive(Debug, Clone, Copy, PartialEq, Eq)]
pub enum BlobHashError {
    Hex(HexError),
    /// The digits stood for this many bytes instead of 32.
    InvalidLength(usize),
}

/// The text a [`BlobHashError`] is reported with.
pub open spec fn blob_hash_error_text(e: BlobHashError) -> Seq<char> {
    match e {
        BlobHashError::Hex(HexError::OddLength) => "Invalid hex string length"@,
        BlobHashError::Hex(HexError::InvalidChar) => "Invalid hex character"@,
        BlobHashError::InvalidLength(n) => "Invalid hash length: expected 32 bytes, got "@ + decimal(
            n as nat,
        ),
    }
}

impl BlobHashError {
    /// The error's text.
    pub fn message(&self) -> (r: String)
        ensures
            r@ == blob_hash_error_text(*self),
    {
        match self {
            BlobHashError::Hex(HexError::OddLength) => "Invalid hex string length".to_owned(),
            BlobHashError::Hex(HexError::InvalidChar) => "Invalid hex character".to_owned(),
            BlobHashError::InvalidLength(n) => {
                let mut out = "Invalid hash length: expected 32 bytes, got ".to_owned();
                let d = decimal_string(*n as u64);
                push_str(&mut out, d.as_str());
                out
            },
        }
    }
}

/// What parsing the bytes `b` of a hex string into a hash gives.
pub open spec fn hash_from_hex_result(b: Seq<u8>) -> Result<Seq<u8>, BlobHashError> {
    match hex_decode_result(b) {
        Err(e) => Err(BlobHashError::Hex(e)),
        Ok(v) => if v.len() == 32 {
            Ok(v)
        } else {
            Err(BlobHashError::InvalidLength(v.len() as usize))
        },
    }
}

impl BlobHash {
    /// Whether both hashes hold the same bytes.
    pub fn same_as(&self, other: &BlobHash) -> (r: bool)
        ensures
            r == (self.0@ == other.0@),
    {
        let mut i: usize = 0;
        while i < 32
            invariant
                0 <= i <= 32,
                forall|j: int| 0 <= j < i ==> self.0@[j] == other.0@[j],
            decreases 32 - i,
        {
            if self.0[i] != other.0[i] {
                return false;
            }
            i = i + 1;
        }
        assert(self.0@ =~= other.0@);
        true
    }

    /// The BLAKE3 hash of `bytes`.
    pub fn from_bytes(bytes: &[u8]) -> (r: BlobHash)
        ensures
            r.0@ == blake3_hash(bytes@),
    {
        BlobHash(blake3_digest(bytes))
    }

    /// 64 lowercase hex digits.
    pub fn to_hex(&self) -> (r: String)
        ensures
            r@ == hex_encode_spec(self.0@),
    {
        hex::encode(&self.0)
    }

    /// Parses 64 hex digits (either case) back into a hash.
    pub fn from_hex(s: &str) -> (r: Result<BlobHash, BlobHashError>)
        ensures
            match hash_from_hex_result(s.spec_bytes()) {
                Ok(v) => r is Ok && (r->Ok_0).0@ == v,
                Err(e) => r == Err::<BlobHash, BlobHashError>(e),
            },
    {
        let bytes = match hex::decode(s) {
            Ok(b) => b,
            Err(e) => return Err(BlobHashError::Hex(e)),
        };
        if bytes.len() != 32 {
            return Err(BlobHashError::InvalidLength(bytes.len()));
        }
        let mut arr = [0u8; 32];
        let mut i: usize = 0;
        while i < 32
            invariant
                bytes@.len() == 32,
                0 <= i <= 32,
                forall|j: int| 0 <= j < i ==> arr@[j] == bytes@[j],
            decreases 32 - i,
        {
            arr[i] = bytes[i];
            i = i + 1;
        }
        assert(arr@ =~= bytes@);
        Ok(BlobHash(arr))
    }
}

/// The plain values a [`BlobInfo`] holds.
pub struct BlobInfoModel {
    pub hash: Seq<u8>,
    pub size: nat,
    pub name: Seq<char>,
}

/// The plain values a [`Blob`] holds.
pub struct BlobModel {
    pub info: BlobInfoModel,
    pub data: Seq<u8>,
}

/// Metadata about a stored blob.
#[derive(Debug, Clone)]
pub struct BlobInfo {
    pub hash: BlobHash,
    pub size: u64,
    pub name: String,
}

impl View for BlobInfo {
    type V = BlobInfoModel;

    open spec fn view(&self) -> BlobInfoModel {
        BlobInfoModel { hash: self.hash.0@, size: self.size as nat, name: self.name@ }
    }
}

impl BlobInfo {
    /// A copy holding the same values.
    pub fn duplicate(&self) -> (r: BlobInfo)
        ensures
            r@ == self@,
    {
        BlobInfo { hash: self.hash, size: self.size, name: self.name.clone() }
    }
}

/// A blob with its data and metadata.
#[derive(Debug, Clone)]
pub struct Blob {
    pub info: BlobInfo,
    pub data: Vec<u8>,
}

impl View for Blob {
    type V = BlobModel;

    open spec fn view(&self) -> BlobModel {
        BlobModel { info: self.info@, data: self.data@ }
    }
}

/// The blob that `name` and `data` make: hashed with BLAKE3, sized in bytes.
pub open spec fn blob_model(name: Seq<char>, data: Seq<u8>) -> BlobModel {
    BlobModel {
        info: BlobInfoModel { hash: blake3_hash(data), size: data.len(), name },
        data,
    }
}

impl Blob {
    /// A new blob whose hash is the BLAKE3 hash of `data`.
    pub fn new(name: String, data: Vec<u8>) -> (r: Blob)
        ensures
            r@ == blob_model(name@, data@),
    {
        let hash = BlobHash::from_bytes(&data);
        let size = data.len() as u64;
        Blob { info: BlobInfo { hash, size, name }, data }
    }

    /// The content hash.
    pub fn hash(&self) -> (r: BlobHash)
        ensures
            r == self.info.hash,
    {
        self.info.hash
    }

    /// Whether the data still hashes to the recorded hash.
    pub fn verify(&self) -> (r: bool)
        ensures
            r == (blake3_hash(self.data@) == self.info.hash.0@),
    {
        BlobHash::from_bytes(&self.data).same_as(&self.info.hash)
    }

    /// A copy holding the same values.
    pub fn duplicate(&self) -> (r: Blob)
        ensures
            r@ == self@,
    {
        let data = self.data.clone();
        assert(data@ =~= self.data@);
        Blob { info: self.info.duplicate(), data }
    }
}

/// No two entries share a hash.
pub open spec fn distinct_hashes(s: Seq<BlobModel>) -> bool {
    forall|i: int, j: int|
        0 <= i < s.len() && 0 <= j < s.len() && i != j ==> s[i].info.hash != s[j].info.hash
}

/// Every entry is keyed by the BLAKE3 hash of its data and sized by its length.
pub open spec fn entries_well_formed(s: Seq<BlobModel>) -> bool {
    &&& distinct_hashes(s)
    &&& forall|i: int|
        0 <= i < s.len() ==> (#[trigger] s[i]).info.hash == blake3_hash(s[i].data)
            && s[i].info.size == s[i].data.len()
}

/// Whether some entry is keyed by `h`.
pub open spec fn holds_hash(s: Seq<BlobModel>, h: Seq<u8>) -> bool {
    exists|i: int| 0 <= i < s.len() && (#[trigger] s[i]).info.hash == h
}

/// The position of the entry keyed by `h`, where there is one.
pub open spec fn index_of_hash(s: Seq<BlobModel>, h: Seq<u8>) -> int {
    choose|i: int| 0 <= i < s.len() && (#[trigger] s[i]).info.hash == h
}

/// The entries after storing `m`: it replaces the entry with its hash, or comes last.
pub open spec fn add_entry(s: Seq<BlobModel>, m: BlobModel) -> Seq<BlobModel> {
    if holds_hash(s, m.info.hash) {
        s.update(index_of_hash(s, m.info.hash), m)
    } else {
        s.push(m)
    }
}

/// The sum of the sizes of the entries.
pub open spec fn total_bytes(s: Seq<BlobModel>) -> int
    decreases s.len(),
{
    if s.len() == 0 {
        0
    } else {
        total_bytes(s.drop_last()) + s.last().info.size
    }
}

proof fn lemma_total_bytes_prefix(s: Seq<BlobModel>, i: int)
    requires
        0 <= i <= s.len(),
    ensures
        total_bytes(s.take(i)) <= total_bytes(s),
    decreases s.len() - i,
{
    if i < s.len() {
        lemma_total_bytes_prefix(s, i + 1);
        assert(s.take(i + 1).drop_last() =~= s.take(i));
    } else {
        assert(s.take(i) =~= s);
    }
}

proof fn lemma_index_of_hash(s: Seq<BlobModel>, h: Seq<u8>, k: int)
    requires
        distinct_hashes(s),
        0 <= k < s.len(),
        s[k].info.hash == h,
    ensures
        holds_hash(s, h),
        index_of_hash(s, h) == k,
{
    assert(holds_hash(s, h));
}

/// In-memory store of blobs, keyed by their hashes, in the order they were first added.
#[derive(Debug, Clone)]
pub struct BlobStore {
    blobs: Vec<Blob>,
}

impl View for BlobStore {
    type V = Seq<BlobModel>;

    closed spec fn view(&self) -> Seq<BlobModel> {
        self.blobs@.map_values(|b: Blob| b@)
    }
}

impl BlobStore {
    /// Whether the entries are well formed.
    pub open spec fn wf(&self) -> bool {
        entries_well_formed(self@)
    }

    /// An empty store.
    pub fn new() -> (r: BlobStore)
        ensures
            r@ == Seq::<BlobModel>::empty(),
            r.wf(),
    {
        let r = BlobStore { blobs: Vec::new() };
        assert(r@ =~= Seq::<BlobModel>::empty());
        r
    }

    fn find(&self, hash: &BlobHash) -> (r: Option<usize>)
        requires
            self.wf(),
        ensures
            match r {
                Some(i) => i < self@.len() && self@[i as int].info.hash == hash.0@
                    && index_of_hash(self@, hash.0@) == i,
                None => !holds_hash(self@, hash.0@),
            },
    {
        let mut i: usize = 0;
        while i < self.blobs.len()
            invariant
                self.wf(),
                i <= self.blobs@.len(),
                self@.len() == self.blobs@.len(),
                forall|j: int| 0 <= j < i ==> self@[j].info.hash != hash.0@,
            decreases self.blobs@.len() - i,
        {
            assert(self@[i as int] == self.blobs@[i as int]@);
            if self.blobs[i].info.hash.same_as(hash) {
                proof {
                    lemma_index_of_hash(self@, hash.0@, i as int);
                }
                return Some(i);
            }
            i = i + 1;
        }
        None
    }

    /// Stores a blob made of `name` and `data`, replacing any blob with the same hash, and
    /// returns its hash.
    pub fn add(&mut self, name: String, data: Vec<u8>) -> (r: BlobHash)
        requires
            old(self).wf(),
        ensures
            r.0@ == blake3_hash(data@),
            final(self).wf(),
            final(self)@ == add_entry(old(self)@, blob_model(name@, data@)),
    {
        let blob = Blob::new(name, data);
        let hash = blob.hash();
        let ghost m = blob@;
        match self.find(&hash) {
            Some(i) => {
                self.blobs.set(i, blob);
                assert(self@ =~= old(self)@.update(i as int, m));
                assert(forall|j: int|
                    0 <= j < self@.len() && j != i ==> #[trigger] self@[j] == old(self)@[j]);
                assert(self@[i as int] == m);
                assert forall|a: int, b: int|
                    0 <= a < self@.len() && 0 <= b < self@.len() && a != b implies self@[a].info.hash
                    != self@[b].info.hash by {
                    if a != i && b != i {
                        assert(old(self)@[a].info.hash != old(self)@[b].info.hash);
                    } else if a == i {
                        assert(old(self)@[b].info.hash != old(self)@[a].info.hash);
                    } else {
                        assert(old(self)@[a].info.hash != old(self)@[b].info.hash);
                    }
                }
            },
            None => {
                self.blobs.push(blob);
                assert(self@ =~= old(self)@.push(m));
                assert forall|j: int| 0 <= j < old(self)@.len() implies self@[j].info.hash
                    != m.info.hash by {
                    assert(self@[j] == old(self)@[j]);
                    if self@[j].info.hash == m.info.hash {
                        assert(holds_hash(old(self)@, m.info.hash));
                    }
                }
                assert(forall|j: int|
                    0 <= j < old(self)@.len() ==> #[trigger] self@[j] == old(self)@[j]);
                assert(self@[old(self)@.len() as int] == m);
            },
        }
        hash
    }

    /// The blob with hash `hash`, if the store holds one.
    pub fn get(&self, hash: &BlobHash) -> (r: Option<Blob>)
        requires
            self.wf(),
        ensures
            holds_hash(self@, hash.0@) ==> r is Some && r->0@ == self@[index_of_hash(
                self@,
                hash.0@,
            )],
            !holds_hash(self@, hash.0@) ==> r is None,
    {
        match self.find(hash) {
            Some(i) => {
                assert(self@[i as int] == self.blobs@[i as int]@);
                Some(self.blobs[i].duplicate())
            },
            None => None,
        }
    }

    /// Whether the store holds a blob with hash `hash`.
    pub fn contains(&self, hash: &BlobHash) -> (r: bool)
        requires
            self.wf(),
        ensures
            r == holds_hash(self@, hash.0@),
    {
        self.find(hash).is_some()
    }

    /// The metadata of every blob, in store order.
    pub fn list(&self) -> (r: Vec<BlobInfo>)
        requires
            self.wf(),
        ensures
            r@.len() == self@.len(),
            forall|i: int| 0 <= i < r@.len() ==> (#[trigger] r@[i])@ == self@[i].info,
    {
        let mut out: Vec<BlobInfo> = Vec::new();
        let mut i: usize = 0;
        while i < self.blobs.len()
            invariant
                i <= self.blobs@.len(),
                self@.len() == self.blobs@.len(),
                out@.len() == i,
                forall|j: int| 0 <= j < i ==> (#[trigger] out@[j])@ == self@[j].info,
            decreases self.blobs@.len() - i,
        {
            assert(self@[i as int] == self.blobs@[i as int]@);
            out.push(self.blobs[i].info.duplicate());
            i = i + 1;
        }
        out
    }

    /// Removes and returns the blob with hash `hash`, if there is one.
    pub fn remove(&mut self, hash: &BlobHash) -> (r: Option<Blob>)
        requires
            old(self).wf(),
        ensures
            final(self).wf(),
            holds_hash(old(self)@, hash.0@) ==> r is Some && r->0@ == old(self)@[index_of_hash(
                old(self)@,
                hash.0@,
            )] && final(self)@ == old(self)@.remove(index_of_hash(old(self)@, hash.0@)),
            !holds_hash(old(self)@, hash.0@) ==> r is None && final(self)@ == old(self)@,
    {
        match self.find(hash) {
            Some(i) => {
                let b = self.blobs.remove(i);
                assert(self@ =~= old(self)@.remove(i as int));
                assert(b@ == old(self)@[i as int]);
                Some(b)
            },
            None => None,
        }
    }

    /// Removes every blob.
    pub fn clear(&mut self)
        ensures
            final(self)@ == Seq::<BlobModel>::empty(),
            final(self).wf(),
    {
        self.blobs.clear();
        assert(self@ =~= Seq::<BlobModel>::empty());
    }

    /// The sum of the sizes of all blobs.
    pub fn total_size(&self) -> (r: u64)
        requires
            self.wf(),
            total_bytes(self@) <= u64::MAX,
        ensures
            r == total_bytes(self@),
    {
        let mut acc: u64 = 0;
        let mut i: usize = 0;
        while i < self.blobs.len()
            invariant
                i <= self.blobs@.len(),
                self@.len() == self.blobs@.len(),
                total_bytes(self@) <= u64::MAX,
                acc == total_bytes(self@.take(i as int)),
            decreases self.blobs@.len() - i,
        {
            proof {
                lemma_total_bytes_prefix(self@, i + 1);
                assert(self@.take(i + 1).drop_last() =~= self@.take(i as int));
                assert(self@[i as int] == self.blobs@[i as int]@);
            }
            acc = acc + self.blobs[i].info.size;
            i = i + 1;
        }
        assert(self@.take(i as int) =~= self@);
        acc
    }

    /// Every blob as a `(name, data)` pair, in store order.
    pub fn get_all_files(&self) -> (r: Vec<(String, Vec<u8>)>)
        requires
            self.wf(),
        ensures
            r@.len() == self@.len(),
            forall|i: int|
                0 <= i < r@.len() ==> (#[trigger] r@[i]).0@ == self@[i].info.name && r@[i].1@
                    == self@[i].data,
    {
        let mut out: Vec<(String, Vec<u8>)> = Vec::new();
        let mut i: usize = 0;
        while i < self.blobs.len()
            invariant
                i <= self.blobs@.len(),
                self@.len() == self.blobs@.len(),
                out@.len() == i,
                forall|j: int|
                    0 <= j < i ==> (#[trigger] out@[j]).0@ == self@[j].info.name && out@[j].1@
                        == self@[j].data,
            decreases self.blobs@.len() - i,
        {
            assert(self@[i as int] == self.blobs@[i as int]@);
            let b = self.blobs[i].duplicate();
            out.push((b.info.name, b.data));
            i = i + 1;
        }
        out
    }
}

/// Chunk groups of `2^4` BLAKE3 chunks, that is 16 KiB, as iroh-blobs uses.
pub const BLOCK_CHUNK_LOG: u8 = 4;

/// The bytes in one block: 16 KiB.
pub open spec fn block_bytes_spec() -> int {
    16384
}

/// What `PreOrderMemOutboard::create` builds from `data` at block size `2^chunk_log` KiB:
/// the root hash and the outboard bytes.
pub uninterp spec fn bao_outboard_of(data: Seq<u8>, chunk_log: u8) -> (Seq<u8>, Seq<u8>);

/// Builds a Bao outboard with `bao_tree::io::outboard::PreOrderMemOutboard::create` and
/// returns its root hash and hash-pair bytes. The contract states only that both come from
/// that call on `data` and the block size; neither is written out.
#[verifier::external_body]
fn bao_outboard(data: &[u8], chunk_log: u8) -> (r: ([u8; 32], Vec<u8>))
    requires
        chunk_log <= 16,
    ensures
        (r.0@, r.1@) == bao_outboard_of(data@, chunk_log),
{
    let block = bao_tree::BlockSize::from_chunk_log(chunk_log);
    let outboard = bao_tree::io::outboard::PreOrderMemOutboard::create(data, block);
    (*outboard.root.as_bytes(), outboard.data)
}

/// `BlockSize::from_chunk_log(chunk_log).bytes()`: 1024 bytes shifted left by `chunk_log`.
#[verifier::external_body]
fn block_size_bytes(chunk_log: u8) -> (r: usize)
    requires
        chunk_log == BLOCK_CHUNK_LOG,
    ensures
        r == block_bytes_spec(),
{
    bao_tree::BlockSize::from_chunk_log(chunk_log).bytes()
}

/// The number of 1 KiB BLAKE3 chunks that `size` bytes cover: `size / 1024` rounded up.
pub open spec fn chunks_covering(size: int) -> int {
    size / 1024 + if size % 1024 == 0 {
        0int
    } else {
        1int
    }
}

/// `BaoTree::new(size, block).chunks()`, which the crate documents as the number of 1 KiB
/// chunks that `size` bytes cover (1024 bytes is one chunk, 1025 bytes two).
#[verifier::external_body]
fn bao_tree_chunks(size: u64, chunk_log: u8) -> (r: u64)
    requires
        chunk_log <= 16,
    ensures
        r == chunks_covering(size as int),
{
    bao_tree::BaoTree::new(size, bao_tree::BlockSize::from_chunk_log(chunk_log)).chunks().0
}

/// The plain values a [`BaoBlob`] holds.
pub struct BaoModel {
    pub hash: Seq<u8>,
    pub data: Seq<u8>,
    pub outboard: Seq<u8>,
    pub name: Seq<char>,
}

/// A blob with its Bao tree outboard, for verified streaming.
#[derive(Debug, Clone)]
pub struct BaoBlob {
    /// The content hash (root of the Bao tree).
    pub hash: BlobHash,
    pub data: Vec<u8>,
    /// The Bao tree outboard (hash pairs).
    pub outboard: Vec<u8>,
    pub name: String,
}

impl View for BaoBlob {
    type V = BaoModel;

    open spec fn view(&self) -> BaoModel {
        BaoModel {
            hash: self.hash.0@,
            data: self.data@,
            outboard: self.outboard@,
            name: self.name@,
        }
    }
}

/// The Bao blob that `name` and `data` make.
pub open spec fn bao_model(name: Seq<char>, data: Seq<u8>) -> BaoModel {
    BaoModel {
        hash: bao_outboard_of(data, BLOCK_CHUNK_LOG).0,
        data,
        outboard: bao_outboard_of(data, BLOCK_CHUNK_LOG).1,
        name,
    }
}

/// Where block `index` starts in a blob.
pub open spec fn block_start(index: int) -> int {
    index * block_bytes_spec()
}

/// The bytes of block `index` of `data`, if it starts inside `data`.
pub open spec fn block_of(data: Seq<u8>, index: int) -> Option<Seq<u8>> {
    let start = block_start(index);
    if start >= data.len() {
        None
    } else {
        let end = if start + block_bytes_spec() <= data.len() {
            start + block_bytes_spec()
        } else {
            data.len() as int
        };
        Some(data.subrange(start, end))
    }
}

fn slice_range(data: &[u8], start: usize, end: usize) -> (r: Vec<u8>)
    requires
        start <= end <= data@.len(),
    ensures
        r@ == data@.subrange(start as int, end as int),
{
    let mut out: Vec<u8> = Vec::new();
    let mut i = start;
    while i < end
        invariant
            start <= i <= end,
            end <= data@.len(),
            out@ == data@.subrange(start as int, i as int),
        decreases end - i,
    {
        out.push(data[i]);
        assert(out@ =~= data@.subrange(start as int, i + 1));
        i = i + 1;
    }
    out
}

fn slices_equal(a: &[u8], b: &[u8], start: usize, end: usize) -> (r: bool)
    requires
        start <= end <= b@.len(),
    ensures
        r == (a@ == b@.subrange(start as int, end as int)),
{
    if a.len() != end - start {
        return false;
    }
    let mut i: usize = 0;
    while i < a.len()
        invariant
            a@.len() == end - start,
            start <= end <= b@.len(),
            i <= a@.len(),
            forall|j: int| 0 <= j < i ==> a@[j] == b@[start + j],
        decreases a@.len() - i,
    {
        if a[i] != b[start + i] {
            assert(a@[i as int] != b@.subrange(start as int, end as int)[i as int]);
            return false;
        }
        i = i + 1;
    }
    assert(a@ =~= b@.subrange(start as int, end as int));
    true
}

impl BaoBlob {
    /// Builds the Bao tree of `data` with 16 KiB blocks.
    pub fn new(name: String, data: Vec<u8>) -> (r: BaoBlob)
        ensures
            r@ == bao_model(name@, data@),
    {
        let (root, outboard) = bao_outboard(&data, BLOCK_CHUNK_LOG);
        BaoBlob { hash: BlobHash(root), data, outboard, name }
    }

    /// The number of 1 KiB chunks of the Bao tree over this blob's data.
    pub fn chunk_count(&self) -> (r: u64)
        ensures
            r == chunks_covering(self.data@.len() as int),
    {
        bao_tree_chunks(self.data.len() as u64, BLOCK_CHUNK_LOG)
    }

    fn block_range(&self, index: u64) -> (r: Option<(usize, usize)>)
        requires
            index * block_bytes_spec() <= u64::MAX,
        ensures
            match r {
                Some((start, end)) => block_of(self.data@, index as int) == Some(
                    self.data@.subrange(start as int, end as int),
                ) && start <= end <= self.data@.len(),
                None => block_of(self.data@, index as int) is None,
            },
    {
        let chunk_size = block_size_bytes(BLOCK_CHUNK_LOG) as u64;
        let start = index * chunk_size;
        let len = self.data.len() as u64;
        if start >= len {
            return None;
        }
        let end = if len - start >= chunk_size {
            start + chunk_size
        } else {
            len
        };
        Some((start as usize, end as usize))
    }

    /// Block `index` (16 KiB, the last one shorter), if it starts inside the data.
    pub fn get_chunk(&self, index: u64) -> (r: Option<Vec<u8>>)
        requires
            index * block_bytes_spec() <= u64::MAX,
        ensures
            match block_of(self.data@, index as int) {
                Some(b) => r is Some && r->0@ == b,
                None => r is None,
            },
    {
        match self.block_range(index) {
            Some((start, end)) => Some(slice_range(&self.data, start, end)),
            None => None,
        }
    }

    /// Whether `chunk_data` is exactly block `index` of this blob.
    pub fn verify_chunk(&self, index: u64, chunk_data: &[u8]) -> (r: bool)
        requires
            index * block_bytes_spec() <= u64::MAX,
        ensures
            r == (block_of(self.data@, index as int) == Some(chunk_data@)),
    {
        match self.block_range(index) {
            Some((start, end)) => slices_equal(chunk_data, &self.data, start, end),
            None => false,
        }
    }

    /// The BLAKE3 hash of block `index`, if it starts inside the data.
    pub fn chunk_hash(&self, index: u64) -> (r: Option<BlobHash>)
        requires
            index * block_bytes_spec() <= u64::MAX,
        ensures
            match block_of(self.data@, index as int) {
                Some(b) => r is Some && (r->0).0@ == blake3_hash(b),
                None => r is None,
            },
    {
        match self.get_chunk(index) {
            Some(c) => Some(BlobHash::from_bytes(&c)),
            None => None,
        }
    }

    /// A copy holding the same values.
    pub fn duplicate(&self) -> (r: BaoBlob)
        ensures
            r@ == self@,
    {
        let data = self.data.clone();
        let outboard = self.outboard.clone();
        assert(data@ =~= self.data@);
        assert(outboard@ =~= self.outboard@);
        BaoBlob { hash: self.hash, data, outboard, name: self.name.clone() }
    }
}

/// No two Bao entries share a hash.
pub open spec fn bao_distinct(s: Seq<BaoModel>) -> bool {
    forall|i: int, j: int| 0 <= i < s.len() && 0 <= j < s.len() && i != j ==> s[i].hash != s[j].hash
}

/// Whether some Bao entry is keyed by `h`.
pub open spec fn bao_holds(s: Seq<BaoModel>, h: Seq<u8>) -> bool {
    exists|i: int| 0 <= i < s.len() && (#[trigger] s[i]).hash == h
}

/// The position of the Bao entry keyed by `h`, where there is one.
pub open spec fn bao_index(s: Seq<BaoModel>, h: Seq<u8>) -> int {
    choose|i: int| 0 <= i < s.len() && (#[trigger] s[i]).hash == h
}

/// The Bao entries after storing `m`: it replaces the entry with its hash, or comes last.
pub open spec fn bao_add_entry(s: Seq<BaoModel>, m: BaoModel) -> Seq<BaoModel> {
    if bao_holds(s, m.hash) {
        s.update(bao_index(s, m.hash), m)
    } else {
        s.push(m)
    }
}

/// The sum of the chunk counts of the Bao entries.
pub open spec fn total_chunks_of(s: Seq<BaoModel>) -> int
    decreases s.len(),
{
    if s.len() == 0 {
        0
    } else {
        total_chunks_of(s.drop_last()) + chunks_covering(s.last().data.len() as int)
    }
}

proof fn lemma_total_chunks_prefix(s: Seq<BaoModel>, i: int)
    requires
        0 <= i <= s.len(),
    ensures
        total_chunks_of(s.take(i)) <= total_chunks_of(s),
    decreases s.len() - i,
{
    if i < s.len() {
        lemma_total_chunks_prefix(s, i + 1);
        assert(s.take(i + 1).drop_last() =~= s.take(i));
        assert(chunks_covering(s[i].data.len() as int) >= 0);
    } else {
        assert(s.take(i) =~= s);
    }
}

/// The hash, size and name of a Bao blob.
pub open spec fn bao_info(m: BaoModel) -> BlobInfoModel {
    BlobInfoModel { hash: m.hash, size: m.data.len(), name: m.name }
}

/// Store of Bao blobs keyed by their root hashes, in the order they were first added.
#[derive(Debug, Clone)]
pub struct BaoStore {
    blobs: Vec<BaoBlob>,
}

impl View for BaoStore {
    type V = Seq<BaoModel>;

    closed spec fn view(&self) -> Seq<BaoModel> {
        self.blobs@.map_values(|b: BaoBlob| b@)
    }
}

impl BaoStore {
    /// Whether no two entries share a hash.
    pub open spec fn wf(&self) -> bool {
        bao_distinct(self@)
    }

    /// An empty store.
    pub fn new() -> (r: BaoStore)
        ensures
            r@ == Seq::<BaoModel>::empty(),
            r.wf(),
    {
        let r = BaoStore { blobs: Vec::new() };
        assert(r@ =~= Seq::<BaoModel>::empty());
        r
    }

    fn find(&self, hash: &BlobHash) -> (r: Option<usize>)
        requires
            self.wf(),
        ensures
            match r {
                Some(i) => i < self@.len() && self@[i as int].hash == hash.0@ && bao_index(
                    self@,
                    hash.0@,
                ) == i,
                None => !bao_holds(self@, hash.0@),
            },
    {
        let mut i: usize = 0;
        while i < self.blobs.len()
            invariant
                self.wf(),
                i <= self.blobs@.len(),
                self@.len() == self.blobs@.len(),
                forall|j: int| 0 <= j < i ==> self@[j].hash != hash.0@,
            decreases self.blobs@.len() - i,
        {
            assert(self@[i as int] == self.blobs@[i as int]@);
            if self.blobs[i].hash.same_as(hash) {
                assert(bao_holds(self@, hash.0@));
                return Some(i);
            }
            i = i + 1;
        }
        None
    }

    /// Builds the Bao tree of `data`, stores the blob (replacing any with the same hash) and
    /// returns a copy of it.
    pub fn add(&mut self, name: String, data: Vec<u8>) -> (r: BaoBlob)
        requires
            old(self).wf(),
        ensures
            r@ == bao_model(name@, data@),
            final(self).wf(),
            final(self)@ == bao_add_entry(old(self)@, bao_model(name@, data@)),
    {
        let blob = BaoBlob::new(name, data);
        let result = blob.duplicate();
        let ghost m = blob@;
        let hash = blob.hash;
        match self.find(&hash) {
            Some(i) => {
                self.blobs.set(i, blob);
                assert(self@ =~= old(self)@.update(i as int, m));
                assert forall|a: int, b: int|
                    0 <= a < self@.len() && 0 <= b < self@.len() && a != b implies self@[a].hash
                    != self@[b].hash by {
                    assert(old(self)@[a].hash != old(self)@[b].hash);
                }
            },
            None => {
                self.blobs.push(blob);
                assert(self@ =~= old(self)@.push(m));
                assert forall|a: int, b: int|
                    0 <= a < self@.len() && 0 <= b < self@.len() && a != b implies self@[a].hash
                    != self@[b].hash by {
                    if a < old(self)@.len() && b < old(self)@.len() {
                        assert(old(self)@[a].hash != old(self)@[b].hash);
                    } else if a < old(self)@.len() {
                        assert(old(self)@[a] == self@[a]);
                    } else {
                        assert(old(self)@[b] == self@[b]);
                    }
                }
            },
        }
        result
    }

    /// The Bao blob with hash `hash`, if the store holds one.
    pub fn get(&self, hash: &BlobHash) -> (r: Option<BaoBlob>)
        requires
            self.wf(),
        ensures
            bao_holds(self@, hash.0@) ==> r is Some && r->0@ == self@[bao_index(self@, hash.0@)],
            !bao_holds(self@, hash.0@) ==> r is None,
    {
        match self.find(hash) {
            Some(i) => {
                assert(self@[i as int] == self.blobs@[i as int]@);
                Some(self.blobs[i].duplicate())
            },
            None => None,
        }
    }

    /// Whether the store holds a blob with hash `hash`.
    pub fn contains(&self, hash: &BlobHash) -> (r: bool)
        requires
            self.wf(),
        ensures
            r == bao_holds(self@, hash.0@),
    {
        self.find(hash).is_some()
    }

    /// The hash, size and name of every blob, in store order.
    pub fn list(&self) -> (r: Vec<BlobInfo>)
        ensures
            r@.len() == self@.len(),
            forall|i: int|
                0 <= i < r@.len() ==> (#[trigger] r@[i])@ == bao_info(self@[i]),
    {
        let mut out: Vec<BlobInfo> = Vec::new();
        let mut i: usize = 0;
        while i < self.blobs.len()
            invariant
                i <= self.blobs@.len(),
                self@.len() == self.blobs@.len(),
                out@.len() == i,
                forall|j: int|
                    0 <= j < i ==> (#[trigger] out@[j])@ == bao_info(self@[j]),
            decreases self.blobs@.len() - i,
        {
            assert(self@[i as int] == self.blobs@[i as int]@);
            let b = &self.blobs[i];
            out.push(BlobInfo { hash: b.hash, size: b.data.len() as u64, name: b.name.clone() });
            i = i + 1;
        }
        out
    }

    /// The sum of the chunk counts of all blobs.
    pub fn total_chunks(&self) -> (r: u64)
        requires
            total_chunks_of(self@) <= u64::MAX,
        ensures
            r == total_chunks_of(self@),
    {
        let mut acc: u64 = 0;
        let mut i: usize = 0;
        while i < self.blobs.len()
            invariant
                i <= self.blobs@.len(),
                self@.len() == self.blobs@.len(),
                total_chunks_of(self@) <= u64::MAX,
                acc == total_chunks_of(self@.take(i as int)),
            decreases self.blobs@.len() - i,
        {
            proof {
                lemma_total_chunks_prefix(self@, i + 1);
                assert(self@.take(i + 1).drop_last() =~= self@.take(i as int));
                assert(self@[i as int] == self.blobs@[i as int]@);
            }
            acc = acc + self.blobs[i].chunk_count();
            i = i + 1;
        }
        assert(self@.take(i as int) =~= self@);
        acc
    }
}

/// How many 16 KiB blocks `size` bytes take.
pub open spec fn blocks_for(size: int) -> int {
    (size + block_bytes_spec() - 1) / block_bytes_spec()
}

/// The block indices below `n` that `have` lacks, in increasing order.
pub open spec fn missing_upto(have: Set<u64>, n: nat) -> Seq<u64>
    decreases n,
{
    if n == 0 {
        seq![]
    } else {
        let k = (n - 1) as nat;
        missing_upto(have, k) + if have.contains(k as u64) {
            seq![]
        } else {
            seq![k as u64]
        }
    }
}

/// The blocks of `have` below index `n`.
pub open spec fn held_below(have: Set<u64>, n: nat) -> Set<u64> {
    have.filter(|k: u64| k < n)
}

proof fn lemma_missing_count(have: Set<u64>, n: nat)
    requires
        have.finite(),
        n <= u64::MAX + 1,
    ensures
        held_below(have, n).finite(),
        held_below(have, n).len() + missing_upto(have, n).len() == n,
    decreases n,
{
    if n == 0 {
        assert(held_below(have, 0) =~= Set::<u64>::empty());
    } else {
        let k = (n - 1) as nat;
        lemma_missing_count(have, k);
        if have.contains(k as u64) {
            assert(!held_below(have, k).contains(k as u64));
            assert(held_below(have, n) =~= held_below(have, k).insert(k as u64));
        } else {
            assert(held_below(have, n) =~= held_below(have, k));
        }
    }
}

/// Blocks that all lie below the block count make the receiver complete exactly when no
/// block is missing.
pub proof fn lemma_complete_iff_none_missing(chunks: Map<u64, Vec<u8>>, total: u64)
    requires
        chunks.dom().finite(),
        forall|k: u64| #[trigger] chunks.dom().contains(k) ==> k < total,
    ensures
        (chunks.len() == total) <==> missing_upto(chunks.dom(), total as nat).len() == 0,
{
    lemma_missing_count(chunks.dom(), total as nat);
    assert(held_below(chunks.dom(), total as nat) =~= chunks.dom());
}

/// The smallest block index below `n` that `have` lacks.
pub open spec fn first_missing(have: Set<u64>, n: nat) -> Option<u64>
    decreases n,
{
    if n == 0 {
        None
    } else {
        let k = (n - 1) as nat;
        match first_missing(have, k) {
            Some(i) => Some(i),
            None => if have.contains(k as u64) {
                None
            } else {
                Some(k as u64)
            },
        }
    }
}

proof fn lemma_first_missing_stays(have: Set<u64>, n: nat, m: nat)
    requires
        n <= m,
        first_missing(have, n) is Some,
    ensures
        first_missing(have, m) == first_missing(have, n),
    decreases m - n,
{
    if n < m {
        lemma_first_missing_stays(have, n, (m - 1) as nat);
    }
}

/// Blocks `0..n` of `m` laid end to end.
pub open spec fn concat_blocks(m: Map<u64, Vec<u8>>, n: nat) -> Seq<u8>
    decreases n,
{
    if n == 0 {
        seq![]
    } else {
        let k = (n - 1) as nat;
        concat_blocks(m, k) + m[k as u64]@
    }
}

/// Why received blocks could not be assembled into the expected blob.
#[derive(Debug, Clone, Copy, PartialEq, Eq)]
pub enum AssembleError {
    /// This many blocks have not arrived yet.
    Missing(usize),
    /// Enough blocks arrived, but not this one.
    MissingChunk(u64),
    /// The assembled data hashed to `computed` instead of `expected`.
    HashMismatch { expected: BlobHash, computed: BlobHash },
}

/// The text an [`AssembleError`] is reported with.
pub open spec fn assemble_error_text(e: AssembleError) -> Seq<char> {
    match e {
        AssembleError::Missing(n) => "Missing "@ + decimal(n as nat) + " chunks"@,
        AssembleError::MissingChunk(i) => "Missing chunk "@ + decimal(i as nat),
        AssembleError::HashMismatch { expected, computed } => "Hash mismatch: expected "@
            + hex_encode_spec(expected.0@) + ", got "@ + hex_encode_spec(computed.0@),
    }
}

impl AssembleError {
    /// The error's text.
    pub fn message(&self) -> (r: String)
        ensures
            r@ == assemble_error_text(*self),
    {
        match self {
            AssembleError::Missing(n) => {
                let mut out = "Missing ".to_owned();
                let d = decimal_string(*n as u64);
                push_str(&mut out, d.as_str());
                push_str(&mut out, " chunks");
                out
            },
            AssembleError::MissingChunk(i) => {
                let mut out = "Missing chunk ".to_owned();
                let d = decimal_string(*i);
                push_str(&mut out, d.as_str());
                out
            },
            AssembleError::HashMismatch { expected, computed } => {
                let mut out = "Hash mismatch: expected ".to_owned();
                let a = expected.to_hex();
                push_str(&mut out, a.as_str());
                push_str(&mut out, ", got ");
                let b = computed.to_hex();
                push_str(&mut out, b.as_str());
                out
            },
        }
    }
}

/// Receiver-side block assembler with hash verification.
#[derive(Debug)]
pub struct BaoReceiver {
    /// The expected content hash.
    pub expected_hash: BlobHash,
    /// The expected total size.
    pub expected_size: u64,
    /// Received blocks, by index.
    pub chunks: HashMap<u64, Vec<u8>>,
    /// The number of blocks expected.
    pub total_chunks: u64,
}

impl BaoReceiver {
    /// A receiver waiting for `expected_size` bytes that hash to `expected_hash`.
    pub fn new(expected_hash: BlobHash, expected_size: u64) -> (r: BaoReceiver)
        requires
            expected_size + block_bytes_spec() <= u64::MAX,
        ensures
            r.expected_hash == expected_hash,
            r.expected_size == expected_size,
            r.chunks@ == Map::<u64, Vec<u8>>::empty(),
            r.total_chunks == blocks_for(expected_size as int),
    {
        let chunk_size = block_size_bytes(BLOCK_CHUNK_LOG) as u64;
        let total_chunks = (expected_size + chunk_size - 1) / chunk_size;
        BaoReceiver { expected_hash, expected_size, chunks: HashMap::new(), total_chunks }
    }

    /// Records block `index`, unless it is past the last block.
    pub fn add_chunk(&mut self, index: u64, data: Vec<u8>) -> (r: bool)
        ensures
            r == (index < old(self).total_chunks),
            final(self).expected_hash == old(self).expected_hash,
            final(self).expected_size == old(self).expected_size,
            final(self).total_chunks == old(self).total_chunks,
            r ==> final(self).chunks@ == old(self).chunks@.insert(index, data),
            !r ==> final(self).chunks@ == old(self).chunks@,
    {
        broadcast use vstd::std_specs::hash::group_hash_axioms;

        if index >= self.total_chunks {
            return false;
        }
        self.chunks.insert(index, data);
        true
    }

    /// Whether as many blocks arrived as are expected.
    pub fn is_complete(&self) -> (r: bool)
        ensures
            r == (self.chunks@.len() == self.total_chunks),
    {
        broadcast use vstd::std_specs::hash::group_hash_axioms;

        self.chunks.len() as u64 == self.total_chunks
    }

    /// The indices of the blocks that have not arrived, in increasing order.
    pub fn missing_chunks(&self) -> (r: Vec<u64>)
        ensures
            r@ == missing_upto(self.chunks@.dom(), self.total_chunks as nat),
    {
        broadcast use vstd::std_specs::hash::group_hash_axioms;

        let mut out: Vec<u64> = Vec::new();
        let mut i: u64 = 0;
        while i < self.total_chunks
            invariant
                i <= self.total_chunks,
                out@ == missing_upto(self.chunks@.dom(), i as nat),
            decreases self.total_chunks - i,
        {
            if !self.chunks.contains_key(&i) {
                out.push(i);
            }
            assert(out@ =~= missing_upto(self.chunks@.dom(), (i + 1) as nat));
            i = i + 1;
        }
        out
    }

    /// Lays the blocks end to end, cuts the result to the expected size and checks it
    /// against the expected hash.
    pub fn assemble_and_verify(&self) -> (r: Result<Vec<u8>, AssembleError>)
        ensures
            ({
                let have = self.chunks@.dom();
                let n = self.total_chunks as nat;
                if self.chunks@.len() != self.total_chunks {
                    r == Err::<Vec<u8>, AssembleError>(
                        AssembleError::Missing(missing_upto(have, n).len() as usize),
                    )
                } else if first_missing(have, n) is Some {
                    r == Err::<Vec<u8>, AssembleError>(
                        AssembleError::MissingChunk(first_missing(have, n)->0),
                    )
                } else {
                    let all = concat_blocks(self.chunks@, n);
                    let data = if all.len() > self.expected_size {
                        all.take(self.expected_size as int)
                    } else {
                        all
                    };
                    if blake3_hash(data) == self.expected_hash.0@ {
                        r is Ok && r->Ok_0@ == data
                    } else {
                        r is Err && r->Err_0 is HashMismatch && r->Err_0->expected
                            == self.expected_hash && r->Err_0->computed.0@ == blake3_hash(data)
                    }
                }
            }),
    {
        broadcast use vstd::std_specs::hash::group_hash_axioms;

        if !self.is_complete() {
            let missing = self.missing_chunks();
            return Err(AssembleError::Missing(missing.len()));
        }
        let mut data: Vec<u8> = Vec::new();
        let mut i: u64 = 0;
        while i < self.total_chunks
            invariant
                i <= self.total_chunks,
                self.chunks@.len() == self.total_chunks,
                first_missing(self.chunks@.dom(), i as nat) is None,
                data@ == concat_blocks(self.chunks@, i as nat),
            decreases self.total_chunks - i,
        {
            match self.chunks.get(&i) {
                Some(chunk) => {
                    let ghost before = data@;
                    data.extend_from_slice(chunk.as_slice());
                    assert(data@ =~= before + chunk@);
                },
                None => {
                    proof {
                        assert(!self.chunks@.dom().contains(i));
                        assert(self.chunks@.len() == self.total_chunks);
                        assert(first_missing(self.chunks@.dom(), (i + 1) as nat) == Some(i));
                        lemma_first_missing_stays(
                            self.chunks@.dom(),
                            (i + 1) as nat,
                            self.total_chunks as nat,
                        );
                    }
                    return Err(AssembleError::MissingChunk(i));
                },
            }
            i = i + 1;
        }
        if data.len() as u64 > self.expected_size {
            data.truncate(self.expected_size as usize);
        }
        let computed = BlobHash::from_bytes(&data);
        if !computed.same_as(&self.expected_hash) {
            return Err(AssembleError::HashMismatch { expected: self.expected_hash, computed });
        }
        Ok(data)
    }
}

/// The name most recently recorded for `h` among `names`.
pub open spec fn name_lookup(names: Seq<(BlobHash, String)>, h: Seq<u8>) -> Option<Seq<char>>
    decreases names.len(),
{
    if names.len() == 0 {
        None
    } else if names.last().0.0@ == h {
        Some(names.last().1@)
    } else {
        name_lookup(names.drop_last(), h)
    }
}

/// The name written for a hash that has none.
pub open spec fn unknown_name() -> Seq<char> {
    seq!['u', 'n', 'k', 'n', 'o', 'w', 'n']
}

/// The recorded name of `h`, or `unknown`.
pub open spec fn name_or_unknown(names: Seq<(BlobHash, String)>, h: Seq<u8>) -> Seq<char> {
    match name_lookup(names, h) {
        Some(n) => n,
        None => unknown_name(),
    }
}

/// One entry of a share string: `<hex>:<name>`.
pub open spec fn share_entry(h: Seq<u8>, names: Seq<(BlobHash, String)>) -> Seq<char> {
    hex_encode_spec(h) + seq![':'] + name_or_unknown(names, h)
}

/// The entries of `hashes`, joined by commas.
pub open spec fn share_string_of(hashes: Seq<BlobHash>, names: Seq<(BlobHash, String)>) -> Seq<
    char,
>
    decreases hashes.len(),
{
    if hashes.len() == 0 {
        seq![]
    } else if hashes.len() == 1 {
        share_entry(hashes[0].0@, names)
    } else {
        share_string_of(hashes.drop_last(), names) + seq![','] + share_entry(
            hashes.last().0@,
            names,
        )
    }
}

/// One comma-separated piece of a share string, split at its first colon into the hex part
/// and the name (`unknown` when there is no colon).
pub open spec fn share_piece(p: Seq<char>) -> (Seq<char>, Seq<char>) {
    let k = first_pos(p, ':');
    (p.take(k), if k < p.len() {
        p.skip(k + 1)
    } else {
        unknown_name()
    })
}

/// The hashes and names a list of share pieces stands for, or the first error.
pub open spec fn parse_share_pieces(parts: Seq<Seq<char>>) -> Result<
    (Seq<Seq<u8>>, Seq<Seq<char>>),
    BlobHashError,
>
    decreases parts.len(),
{
    if parts.len() == 0 {
        Ok((seq![], seq![]))
    } else {
        match parse_share_pieces(parts.drop_last()) {
            Err(e) => Err(e),
            Ok((hs, ns)) => {
                let (head, name) = share_piece(parts.last());
                match hash_from_hex_result(encode_utf8(head)) {
                    Err(e) => Err(e),
                    Ok(h) => Ok((hs.push(h), ns.push(name))),
                }
            },
        }
    }
}

/// The hashes of one transfer session, with the names they were added under.
#[derive(Debug, Clone)]
pub struct BlobCollection {
    pub hashes: Vec<BlobHash>,
    /// Every `(hash, name)` pair in the order it was added; the latest pair for a hash names it.
    pub names: Vec<(BlobHash, String)>,
}

impl BlobCollection {
    /// An empty collection.
    pub fn new() -> (r: BlobCollection)
        ensures
            r.hashes@ == Seq::<BlobHash>::empty(),
            r.names@ == Seq::<(BlobHash, String)>::empty(),
    {
        BlobCollection { hashes: Vec::new(), names: Vec::new() }
    }

    /// Appends `hash` and records `name` for it.
    pub fn add(&mut self, hash: BlobHash, name: String)
        ensures
            final(self).hashes@ == old(self).hashes@.push(hash),
            final(self).names@ == old(self).names@.push((hash, name)),
    {
        self.hashes.push(hash);
        self.names.push((hash, name));
    }

    /// The name most recently recorded for `hash`.
    pub fn name_of(&self, hash: &BlobHash) -> (r: Option<String>)
        ensures
            match name_lookup(self.names@, hash.0@) {
                Some(n) => r is Some && r->0@ == n,
                None => r is None,
            },
    {
        let mut j = self.names.len();
        assert(self.names@.take(j as int) =~= self.names@);
        while j > 0
            invariant
                j <= self.names@.len(),
                name_lookup(self.names@, hash.0@) == name_lookup(
                    self.names@.take(j as int),
                    hash.0@,
                ),
            decreases j,
        {
            assert(self.names@.take(j as int).drop_last() =~= self.names@.take(j - 1));
            let (h, n) = &self.names[j - 1];
            if h.same_as(hash) {
                return Some(n.clone());
            }
            j = j - 1;
        }
        None
    }

    /// The BLAKE3 hash of all hashes laid end to end.
    pub fn collection_hash(&self) -> (r: BlobHash)
        ensures
            r.0@ == blake3_hash(concat_hashes(self.hashes@)),
    {
        let mut all: Vec<u8> = Vec::new();
        let mut i: usize = 0;
        while i < self.hashes.len()
            invariant
                i <= self.hashes@.len(),
                all@ == concat_hashes(self.hashes@.take(i as int)),
            decreases self.hashes@.len() - i,
        {
            assert(self.hashes@.take(i + 1).drop_last() =~= self.hashes@.take(i as int));
            let ghost before = all@;
            all.extend_from_slice(&self.hashes[i].0);
            assert(all@ =~= before + self.hashes@[i as int].0@);
            i = i + 1;
        }
        assert(self.hashes@.take(i as int) =~= self.hashes@);
        BlobHash::from_bytes(&all)
    }

    /// `<hex>:<name>` for every hash, joined by commas.
    pub fn to_share_string(&self) -> (r: String)
        ensures
            r@ == share_string_of(self.hashes@, self.names@),
    {
        let mut out = String::new();
        let mut i: usize = 0;
        while i < self.hashes.len()
            invariant
                i <= self.hashes@.len(),
                out@ == share_string_of(self.hashes@.take(i as int), self.names@),
            decreases self.hashes@.len() - i,
        {
            assert(self.hashes@.take(i + 1).drop_last() =~= self.hashes@.take(i as int));
            if i > 0 {
                push_char(&mut out, ',');
            }
            let h = self.hashes[i];
            let hex = h.to_hex();
            push_str(&mut out, hex.as_str());
            push_char(&mut out, ':');
            match self.name_of(&h) {
                Some(n) => push_str(&mut out, n.as_str()),
                None => {
                    proof {
                        reveal_strlit("unknown");
                    }
                    push_str(&mut out, "unknown");
                },
            }
            assert(out@ =~= share_string_of(self.hashes@.take(i + 1), self.names@));
            i = i + 1;
        }
        assert(self.hashes@.take(i as int) =~= self.hashes@);
        out
    }

    /// Reads a share string: comma-separated `<hex>:<name>` pieces, `unknown` where a piece
    /// has no colon. Fails on the first piece whose hex part is not a hash.
    pub fn from_share_string(s: &str) -> (r: Result<BlobCollection, BlobHashError>)
        ensures
            match parse_share_pieces(split_on(s@, ',')) {
                Err(e) => r == Err::<BlobCollection, BlobHashError>(e),
                Ok((hs, ns)) => r is Ok && r->Ok_0.hashes@.len() == hs.len()
                    && r->Ok_0.names@.len() == hs.len() && (forall|i: int|
                    0 <= i < hs.len() ==> (#[trigger] r->Ok_0.hashes@[i]).0@ == hs[i]
                        && r->Ok_0.names@[i].0 == r->Ok_0.hashes@[i] && r->Ok_0.names@[i].1@
                        == ns[i]),
            },
    {
        broadcast use vstd::string::to_string_from_display_ensures_for_str;

        let cs = chars_of(s);
        let parts = split_chars(&cs, ',');
        let ghost pieces = split_on(s@, ',');
        let mut collection = BlobCollection::new();
        let mut i: usize = 0;
        while i < parts.len()
            invariant
                i <= parts@.len(),
                pieces == split_on(s@, ','),
                parts@.len() == pieces.len(),
                forall|j: int| 0 <= j < parts@.len() ==> (#[trigger] parts@[j])@ == pieces[j],
                parse_share_pieces(pieces.take(i as int)) is Ok,
                ({
                    let (hs, ns) = parse_share_pieces(pieces.take(i as int))->Ok_0;
                    collection.hashes@.len() == hs.len() && collection.names@.len() == hs.len()
                        && ns.len() == hs.len() && (forall|j: int|
                        0 <= j < hs.len() ==> (#[trigger] collection.hashes@[j]).0@ == hs[j]
                            && collection.names@[j].0 == collection.hashes@[j]
                            && collection.names@[j].1@ == ns[j])
                }),
            decreases parts@.len() - i,
        {
            assert(pieces.take(i + 1).drop_last() =~= pieces.take(i as int));
            let part = &parts[i];
            let k = find_char(part.as_slice(), ':');
            let head = char_range(part.as_slice(), 0, k);
            assert(head@ == part@.take(k as int));
            let head_text = string_of(head.as_slice());
            let ghost prev = parse_share_pieces(pieces.take(i as int))->Ok_0;
            let ghost piece = share_piece(pieces[i as int]);
            assert(pieces.take(i + 1).last() == pieces[i as int]);
            assert(piece.0 == head@);
            let head_str = head_text.as_str();
            assert(head_str.spec_bytes() == encode_utf8(piece.0));
            let hash = match BlobHash::from_hex(head_str) {
                Ok(h) => h,
                Err(e) => {
                    proof {
                        assert(parse_share_pieces(pieces.take(i + 1)) == Err::<
                            (Seq<Seq<u8>>, Seq<Seq<char>>),
                            BlobHashError,
                        >(e));
                        lemma_parse_share_err(pieces, (i + 1) as int);
                    }
                    return Err(e);
                },
            };
            let name = if k < part.len() {
                let tail = char_range(part.as_slice(), k + 1, part.len());
                assert(tail@ =~= part@.skip(k + 1));
                string_of(tail.as_slice())
            } else {
                proof {
                    reveal_strlit("unknown");
                }
                "unknown".to_string()
            };
            assert(name@ == piece.1);
            let ghost before = collection;
            collection.add(hash, name);
            proof {
                let next = parse_share_pieces(pieces.take(i + 1));
                assert(next == Ok::<(Seq<Seq<u8>>, Seq<Seq<char>>), BlobHashError>(
                    (prev.0.push(hash.0@), prev.1.push(piece.1)),
                ));
                let (hs, ns) = next->Ok_0;
                assert forall|j: int| 0 <= j < hs.len() implies (#[trigger] collection.hashes@[
                    j
                ]).0@ == hs[j] && collection.names@[j].0 == collection.hashes@[j]
                    && collection.names@[j].1@ == ns[j] by {
                    if j < prev.0.len() {
                        assert(collection.hashes@[j] == before.hashes@[j]);
                        assert(collection.names@[j] == before.names@[j]);
                    }
                }
            }
            i = i + 1;
        }
        assert(pieces.take(i as int) =~= pieces);
        Ok(collection)
    }
}

/// All hashes laid end to end.
pub open spec fn concat_hashes(hashes: Seq<BlobHash>) -> Seq<u8>
    decreases hashes.len(),
{
    if hashes.len() == 0 {
        seq![]
    } else {
        concat_hashes(hashes.drop_last()) + hashes.last().0@
    }
}

proof fn lemma_parse_share_lens(pieces: Seq<Seq<char>>)
    ensures
        parse_share_pieces(pieces) is Ok ==> parse_share_pieces(pieces)->Ok_0.0.len()
            == pieces.len() && parse_share_pieces(pieces)->Ok_0.1.len() == pieces.len(),
    decreases pieces.len(),
{
    if pieces.len() > 0 {
        lemma_parse_share_lens(pieces.drop_last());
    }
}

proof fn lemma_parse_share_err(pieces: Seq<Seq<char>>, n: int)
    requires
        0 <= n <= pieces.len(),
        parse_share_pieces(pieces.take(n)) is Err,
    ensures
        parse_share_pieces(pieces) == parse_share_pieces(pieces.take(n)),
    decreases pieces.len() - n,
{
    if n < pieces.len() {
        assert(pieces.take(n + 1).drop_last() =~= pieces.take(n));
        lemma_parse_share_err(pieces, n + 1);
    } else {
        assert(pieces.take(n) =~= pieces);
    }
}

/// A hash reads back from its hex form as the same hash.
pub proof fn lemma_blob_hash_roundtrip(h: Seq<u8>)
    requires
        h.len() == 32,
    ensures
        hash_from_hex_result(vstd::utf8::encode_utf8(hex_encode_spec(h))) == Ok::<
            Seq<u8>,
            BlobHashError,
        >(h),
{
    hex::lemma_hex_roundtrip(h);
}

/// A read gives back what a write wrote: after storing a blob, the store holds its hash, and
/// the entry under that hash is the blob that was stored.
pub proof fn lemma_add_then_get(s: Seq<BlobModel>, m: BlobModel)
    requires
        entries_well_formed(s),
    ensures
        holds_hash(add_entry(s, m), m.info.hash),
        add_entry(s, m)[index_of_hash(add_entry(s, m), m.info.hash)] == m,
        add_entry(s, m).len() == s.len() + if holds_hash(s, m.info.hash) { 0int } else { 1int },
{
    let t = add_entry(s, m);
    if holds_hash(s, m.info.hash) {
        let k = index_of_hash(s, m.info.hash);
        assert(t[k] == m);
        assert(distinct_hashes(t)) by {
            assert forall|a: int, b: int| 0 <= a < t.len() && 0 <= b < t.len() && a != b implies t[a].info.hash != t[b].info.hash by {
                if a != k && b != k {
                    assert(t[a] == s[a] && t[b] == s[b]);
                } else if a == k {
                    assert(t[b] == s[b]);
                    assert(s[k].info.hash == m.info.hash);
                } else {
                    assert(t[a] == s[a]);
                    assert(s[k].info.hash == m.info.hash);
                }
            }
        }
        lemma_index_of_hash(t, m.info.hash, k);
    } else {
        let k = s.len() as int;
        assert(t[k] == m);
        assert(distinct_hashes(t)) by {
            assert forall|a: int, b: int| 0 <= a < t.len() && 0 <= b < t.len() && a != b implies t[a].info.hash != t[b].info.hash by {
                if a != k && b != k {
                    assert(t[a] == s[a] && t[b] == s[b]);
                } else if a == k {
                    assert(t[b] == s[b]);
                    if s[b].info.hash == m.info.hash {
                        assert(holds_hash(s, m.info.hash));
                    }
                } else {
                    assert(t[a] == s[a]);
                    if s[a].info.hash == m.info.hash {
                        assert(holds_hash(s, m.info.hash));
                    }
                }
            }
        }
        lemma_index_of_hash(t, m.info.hash, k);
    }
}

/// Storing a blob leaves every other hash where it was: the store holds another hash after
/// the write exactly when it held it before, with the same entry.
pub proof fn lemma_add_keeps_others(s: Seq<BlobModel>, m: BlobModel, h: Seq<u8>)
    requires
        entries_well_formed(s),
        h != m.info.hash,
    ensures
        holds_hash(add_entry(s, m), h) == holds_hash(s, h),
        holds_hash(s, h) ==> add_entry(s, m)[index_of_hash(add_entry(s, m), h)] == s[index_of_hash(s, h)],
{
    let t = add_entry(s, m);
    lemma_add_then_get(s, m);
    if holds_hash(s, h) {
        let k = index_of_hash(s, h);
        assert(t[k] == s[k]) by {
            if holds_hash(s, m.info.hash) {
                assert(index_of_hash(s, m.info.hash) != k);
            }
        }
        lemma_index_of_hash(t, h, k);
    }
    if holds_hash(t, h) {
        let k = index_of_hash(t, h);
        if k < s.len() {
            assert(t[k] == s[k]) by {
                if holds_hash(s, m.info.hash) {
                    assert(index_of_hash(s, m.info.hash) != k);
                }
            }
            assert(holds_hash(s, h));
        }
    }
}

/// After removing the entry of a hash, the store no longer holds that hash.
pub proof fn lemma_remove_then_absent(s: Seq<BlobModel>, h: Seq<u8>)
    requires
        entries_well_formed(s),
        holds_hash(s, h),
    ensures
        !holds_hash(s.remove(index_of_hash(s, h)), h),
{
    let k = index_of_hash(s, h);
    let t = s.remove(k);
    if holds_hash(t, h) {
        let j = choose|j: int| 0 <= j < t.len() && (#[trigger] t[j]).info.hash == h;
        if j < k {
            assert(t[j] == s[j]);
        } else {
            assert(t[j] == s[j + 1]);
        }
    }
}


/// Removing the entry of one hash leaves every other hash where it was: the store holds
/// another hash after the removal exactly when it held it before, with the same entry.
pub proof fn lemma_remove_keeps_others(s: Seq<BlobModel>, h: Seq<u8>, x: Seq<u8>)
    requires
        entries_well_formed(s),
        holds_hash(s, h),
        x != h,
    ensures
        holds_hash(s.remove(index_of_hash(s, h)), x) == holds_hash(s, x),
        holds_hash(s, x) ==> s.remove(index_of_hash(s, h))[index_of_hash(
            s.remove(index_of_hash(s, h)),
            x,
        )] == s[index_of_hash(s, x)],
{
    let k = index_of_hash(s, h);
    let t = s.remove(k);
    assert(distinct_hashes(t)) by {
        assert forall|a: int, b: int| 0 <= a < t.len() && 0 <= b < t.len() && a != b implies t[a].info.hash
            != t[b].info.hash by {
            let a1 = if a < k { a } else { a + 1 };
            let b1 = if b < k { b } else { b + 1 };
            assert(t[a] == s[a1] && t[b] == s[b1]);
        }
    }
    if holds_hash(s, x) {
        let j = index_of_hash(s, x);
        assert(j != k);
        let j1 = if j < k { j } else { j - 1 };
        assert(t[j1] == s[j]);
        lemma_index_of_hash(t, x, j1);
    }
    if holds_hash(t, x) {
        let j = choose|j: int| 0 <= j < t.len() && (#[trigger] t[j]).info.hash == x;
        if j < k {
            assert(t[j] == s[j]);
        } else {
            assert(t[j] == s[j + 1]);
        }
    }
}

/// The hash bytes of `hashes`, in order.
pub open spec fn hash_seqs(hashes: Seq<BlobHash>) -> Seq<Seq<u8>> {
    hashes.map_values(|h: BlobHash| h.0@)
}

/// The name a share string carries for each of `hashes`, in order.
pub open spec fn shared_names(hashes: Seq<BlobHash>, names: Seq<(BlobHash, String)>) -> Seq<
    Seq<char>,
> {
    hashes.map_values(|h: BlobHash| name_or_unknown(names, h.0@))
}

proof fn lemma_lookup_has_no_comma(names: Seq<(BlobHash, String)>, h: Seq<u8>)
    requires
        forall|j: int| 0 <= j < names.len() ==> !(#[trigger] names[j]).1@.contains(','),
    ensures
        !name_or_unknown(names, h).contains(','),
    decreases names.len(),
{
    reveal_strlit("unknown");
    if names.len() > 0 {
        let d = names.drop_last();
        assert forall|j: int| 0 <= j < d.len() implies !(#[trigger] d[j]).1@.contains(',') by {
            assert(d[j] == names[j]);
        }
        lemma_lookup_has_no_comma(d, h);
        assert(names.last() == names[names.len() - 1]);
    } else {
        assert(!unknown_name().contains(',')) by {
            if unknown_name().contains(',') {
                let j = choose|j: int| 0 <= j < unknown_name().len() && unknown_name()[j] == ',';
            }
        }
    }
}

proof fn lemma_share_entry_piece(h: Seq<u8>, names: Seq<(BlobHash, String)>)
    requires
        h.len() == 32,
        forall|j: int| 0 <= j < names.len() ==> !(#[trigger] names[j]).1@.contains(','),
    ensures
        !share_entry(h, names).contains(','),
        share_piece(share_entry(h, names)) == (hex_encode_spec(h), name_or_unknown(names, h)),
        hash_from_hex_result(encode_utf8(hex_encode_spec(h))) == Ok::<Seq<u8>, BlobHashError>(h),
{
    let hx = hex_encode_spec(h);
    let n = name_or_unknown(names, h);
    let e = share_entry(h, names);
    lemma_lookup_has_no_comma(names, h);
    lemma_blob_hash_roundtrip(h);
    assert forall|i: int| 0 <= i < hx.len() implies hx[i] != ':' && hx[i] != ',' by {
        let b = h[i / 2] as int;
        assert(0 <= b / 16 < 16 && 0 <= b % 16 < 16);
    }
    assert(e =~= hx + seq![':'] + n);
    assert(forall|i: int| 0 <= i < hx.len() ==> e[i] == hx[i]);
    assert(e[hx.len() as int] == ':');
    crate::text::lemma_first_pos(e, ':', hx.len() as int);
    assert(e.take(hx.len() as int) =~= hx);
    assert(e.skip(hx.len() as int + 1) =~= n);
    assert(!e.contains(',')) by {
        if e.contains(',') {
            let j = choose|j: int| 0 <= j < e.len() && e[j] == ',';
            if j < hx.len() {
                assert(e[j] == hx[j]);
            } else if j > hx.len() {
                assert(e[j] == n[j - hx.len() - 1]);
            }
        }
    }
}

/// A share string reads back as what was shared: for a collection of at least one hash whose
/// recorded names hold no comma, parsing [`share_string_of`] gives every hash, in order, with
/// the name the string carries for it.
pub proof fn lemma_share_string_roundtrip(hashes: Seq<BlobHash>, names: Seq<(BlobHash, String)>)
    requires
        hashes.len() > 0,
        forall|j: int| 0 <= j < names.len() ==> !(#[trigger] names[j]).1@.contains(','),
    ensures
        parse_share_pieces(split_on(share_string_of(hashes, names), ',')) == Ok::<
            (Seq<Seq<u8>>, Seq<Seq<char>>),
            BlobHashError,
        >((hash_seqs(hashes), shared_names(hashes, names))),
    decreases hashes.len(),
{
    let last = hashes.last();
    assert(last.0@.len() == 32);
    lemma_share_entry_piece(last.0@, names);
    let e = share_entry(last.0@, names);
    if hashes.len() == 1 {
        crate::text::lemma_split_on_plain(e, ',');
        assert(hashes[0] == last);
        let pieces = split_on(share_string_of(hashes, names), ',');
        assert(pieces == seq![e]);
        assert(pieces.drop_last() =~= Seq::<Seq<char>>::empty());
        assert(pieces.last() == e);
        assert(parse_share_pieces(pieces.drop_last()) == Ok::<
            (Seq<Seq<u8>>, Seq<Seq<char>>),
            BlobHashError,
        >((seq![], seq![])));
        assert(parse_share_pieces(pieces) == Ok::<(Seq<Seq<u8>>, Seq<Seq<char>>), BlobHashError>(
            (seq![].push(last.0@), seq![].push(name_or_unknown(names, last.0@))),
        ));
        assert(hash_seqs(hashes) =~= seq![].push(last.0@));
        assert(shared_names(hashes, names) =~= seq![].push(name_or_unknown(names, last.0@)));
    } else {
        let d = hashes.drop_last();
        lemma_share_string_roundtrip(d, names);
        crate::text::lemma_split_on_append(share_string_of(d, names), ',', e);
        let pieces = split_on(share_string_of(hashes, names), ',');
        assert(pieces == split_on(share_string_of(d, names), ',').push(e));
        assert(pieces.drop_last() =~= split_on(share_string_of(d, names), ','));
        assert(pieces.last() == e);
        assert(parse_share_pieces(pieces) == Ok::<(Seq<Seq<u8>>, Seq<Seq<char>>), BlobHashError>(
            (hash_seqs(d).push(last.0@), shared_names(d, names).push(name_or_unknown(names, last.0@))),
        ));
        assert(hash_seqs(hashes) =~= hash_seqs(d).push(last.0@));
        assert(shared_names(hashes, names) =~= shared_names(d, names).push(
            name_or_unknown(names, last.0@),
        ));
    }
}


/// Whether `m` holds every block of `data` under its index.
pub open spec fn holds_blocks(data: Seq<u8>, m: Map<u64, Vec<u8>>) -> bool {
    forall|i: u64|
        (i as int) < blocks_for(data.len() as int) ==> #[trigger] m.dom().contains(i) && m[i]@
            == block_of(data, i as int)->0
}

proof fn lemma_blocks_prefix(data: Seq<u8>, m: Map<u64, Vec<u8>>, k: nat)
    requires
        k <= blocks_for(data.len() as int),
        blocks_for(data.len() as int) <= u64::MAX + 1,
        holds_blocks(data, m),
    ensures
        first_missing(m.dom(), k) is None,
        concat_blocks(m, k) == data.take(
            if k * block_bytes_spec() <= data.len() {
                k * block_bytes_spec()
            } else {
                data.len() as int
            },
        ),
    decreases k,
{
    if k == 0 {
        assert(data.take(0) =~= Seq::<u8>::empty());
    } else {
        let j = (k - 1) as nat;
        lemma_blocks_prefix(data, m, j);
        let i = j as u64;
        assert(m.dom().contains(i));
        assert(block_start(j as int) < data.len());
        let start = j * block_bytes_spec();
        let end = if k * block_bytes_spec() <= data.len() {
            k * block_bytes_spec()
        } else {
            data.len() as int
        };
        assert(m[i]@ == data.subrange(start, end));
        assert(data.take(start) + data.subrange(start, end) =~= data.take(end));
    }
}

/// A receiver that got every block of a blob back puts the blob together again: no block is
/// missing, and the blocks laid end to end are the blob, neither shorter nor longer.
pub proof fn lemma_blocks_reassemble(data: Seq<u8>, m: Map<u64, Vec<u8>>)
    requires
        data.len() + block_bytes_spec() <= u64::MAX,
        holds_blocks(data, m),
    ensures
        first_missing(m.dom(), blocks_for(data.len() as int) as nat) is None,
        concat_blocks(m, blocks_for(data.len() as int) as nat) == data,
{
    let n = blocks_for(data.len() as int);
    assert(n * block_bytes_spec() >= data.len());
    lemma_blocks_prefix(data, m, n as nat);
    assert(data.take(data.len() as int) =~= data);
}

} // verus!
