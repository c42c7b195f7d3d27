//! The early file-echo protocol: a receiver sends a request carrying a file, and the sharing
//! side answers with the files it offers, each as a header and fixed-size chunks.
//!
//! Request: name length (`u32` LE), name bytes, data length (`u64` LE), data.
//! Reply: file count (`u32` LE); per file: name length (`u32` LE), name bytes, data length
//! (`u64` LE), chunk count (`u32` LE), the 32-byte BLAKE3 hash; then per chunk its index
//! (`u32` LE), its length (`u32` LE) and its bytes.

use vstd::prelude::*;
use crate::blob_store::{blake3_hash, BlobHash};
use crate::hex::hex_encode_spec;
use crate::text::{append, le_bytes, le_value, u32_from_le, u32_le_bytes, u64_le_bytes};
use vstd::string::StringSliceAdditionalSpecFns;
use vstd::utf8::{decode_utf8, encode_utf8, valid_utf8};

verus! {

/// Bytes per chunk of a reply.
pub const ECHO_CHUNK: u64 = 262144;

/// What the receiving side reports while a reply arrives.
#[derive(Debug)]
pub enum TransferEvent {
    FileStart { file_name: String, file_size: u64, total_chunks: u32, blob_hash: Option<String> },
    ChunkReceived { file_name: String, chunk_index: u32, chunk_data: Vec<u8>, offset: u64 },
    FileComplete { file_name: String, total_bytes: u64, hash_verified: Option<bool> },
}

/// What a connection reports to the user interface.
#[derive(Debug)]
pub enum ConnectEvent {
    Connected,
    Sent,
    Transfer(TransferEvent),
    Closed { error: Option<String> },
}

/// `String::from_utf8`: the string whose UTF-8 encoding is `bytes`, or `None` when they are
/// not valid UTF-8.
#[verifier::external_body]
fn utf8_string(bytes: Vec<u8>) -> (r: Option<String>)
    ensures
        r is Some <==> valid_utf8(bytes@),
        r matches Some(s) ==> encode_utf8(s@) == bytes@,
{
    String::from_utf8(bytes).ok()
}

/// The request a receiver sends: its file's name and data.
pub open spec fn request_bytes(name: Seq<char>, data: Seq<u8>) -> Seq<u8> {
    le_bytes(encode_utf8(name).len(), 4) + encode_utf8(name) + le_bytes(data.len(), 8) + data
}

/// Encodes a request.
pub fn encode_request(name: &str, data: &[u8]) -> (r: Vec<u8>)
    requires
        name.spec_bytes().len() <= u32::MAX,
    ensures
        r@ == request_bytes(name@, data@),
{
    let nb = name.as_bytes();
    let mut out = u32_le_bytes(nb.len() as u32);
    append(&mut out, nb);
    let dl = u64_le_bytes(data.len() as u64);
    append(&mut out, dl.as_slice());
    append(&mut out, data);
    out
}

/// How many chunks a file of `len` bytes takes.
pub open spec fn chunks_for(len: nat) -> nat {
    ((len + ECHO_CHUNK - 1) / (ECHO_CHUNK as int)) as nat
}

/// The number of chunks of a file of `len` bytes, when it fits in a `u32`.
pub fn chunk_count(len: u64) -> (r: u32)
    requires
        chunks_for(len as nat) <= u32::MAX,
    ensures
        r == chunks_for(len as nat),
{
    let q = len / ECHO_CHUNK;
    if len % ECHO_CHUNK == 0 {
        assert(q == chunks_for(len as nat)) by (nonlinear_arith)
            requires
                q == len / ECHO_CHUNK,
                len % ECHO_CHUNK == 0,
        ;
        q as u32
    } else {
        assert(q + 1 == chunks_for(len as nat)) by (nonlinear_arith)
            requires
                q == len / ECHO_CHUNK,
                len % ECHO_CHUNK != 0,
        ;
        (q + 1) as u32
    }
}

/// The header of one file of a reply.
pub open spec fn file_header_bytes(name: Seq<char>, data: Seq<u8>) -> Seq<u8> {
    le_bytes(encode_utf8(name).len(), 4) + encode_utf8(name) + le_bytes(data.len(), 8) + le_bytes(
        chunks_for(data.len()),
        4,
    ) + blake3_hash(data)
}

/// Encodes the header of one file of a reply.
pub fn encode_file_header(name: &str, data: &[u8]) -> (r: Vec<u8>)
    requires
        name.spec_bytes().len() <= u32::MAX,
        chunks_for(data@.len()) <= u32::MAX,
    ensures
        r@ == file_header_bytes(name@, data@),
{
    let nb = name.as_bytes();
    let mut out = u32_le_bytes(nb.len() as u32);
    append(&mut out, nb);
    let dl = u64_le_bytes(data.len() as u64);
    append(&mut out, dl.as_slice());
    let cc = u32_le_bytes(chunk_count(data.len() as u64));
    append(&mut out, cc.as_slice());
    let h = BlobHash::from_bytes(data);
    append(&mut out, &h.0);
    out
}

/// The `k`-th chunk of `data`.
pub open spec fn chunk_of(data: Seq<u8>, k: nat) -> Seq<u8> {
    let start = k * ECHO_CHUNK;
    let end = if start + ECHO_CHUNK < data.len() { start + ECHO_CHUNK } else { data.len() as int };
    data.subrange(start as int, end)
}

/// One chunk record of a reply.
pub open spec fn chunk_record_bytes(k: nat, chunk: Seq<u8>) -> Seq<u8> {
    le_bytes(k, 4) + le_bytes(chunk.len(), 4) + chunk
}

/// The chunk records of `data` from chunk `k` on.
pub open spec fn chunks_from(data: Seq<u8>, k: nat) -> Seq<u8>
    decreases chunks_for(data.len()) - k,
{
    if k >= chunks_for(data.len()) {
        seq![]
    } else {
        chunk_record_bytes(k, chunk_of(data, k)) + chunks_from(data, k + 1)
    }
}

/// Everything a reply carries for one file.
pub open spec fn file_bytes(name: Seq<char>, data: Seq<u8>) -> Seq<u8> {
    file_header_bytes(name, data) + chunks_from(data, 0)
}

/// Everything a reply carries for the files `files`, after the file count.
pub open spec fn files_bytes(files: Seq<(Seq<char>, Seq<u8>)>) -> Seq<u8>
    decreases files.len(),
{
    if files.len() == 0 {
        seq![]
    } else {
        files_bytes(files.drop_last()) + file_bytes(files.last().0, files.last().1)
    }
}

/// The plain values of a list of `(name, data)` files.
pub open spec fn files_model(files: Seq<(String, Vec<u8>)>) -> Seq<(Seq<char>, Seq<u8>)> {
    files.map_values(|f: (String, Vec<u8>)| (f.0@, f.1@))
}

/// A whole reply.
pub open spec fn reply_bytes(files: Seq<(Seq<char>, Seq<u8>)>) -> Seq<u8> {
    le_bytes(files.len(), 4) + files_bytes(files)
}

/// Whether every file of a reply can be described: its name length and chunk count fit in a
/// `u32`.
pub open spec fn describable(files: Seq<(Seq<char>, Seq<u8>)>) -> bool {
    forall|i: int| 0 <= i < files.len() ==> encode_utf8(#[trigger] files[i].0).len() <= u32::MAX
        && chunks_for(files[i].1.len()) <= u32::MAX
}

/// Encodes the chunk records of `data`.
fn encode_chunks(data: &[u8]) -> (r: Vec<u8>)
    requires
        chunks_for(data@.len()) <= u32::MAX,
    ensures
        r@ == chunks_from(data@, 0),
{
    let total = chunk_count(data.len() as u64);
    let mut k: u32 = total;
    let mut out: Vec<u8> = Vec::new();
    let ghost tail = chunks_from(data@, total as nat);
    assert(tail == Seq::<u8>::empty());
    while k > 0
        invariant
            k <= total,
            total == chunks_for(data@.len()),
            out@ == chunks_from(data@, k as nat),
        decreases k,
    {
        let j = k - 1;
        let start = (j as u64) * ECHO_CHUNK;
        assert(start < data@.len()) by (nonlinear_arith)
            requires
                j < chunks_for(data@.len()),
                start == j * ECHO_CHUNK,
        ;
        let end = if start + ECHO_CHUNK < data.len() as u64 {
            start + ECHO_CHUNK
        } else {
            data.len() as u64
        };
        let mut rec = u32_le_bytes(j);
        let len_bytes = u32_le_bytes((end - start) as u32);
        append(&mut rec, len_bytes.as_slice());
        let mut i = start as usize;
        let ghost head = rec@;
        while i < end as usize
            invariant
                start <= i <= end <= data@.len(),
                rec@ == head + data@.subrange(start as int, i as int),
            decreases end - i,
        {
            rec.push(data[i]);
            assert(rec@ =~= head + data@.subrange(start as int, i + 1));
            i = i + 1;
        }
        append(&mut rec, out.as_slice());
        assert(rec@ =~= chunks_from(data@, j as nat));
        out = rec;
        k = j;
    }
    out
}

/// Encodes a whole reply.
pub fn encode_reply(files: &[(String, Vec<u8>)]) -> (r: Vec<u8>)
    requires
        files@.len() <= u32::MAX,
        describable(files_model(files@)),
    ensures
        r@ == reply_bytes(files_model(files@)),
{
    let mut out = u32_le_bytes(files.len() as u32);
    let ghost head = out@;
    let mut i: usize = 0;
    while i < files.len()
        invariant
            i <= files@.len(),
            describable(files_model(files@)),
            head == le_bytes(files@.len() as nat, 4),
            out@ == head + files_bytes(files_model(files@).take(i as int)),
        decreases files@.len() - i,
    {
        let (name, data) = (&files[i].0, &files[i].1);
        proof {
            assert(files_model(files@)[i as int] == (name@, data@));
            assert(encode_utf8(files_model(files@)[i as int].0).len() <= u32::MAX);
            assert(chunks_for(files_model(files@)[i as int].1.len()) <= u32::MAX);
        }
        let h = encode_file_header(name.as_str(), data.as_slice());
        let c = encode_chunks(data.as_slice());
        append(&mut out, h.as_slice());
        append(&mut out, c.as_slice());
        proof {
            let m = files_model(files@);
            assert(m.take(i + 1).drop_last() =~= m.take(i as int));
            assert(m.take(i + 1).last() == m[i as int]);
        }
        i = i + 1;
    }
    assert(files_model(files@).take(i as int) =~= files_model(files@));
    out
}

/// A copy of `b`.
pub fn clone_bytes(b: &Vec<u8>) -> (r: Vec<u8>)
    ensures
        r@ == b@,
{
    let mut out: Vec<u8> = Vec::new();
    append(&mut out, b.as_slice());
    out
}

/// What the sharing side sends back: the files it offers, or, when it offers none, the
/// receiver's own file.
pub fn files_to_send(shared: &Vec<(String, Vec<u8>)>, name: String, data: Vec<u8>) -> (r: Vec<(String, Vec<u8>)>)
    ensures
        shared@.len() > 0 ==> files_model(r@) == files_model(shared@),
        shared@.len() == 0 ==> files_model(r@) == seq![(name@, data@)],
{
    let mut out: Vec<(String, Vec<u8>)> = Vec::new();
    if shared.len() > 0 {
        let mut i: usize = 0;
        while i < shared.len()
            invariant
                i <= shared@.len(),
                out@.len() == i,
                forall|j: int| 0 <= j < i ==> (#[trigger] out@[j]).0@ == shared@[j].0@ && out@[j].1@
                    == shared@[j].1@,
            decreases shared@.len() - i,
        {
            let f = (shared[i].0.clone(), clone_bytes(&shared[i].1));
            out.push(f);
            i = i + 1;
        }
        assert(files_model(out@) =~= files_model(shared@));
    } else {
        out.push((name, data));
        assert(files_model(out@) =~= seq![(name@, data@)]);
    }
    out
}

/// Why a reply could not be read.
#[derive(Debug, Clone, Copy, PartialEq, Eq, Structural)]
pub enum EchoError {
    /// A file name is not UTF-8.
    BadName,
}

/// Which field of a reply comes next.
#[derive(Debug, Clone, Copy, PartialEq, Eq, Structural)]
pub enum ReadStage {
    Count,
    NameLen,
    Name,
    DataLen,
    ChunkTotal,
    Hash,
    ChunkIndex,
    ChunkSize,
    ChunkData,
    Done,
}

/// `u64::from_le_bytes` of the first eight bytes of `b`.
pub fn u64_from_le(b: &[u8]) -> (r: u64)
    requires
        b@.len() >= 8,
    ensures
        r == le_value(b@.take(8)),
{
    let mut v: u64 = 0;
    let mut i: usize = 8;
    assert(le_value(b@.subrange(8, 8)) == 0);
    while i > 0
        invariant
            i <= 8,
            b@.len() >= 8,
            v == le_value(b@.subrange(i as int, 8)),
            v < crate::text::pow256((8 - i) as nat),
        decreases i,
    {
        let j = i - 1;
        let ghost s = b@.subrange(j as int, 8);
        assert(s.drop_first() =~= b@.subrange(i as int, 8));
        assert(le_value(s) == s[0] + 256 * le_value(s.drop_first()));
        let ghost p = crate::text::pow256((8 - i) as nat);
        assert(crate::text::pow256((8 - j) as nat) == 256 * p);
        proof {
            lemma_pow256_small((8 - i) as nat);
        }
        assert(v * 256 + b@[j as int] < 256 * p) by (nonlinear_arith)
            requires
                v < p,
                b@[j as int] < 256,
        ;
        assert(256 * p <= 18446744073709551616) by {
            lemma_pow256_small((8 - j) as nat);
        }
        v = v * 256 + b[j] as u64;
        i = j;
    }
    assert(b@.subrange(0, 8) =~= b@.take(8));
    v
}

/// `256^n` for `n <= 8` is at most `2^64`.
pub proof fn lemma_pow256_small(n: nat)
    requires
        n <= 8,
    ensures
        crate::text::pow256(n) <= 18446744073709551616,
        crate::text::pow256(n) >= 1,
    decreases n,
{
    reveal_with_fuel(crate::text::pow256, 9);
}

/// The plain values an [`EchoReader`] holds.
pub struct EchoModel {
    pub stage: ReadStage,
    pub files_left: u32,
    pub name_len: u32,
    pub name: Seq<char>,
    pub data_len: u64,
    pub total_chunks: u32,
    pub chunk_num: u32,
    pub expected: Seq<u8>,
    pub chunk_index: u32,
    pub chunk_size: u32,
    pub data: Seq<u8>,
}

/// The plain values of a [`TransferEvent`].
pub enum EventModel {
    Start { name: Seq<char>, size: u64, chunks: u32, hash: Option<Seq<char>> },
    Chunk { name: Seq<char>, index: u32, data: Seq<u8>, offset: u64 },
    Complete { name: Seq<char>, total: u64, verified: Option<bool> },
}

pub open spec fn event_model(e: TransferEvent) -> EventModel {
    match e {
        TransferEvent::FileStart { file_name, file_size, total_chunks, blob_hash } => EventModel::Start {
            name: file_name@,
            size: file_size,
            chunks: total_chunks,
            hash: match blob_hash {
                Some(h) => Some(h@),
                None => None,
            },
        },
        TransferEvent::ChunkReceived { file_name, chunk_index, chunk_data, offset } => EventModel::Chunk {
            name: file_name@,
            index: chunk_index,
            data: chunk_data@,
            offset,
        },
        TransferEvent::FileComplete { file_name, total_bytes, hash_verified } => EventModel::Complete {
            name: file_name@,
            total: total_bytes,
            verified: hash_verified,
        },
    }
}

/// The plain values of a list of events.
pub open spec fn events_model(es: Seq<TransferEvent>) -> Seq<EventModel> {
    es.map_values(|e: TransferEvent| event_model(e))
}

/// How many bytes the next field takes.
pub open spec fn need_of(m: EchoModel) -> nat {
    match m.stage {
        ReadStage::Count => 4,
        ReadStage::NameLen => 4,
        ReadStage::Name => m.name_len as nat,
        ReadStage::DataLen => 8,
        ReadStage::ChunkTotal => 4,
        ReadStage::Hash => 32,
        ReadStage::ChunkIndex => 4,
        ReadStage::ChunkSize => 4,
        ReadStage::ChunkData => m.chunk_size as nat,
        ReadStage::Done => 0,
    }
}

/// The reader once its current file is complete: on to the next file, or done.
pub open spec fn after_file(m: EchoModel) -> EchoModel {
    EchoModel {
        files_left: (m.files_left - 1) as u32,
        data: seq![],
        chunk_num: 0,
        total_chunks: 0,
        stage: if m.files_left == 1 {
            ReadStage::Done
        } else {
            ReadStage::NameLen
        },
        ..m
    }
}

/// The completion of the current file: its name, its size, and whether its bytes hash to
/// what its header announced.
pub open spec fn completion(m: EchoModel) -> EventModel {
    EventModel::Complete {
        name: m.name,
        total: m.data.len() as u64,
        verified: Some(blake3_hash(m.data) == m.expected),
    }
}

/// One field read: the reader after the field `b`, and the events it completes. The name is
/// taken as UTF-8; a chunk is appended to the file's bytes.
pub open spec fn echo_step(m: EchoModel, b: Seq<u8>) -> (EchoModel, Seq<EventModel>) {
    match m.stage {
        ReadStage::Count => {
            let n = le_value(b) as u32;
            (EchoModel { files_left: n, stage: if n == 0 { ReadStage::Done } else { ReadStage::NameLen }, ..m }, seq![])
        },
        ReadStage::NameLen => (EchoModel { name_len: le_value(b) as u32, stage: ReadStage::Name, ..m }, seq![]),
        ReadStage::Name => (EchoModel { name: decode_utf8(b), stage: ReadStage::DataLen, ..m }, seq![]),
        ReadStage::DataLen => (EchoModel { data_len: le_value(b) as u64, stage: ReadStage::ChunkTotal, ..m }, seq![]),
        ReadStage::ChunkTotal => (
            EchoModel { total_chunks: le_value(b) as u32, chunk_num: 0, stage: ReadStage::Hash, ..m },
            seq![],
        ),
        ReadStage::Hash => {
            let m1 = EchoModel { expected: b, data: seq![], chunk_num: 0, ..m };
            let start = EventModel::Start {
                name: m.name,
                size: m.data_len,
                chunks: m.total_chunks,
                hash: Some(hex_encode_spec(b)),
            };
            if m.total_chunks == 0 {
                (after_file(m1), seq![start, completion(m1)])
            } else {
                (EchoModel { stage: ReadStage::ChunkIndex, ..m1 }, seq![start])
            }
        },
        ReadStage::ChunkIndex => (EchoModel { chunk_index: le_value(b) as u32, stage: ReadStage::ChunkSize, ..m }, seq![]),
        ReadStage::ChunkSize => (EchoModel { chunk_size: le_value(b) as u32, stage: ReadStage::ChunkData, ..m }, seq![]),
        ReadStage::ChunkData => {
            let ev = EventModel::Chunk {
                name: m.name,
                index: m.chunk_index,
                data: b,
                offset: (m.chunk_index * ECHO_CHUNK) as u64,
            };
            let m1 = EchoModel {
                data: m.data + b,
                chunk_num: (m.chunk_num + 1) as u32,
                stage: ReadStage::ChunkIndex,
                ..m
            };
            if m1.chunk_num == m.total_chunks {
                (after_file(m1), seq![ev, completion(m1)])
            } else {
                (m1, seq![ev])
            }
        },
        ReadStage::Done => (m, seq![]),
    }
}

/// A reader that has read nothing yet.
pub open spec fn initial_reader() -> EchoModel {
    EchoModel {
        stage: ReadStage::Count,
        files_left: 0,
        name_len: 0,
        name: seq![],
        data_len: 0,
        total_chunks: 0,
        chunk_num: 0,
        expected: Seq::new(32, |i: int| 0u8),
        chunk_index: 0,
        chunk_size: 0,
        data: seq![],
    }
}

/// Whether [`echo_step`] says what a field does: a name must be UTF-8, and a file's bytes
/// must stay countable.
pub open spec fn step_defined(m: EchoModel, b: Seq<u8>) -> bool {
    &&& m.stage == ReadStage::Name ==> valid_utf8(b)
    &&& m.stage == ReadStage::ChunkData ==> m.data.len() + b.len() <= u64::MAX
}

/// The receiving side of a reply, read one field at a time: [`EchoReader::need`] says how many
/// bytes to read next, and [`EchoReader::feed`] takes exactly those and reports what they
/// completed.
pub struct EchoReader {
    stage: ReadStage,
    files_left: u32,
    name_len: u32,
    name: String,
    data_len: u64,
    total_chunks: u32,
    chunk_num: u32,
    expected: [u8; 32],
    chunk_index: u32,
    chunk_size: u32,
    data: Vec<u8>,
    received: u64,
}

impl EchoReader {
    /// The plain values the reader holds.
    pub closed spec fn model(&self) -> EchoModel {
        EchoModel {
            stage: self.stage,
            files_left: self.files_left,
            name_len: self.name_len,
            name: self.name@,
            data_len: self.data_len,
            total_chunks: self.total_chunks,
            chunk_num: self.chunk_num,
            expected: self.expected@,
            chunk_index: self.chunk_index,
            chunk_size: self.chunk_size,
            data: self.data@,
        }
    }

    pub closed spec fn wf(&self) -> bool {
        &&& self.chunk_num <= self.total_chunks
        &&& self.received == self.data@.len()
        &&& (self.stage != ReadStage::Count && self.stage != ReadStage::Done) ==> self.files_left > 0
        &&& (self.stage == ReadStage::ChunkIndex || self.stage == ReadStage::ChunkSize
            || self.stage == ReadStage::ChunkData) ==> self.chunk_num < self.total_chunks
    }

    /// How many bytes the next field takes.
    pub closed spec fn need_spec(&self) -> nat {
        need_of(self.model())
    }

    pub fn new() -> (r: EchoReader)
        ensures
            r.wf(),
            r.model() == initial_reader(),
    {
        let r = EchoReader {
            stage: ReadStage::Count,
            files_left: 0,
            name_len: 0,
            name: String::new(),
            data_len: 0,
            total_chunks: 0,
            chunk_num: 0,
            expected: [0u8; 32],
            chunk_index: 0,
            chunk_size: 0,
            data: Vec::new(),
            received: 0,
        };
        assert(r.name@ =~= Seq::<char>::empty());
        assert(r.expected@ =~= Seq::new(32, |i: int| 0u8));
        assert(r.data@ =~= Seq::<u8>::empty());
        r
    }

    /// Whether the whole reply has been read.
    pub fn is_done(&self) -> (r: bool)
        ensures
            r == (self.model().stage == ReadStage::Done),
    {
        self.stage == ReadStage::Done
    }

    /// How many bytes to read next.
    pub fn need(&self) -> (r: usize)
        ensures
            r == self.need_spec(),
    {
        match self.stage {
            ReadStage::Count => 4,
            ReadStage::NameLen => 4,
            ReadStage::Name => self.name_len as usize,
            ReadStage::DataLen => 8,
            ReadStage::ChunkTotal => 4,
            ReadStage::Hash => 32,
            ReadStage::ChunkIndex => 4,
            ReadStage::ChunkSize => 4,
            ReadStage::ChunkData => self.chunk_size as usize,
            ReadStage::Done => 0,
        }
    }

    /// The current file is complete: its event, with whether the bytes received hash to what
    /// its header announced.
    fn complete_file(&mut self) -> (r: TransferEvent)
        requires
            old(self).wf(),
            old(self).model().files_left > 0,
        ensures
            final(self).wf(),
            final(self).model() == after_file(old(self).model()),
            event_model(r) == completion(old(self).model()),
    {
        let computed = BlobHash::from_bytes(self.data.as_slice());
        let expected = BlobHash(self.expected);
        let verified = computed.same_as(&expected);
        let event = TransferEvent::FileComplete {
            file_name: self.name.clone(),
            total_bytes: self.received,
            hash_verified: Some(verified),
        };
        self.files_left = self.files_left - 1;
        self.data = Vec::new();
        self.received = 0;
        self.chunk_num = 0;
        self.total_chunks = 0;
        self.stage = if self.files_left == 0 {
            ReadStage::Done
        } else {
            ReadStage::NameLen
        };
        event
    }

    /// Takes the bytes of the next field and reports the events they complete: the start of a
    /// file once its header is read, each chunk as it arrives, and a file's completion with
    /// whether its bytes match the hash its header announced.
    pub fn feed(&mut self, bytes: &[u8]) -> (r: Result<Vec<TransferEvent>, EchoError>)
        requires
            old(self).wf(),
            bytes@.len() == old(self).need_spec(),
        ensures
            final(self).wf(),
            old(self).model().stage == ReadStage::Name ==> (r is Err <==> !valid_utf8(bytes@)),
            step_defined(old(self).model(), bytes@) ==> (r matches Ok(events) && final(self).model()
                == echo_step(old(self).model(), bytes@).0 && events_model(events@) == echo_step(
                old(self).model(),
                bytes@,
            ).1),
    {
        proof {
            if bytes@.len() >= 4 {
                assert(bytes@.len() == 4 ==> bytes@.take(4) =~= bytes@);
            }
            if bytes@.len() == 8 {
                assert(bytes@.take(8) =~= bytes@);
            }
        }
        let ghost m0 = self.model();
        match self.stage {
            ReadStage::Count => {
                let n = u32_from_le(bytes);
                self.files_left = n;
                self.stage = if n == 0 {
                    ReadStage::Done
                } else {
                    ReadStage::NameLen
                };
                assert(self.model() == echo_step(m0, bytes@).0);
                Ok(no_events())
            },
            ReadStage::NameLen => {
                self.name_len = u32_from_le(bytes);
                self.stage = ReadStage::Name;
                assert(self.model() == echo_step(m0, bytes@).0);
                Ok(no_events())
            },
            ReadStage::Name => {
                let mut copy: Vec<u8> = Vec::new();
                append(&mut copy, bytes);
                assert(copy@ =~= bytes@);
                match utf8_string(copy) {
                    Some(name) => {
                        proof {
                            vstd::utf8::encode_utf8_decode_utf8(name@);
                        }
                        self.name = name;
                        self.stage = ReadStage::DataLen;
                        assert(self.model() == echo_step(m0, bytes@).0);
                        Ok(no_events())
                    },
                    None => Err(EchoError::BadName),
                }
            },
            ReadStage::DataLen => {
                self.data_len = u64_from_le(bytes);
                self.stage = ReadStage::ChunkTotal;
                assert(self.model() == echo_step(m0, bytes@).0);
                Ok(no_events())
            },
            ReadStage::ChunkTotal => {
                self.total_chunks = u32_from_le(bytes);
                self.chunk_num = 0;
                self.stage = ReadStage::Hash;
                assert(self.model() == echo_step(m0, bytes@).0);
                Ok(no_events())
            },
            ReadStage::Hash => {
                let mut h = [0u8; 32];
                let mut i: usize = 0;
                while i < 32
                    invariant
                        bytes@.len() == 32,
                        0 <= i <= 32,
                        forall|j: int| 0 <= j < i ==> h@[j] == bytes@[j],
                    decreases 32 - i,
                {
                    h[i] = bytes[i];
                    i = i + 1;
                }
                assert(h@ =~= bytes@);
                self.expected = h;
                self.data = Vec::new();
                self.received = 0;
                self.chunk_num = 0;
                let ghost m1 = self.model();
                assert(m1.data =~= Seq::<u8>::empty());
                assert(m1 == EchoModel { expected: bytes@, data: seq![], chunk_num: 0, ..m0 });
                let mut events: Vec<TransferEvent> = Vec::new();
                events.push(
                    TransferEvent::FileStart {
                        file_name: self.name.clone(),
                        file_size: self.data_len,
                        total_chunks: self.total_chunks,
                        blob_hash: Some(BlobHash(h).to_hex()),
                    },
                );
                let ghost start = EventModel::Start {
                    name: m0.name,
                    size: m0.data_len,
                    chunks: m0.total_chunks,
                    hash: Some(hex_encode_spec(bytes@)),
                };
                assert(events_model(events@) =~= seq![start]);
                if self.total_chunks == 0 {
                    let done = self.complete_file();
                    events.push(done);
                    assert(events_model(events@) =~= seq![start, completion(m1)]);
                } else {
                    self.stage = ReadStage::ChunkIndex;
                    assert(self.model() == EchoModel { stage: ReadStage::ChunkIndex, ..m1 });
                }
                Ok(events)
            },
            ReadStage::ChunkIndex => {
                self.chunk_index = u32_from_le(bytes);
                self.stage = ReadStage::ChunkSize;
                assert(self.model() == echo_step(m0, bytes@).0);
                Ok(no_events())
            },
            ReadStage::ChunkSize => {
                self.chunk_size = u32_from_le(bytes);
                self.stage = ReadStage::ChunkData;
                assert(self.model() == echo_step(m0, bytes@).0);
                Ok(no_events())
            },
            ReadStage::ChunkData => {
                let mut chunk: Vec<u8> = Vec::new();
                append(&mut chunk, bytes);
                let mut copy: Vec<u8> = Vec::new();
                append(&mut copy, bytes);
                assert(chunk@ =~= bytes@);
                assert(copy@ =~= bytes@);
                let len = bytes.len() as u64;
                let mut events: Vec<TransferEvent> = Vec::new();
                events.push(
                    TransferEvent::ChunkReceived {
                        file_name: self.name.clone(),
                        chunk_index: self.chunk_index,
                        chunk_data: chunk,
                        offset: (self.chunk_index as u64) * ECHO_CHUNK,
                    },
                );
                let ghost ev = EventModel::Chunk {
                    name: m0.name,
                    index: m0.chunk_index,
                    data: bytes@,
                    offset: (m0.chunk_index * ECHO_CHUNK) as u64,
                };
                assert(events_model(events@) =~= seq![ev]);
                if self.received > u64::MAX - len {
                    self.stage = ReadStage::Done;
                    return Ok(events);
                }
                let mut data: Vec<u8> = Vec::new();
                std::mem::swap(&mut data, &mut self.data);
                append(&mut data, copy.as_slice());
                self.data = data;
                self.received = self.received + len;
                self.chunk_num = self.chunk_num + 1;
                self.stage = ReadStage::ChunkIndex;
                let ghost m1 = self.model();
                assert(m1 == EchoModel {
                    data: m0.data + bytes@,
                    chunk_num: (m0.chunk_num + 1) as u32,
                    stage: ReadStage::ChunkIndex,
                    ..m0
                });
                if self.chunk_num == self.total_chunks {
                    self.stage = ReadStage::Done;
                    let done = self.complete_file();
                    events.push(done);
                    assert(events_model(events@) =~= seq![ev, completion(m1)]);
                }
                Ok(events)
            },
            ReadStage::Done => Ok(no_events()),
        }
    }
}

fn no_events() -> (r: Vec<TransferEvent>)
    ensures
        events_model(r@) == Seq::<EventModel>::empty(),
{
    let r: Vec<TransferEvent> = Vec::new();
    assert(events_model(r@) =~= Seq::<EventModel>::empty());
    r
}

/// Feeds `s` to a reader holding `m`, one field at a time for at most `steps` fields, stopping
/// early when fewer bytes are left than the next field takes: the reader afterwards, and the
/// events reported on the way.
pub open spec fn echo_run(m: EchoModel, s: Seq<u8>, steps: nat) -> (EchoModel, Seq<EventModel>)
    decreases steps,
{
    if steps == 0 || s.len() < need_of(m) {
        (m, seq![])
    } else {
        let n = need_of(m) as int;
        let first = echo_step(m, s.take(n));
        let more = echo_run(first.0, s.skip(n), (steps - 1) as nat);
        (more.0, first.1 + more.1)
    }
}

/// Whether every field that [`echo_run`] feeds is one that [`echo_step`] says what to do with.
pub open spec fn run_defined(m: EchoModel, s: Seq<u8>, steps: nat) -> bool
    decreases steps,
{
    if steps == 0 || s.len() < need_of(m) {
        true
    } else {
        let n = need_of(m) as int;
        step_defined(m, s.take(n)) && run_defined(echo_step(m, s.take(n)).0, s.skip(n), (steps - 1) as nat)
    }
}

/// The chunk events reported for the file `name` with bytes `data`, from chunk `k` on.
pub open spec fn chunk_events(name: Seq<char>, data: Seq<u8>, k: nat) -> Seq<EventModel>
    decreases chunks_for(data.len()) - k,
{
    if k >= chunks_for(data.len()) {
        seq![]
    } else {
        seq![
            EventModel::Chunk {
                name,
                index: k as u32,
                data: chunk_of(data, k),
                offset: (k * ECHO_CHUNK) as u64,
            },
        ] + chunk_events(name, data, k + 1)
    }
}

/// The completion of the file `name` with bytes `data`, its hash verified.
pub open spec fn verified_completion(name: Seq<char>, data: Seq<u8>) -> EventModel {
    EventModel::Complete { name, total: data.len() as u64, verified: Some(true) }
}

/// The events reported for the file `name` with bytes `data`: its start, its chunks, its
/// completion.
pub open spec fn file_events(name: Seq<char>, data: Seq<u8>) -> Seq<EventModel> {
    seq![
        EventModel::Start {
            name,
            size: data.len() as u64,
            chunks: chunks_for(data.len()) as u32,
            hash: Some(hex_encode_spec(blake3_hash(data))),
        },
    ] + chunk_events(name, data, 0) + seq![verified_completion(name, data)]
}

/// The events reported for the files `files`, in order.
pub open spec fn files_events(files: Seq<(Seq<char>, Seq<u8>)>) -> Seq<EventModel>
    decreases files.len(),
{
    if files.len() == 0 {
        seq![]
    } else {
        file_events(files[0].0, files[0].1) + files_events(files.drop_first())
    }
}

/// How many fields a reply carries for a file with bytes `data`.
pub open spec fn file_steps(data: Seq<u8>) -> nat {
    5 + 3 * chunks_for(data.len())
}

/// How many fields a reply carries for the files `files`, after the file count.
pub open spec fn files_steps(files: Seq<(Seq<char>, Seq<u8>)>) -> nat
    decreases files.len(),
{
    if files.len() == 0 {
        0
    } else {
        file_steps(files[0].1) + files_steps(files.drop_first())
    }
}

/// How many fields a whole reply to `files` carries.
pub open spec fn reply_steps(files: Seq<(Seq<char>, Seq<u8>)>) -> nat {
    1 + files_steps(files)
}

proof fn lemma_pow256_values()
    ensures
        crate::text::pow256(4) == 4294967296,
        crate::text::pow256(8) == 18446744073709551616,
{
    reveal_with_fuel(crate::text::pow256, 9);
}

/// Where the chunks of a file of `len` bytes start and end.
proof fn lemma_chunk_bounds(len: nat, k: nat)
    ensures
        len <= chunks_for(len) * ECHO_CHUNK,
        k < chunks_for(len) ==> k * ECHO_CHUNK < len,
        k + 1 < chunks_for(len) ==> (k + 1) * ECHO_CHUNK < len,
        len == 0 <==> chunks_for(len) == 0,
{
    let q = chunks_for(len);
    assert(q * 262144 <= len + 262143 < q * 262144 + 262144);
}

/// One field fed ahead of the rest.
proof fn lemma_run_step(m: EchoModel, b: Seq<u8>, rest: Seq<u8>, k: nat)
    requires
        b.len() == need_of(m),
    ensures
        echo_run(m, b + rest, k + 1).0 == echo_run(echo_step(m, b).0, rest, k).0,
        echo_run(m, b + rest, k + 1).1 == echo_step(m, b).1 + echo_run(echo_step(m, b).0, rest, k).1,
        run_defined(m, b + rest, k + 1) == (step_defined(m, b) && run_defined(echo_step(m, b).0, rest, k)),
{
    assert((b + rest).take(b.len() as int) =~= b);
    assert((b + rest).skip(b.len() as int) =~= rest);
}

/// The chunk records of a file, from chunk `k` on, read ahead of the rest: their events and
/// the file's verified completion, after which the reader is on to the next file.
proof fn lemma_run_chunks(m: EchoModel, data: Seq<u8>, k: nat, rest: Seq<u8>, steps: nat) -> (m2: EchoModel)
    requires
        m.stage == ReadStage::ChunkIndex,
        m.files_left >= 1,
        m.total_chunks == chunks_for(data.len()),
        m.chunk_num == k,
        k < chunks_for(data.len()),
        chunks_for(data.len()) <= u32::MAX,
        m.data == data.take(k * ECHO_CHUNK),
        m.expected == blake3_hash(data),
    ensures
        m2.files_left == m.files_left - 1,
        m2.stage == (if m.files_left == 1 { ReadStage::Done } else { ReadStage::NameLen }),
        run_defined(m, chunks_from(data, k) + rest, (3 * (chunks_for(data.len()) - k) + steps) as nat)
            == run_defined(m2, rest, steps),
        echo_run(m, chunks_from(data, k) + rest, (3 * (chunks_for(data.len()) - k) + steps) as nat).0
            == echo_run(m2, rest, steps).0,
        echo_run(m, chunks_from(data, k) + rest, (3 * (chunks_for(data.len()) - k) + steps) as nat).1
            == chunk_events(m.name, data, k) + seq![verified_completion(m.name, data)] + echo_run(
            m2,
            rest,
            steps,
        ).1,
    decreases chunks_for(data.len()) - k,
{
    let t = chunks_for(data.len());
    lemma_chunk_bounds(data.len(), k);
    lemma_pow256_values();
    let c = chunk_of(data, k);
    let ib = le_bytes(k, 4);
    let sb = le_bytes(c.len(), 4);
    crate::text::lemma_le_roundtrip(k, 4);
    crate::text::lemma_le_roundtrip(c.len(), 4);
    let after = chunks_from(data, k + 1) + rest;
    assert(chunks_from(data, k) + rest =~= ib + (sb + (c + after)));
    let n = (3 * (t - k - 1) + steps) as nat;
    assert((3 * (t - k) + steps) as nat == n + 1 + 1 + 1);
    lemma_run_step(m, ib, sb + (c + after), n + 1 + 1);
    let m1 = echo_step(m, ib).0;
    lemma_run_step(m1, sb, c + after, n + 1);
    let ma = echo_step(m1, sb).0;
    lemma_run_step(ma, c, after, n);
    let mb = EchoModel { data: ma.data + c, chunk_num: (ma.chunk_num + 1) as u32, stage: ReadStage::ChunkIndex, ..ma };
    let ev = EventModel::Chunk { name: m.name, index: k as u32, data: c, offset: (k * ECHO_CHUNK) as u64 };
    assert(echo_step(ma, c).1 == seq![ev] || echo_step(ma, c).1 == seq![ev, completion(mb)]);
    assert(chunk_events(m.name, data, k) == seq![ev] + chunk_events(m.name, data, k + 1));
    if k + 1 == t {
        assert(mb.data =~= data);
        assert(chunk_events(m.name, data, k + 1) =~= Seq::<EventModel>::empty());
        assert(completion(mb) == verified_completion(m.name, data));
        assert(chunks_from(data, k + 1) =~= Seq::<u8>::empty());
        assert(after =~= rest);
        let m2 = after_file(mb);
        assert(echo_run(m, chunks_from(data, k) + rest, (3 * (t - k) + steps) as nat).1
            =~= chunk_events(m.name, data, k) + seq![verified_completion(m.name, data)] + echo_run(m2, rest, steps).1);
        m2
    } else {
        assert(mb.data =~= data.take((k + 1) * ECHO_CHUNK));
        let m2 = lemma_run_chunks(mb, data, k + 1, rest, steps);
        assert((3 * (t - (k + 1)) + steps) as nat == n);
        assert(echo_run(m, chunks_from(data, k) + rest, (3 * (t - k) + steps) as nat).1
            =~= chunk_events(m.name, data, k) + seq![verified_completion(m.name, data)] + echo_run(m2, rest, steps).1);
        m2
    }
}

/// One file of a reply read ahead of the rest: its events, after which the reader is on to
/// the next file.
proof fn lemma_run_file(m: EchoModel, name: Seq<char>, data: Seq<u8>, rest: Seq<u8>, steps: nat) -> (m2: EchoModel)
    requires
        m.stage == ReadStage::NameLen,
        m.files_left >= 1,
        encode_utf8(name).len() <= u32::MAX,
        chunks_for(data.len()) <= u32::MAX,
    ensures
        m2.files_left == m.files_left - 1,
        m2.stage == (if m.files_left == 1 { ReadStage::Done } else { ReadStage::NameLen }),
        run_defined(m, file_bytes(name, data) + rest, file_steps(data) + steps) == run_defined(m2, rest, steps),
        echo_run(m, file_bytes(name, data) + rest, file_steps(data) + steps).0 == echo_run(m2, rest, steps).0,
        echo_run(m, file_bytes(name, data) + rest, file_steps(data) + steps).1 == file_events(name, data)
            + echo_run(m2, rest, steps).1,
{
    let t = chunks_for(data.len());
    let enc = encode_utf8(name);
    let hash = blake3_hash(data);
    lemma_chunk_bounds(data.len(), 0);
    lemma_pow256_values();
    crate::text::lemma_le_roundtrip(enc.len(), 4);
    crate::text::lemma_le_roundtrip(data.len(), 8);
    crate::text::lemma_le_roundtrip(t, 4);
    vstd::utf8::encode_utf8_valid_utf8(name);
    vstd::utf8::encode_utf8_decode_utf8(name);
    assert(hash.len() == 32);
    let b1 = le_bytes(enc.len(), 4);
    let b3 = le_bytes(data.len(), 8);
    let b4 = le_bytes(t, 4);
    let tail = chunks_from(data, 0) + rest;
    assert(file_bytes(name, data) + rest =~= b1 + (enc + (b3 + (b4 + (hash + tail)))));
    let n = (3 * t + steps) as nat;
    lemma_run_step(m, b1, enc + (b3 + (b4 + (hash + tail))), n + 4);
    let m1 = echo_step(m, b1).0;
    lemma_run_step(m1, enc, b3 + (b4 + (hash + tail)), n + 3);
    let m2a = echo_step(m1, enc).0;
    lemma_run_step(m2a, b3, b4 + (hash + tail), n + 2);
    let m3 = echo_step(m2a, b3).0;
    lemma_run_step(m3, b4, hash + tail, n + 1);
    let m4 = echo_step(m3, b4).0;
    lemma_run_step(m4, hash, tail, n);
    let m5 = EchoModel { expected: hash, data: seq![], chunk_num: 0, ..m4 };
    let start = EventModel::Start {
        name,
        size: data.len() as u64,
        chunks: t as u32,
        hash: Some(hex_encode_spec(hash)),
    };
    if t == 0 {
        assert(data =~= Seq::<u8>::empty());
        assert(m5.data =~= data);
        assert(completion(m5) == verified_completion(name, data));
        assert(chunks_from(data, 0) =~= Seq::<u8>::empty());
        assert(tail =~= rest);
        assert(chunk_events(name, data, 0) =~= Seq::<EventModel>::empty());
        let m2 = after_file(m5);
        assert(echo_run(m, file_bytes(name, data) + rest, file_steps(data) + steps).1 =~= file_events(name, data)
            + echo_run(m2, rest, steps).1);
        m2
    } else {
        let m6 = EchoModel { stage: ReadStage::ChunkIndex, ..m5 };
        assert(m6.data =~= data.take(0 * ECHO_CHUNK));
        let m2 = lemma_run_chunks(m6, data, 0, rest, steps);
        assert(echo_run(m, file_bytes(name, data) + rest, file_steps(data) + steps).1 =~= file_events(name, data)
            + echo_run(m2, rest, steps).1);
        m2
    }
}

/// The bytes of a list of files are those of its first file, then those of the others.
proof fn lemma_files_bytes_first(files: Seq<(Seq<char>, Seq<u8>)>)
    requires
        files.len() >= 1,
    ensures
        files_bytes(files) == file_bytes(files[0].0, files[0].1) + files_bytes(files.drop_first()),
    decreases files.len(),
{
    if files.len() == 1 {
        assert(files_bytes(files.drop_last()) == Seq::<u8>::empty());
        assert(files_bytes(files.drop_first()) == Seq::<u8>::empty());
        assert(files.last() == files[0]);
        assert(files_bytes(files) =~= file_bytes(files[0].0, files[0].1) + files_bytes(files.drop_first()));
    } else {
        let d = files.drop_last();
        lemma_files_bytes_first(d);
        assert(d.drop_first() =~= files.drop_first().drop_last());
        assert(files.drop_first().last() == files.last());
        assert(d[0] == files[0]);
        assert(files_bytes(files) =~= file_bytes(files[0].0, files[0].1) + files_bytes(files.drop_first()));
    }
}

/// The files of a reply, after its count, read by a reader expecting exactly that many.
proof fn lemma_run_files(m: EchoModel, files: Seq<(Seq<char>, Seq<u8>)>)
    requires
        m.files_left == files.len(),
        m.stage == (if files.len() == 0 { ReadStage::Done } else { ReadStage::NameLen }),
        describable(files),
    ensures
        run_defined(m, files_bytes(files), files_steps(files)),
        echo_run(m, files_bytes(files), files_steps(files)).0.stage == ReadStage::Done,
        echo_run(m, files_bytes(files), files_steps(files)).1 == files_events(files),
    decreases files.len(),
{
    if files.len() > 0 {
        let rest = files.drop_first();
        lemma_files_bytes_first(files);
        assert(encode_utf8(files[0].0).len() <= u32::MAX && chunks_for(files[0].1.len()) <= u32::MAX);
        let m2 = lemma_run_file(m, files[0].0, files[0].1, files_bytes(rest), files_steps(rest));
        assert forall|i: int| 0 <= i < rest.len() implies encode_utf8(#[trigger] rest[i].0).len() <= u32::MAX
            && chunks_for(rest[i].1.len()) <= u32::MAX by {
            assert(rest[i] == files[i + 1]);
        }
        lemma_run_files(m2, rest);
    }
}

/// Reading a reply back: a new reader, fed the reply to `files` one field at a time as it asks,
/// reports for each file in turn its start, with its size, chunk count and hash, each of its
/// chunks, and its completion with its hash verified; it then has read the whole reply, and
/// every field it was fed was one it could take.
pub proof fn lemma_reply_read_back(files: Seq<(Seq<char>, Seq<u8>)>)
    requires
        files.len() <= u32::MAX,
        describable(files),
    ensures
        run_defined(initial_reader(), reply_bytes(files), reply_steps(files)),
        echo_run(initial_reader(), reply_bytes(files), reply_steps(files)).0.stage == ReadStage::Done,
        echo_run(initial_reader(), reply_bytes(files), reply_steps(files)).1 == files_events(files),
{
    lemma_pow256_values();
    crate::text::lemma_le_roundtrip(files.len(), 4);
    lemma_run_step(initial_reader(), le_bytes(files.len(), 4), files_bytes(files), files_steps(files));
    lemma_run_files(echo_step(initial_reader(), le_bytes(files.len(), 4)).0, files);
}

} // verus!
