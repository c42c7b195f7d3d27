//! Wire protocol: control messages and chunk framing.
//!
//! Every frame is `[tag][postcard bytes][payload?]`. On a byte-stream transport each frame is
//! preceded by a `u32` little-endian length; on a data channel there is no length prefix and
//! the message boundary is the framing.

use vstd::prelude::*;
use crate::blob_store::BlobHash;
use crate::hex::{self, hex_decode_result, hex_encode_spec};
use crate::text::{append, decimal, decimal_string, le_bytes, push_str, u32_le_bytes};
use vstd::string::StringSliceAdditionalSpecFns;
use vstd::utf8::encode_utf8;

verus! {

/// Protocol version carried in [`Control::Hello`].
pub const PROTOCOL_VERSION: u16 = 2;
/// Length of the 128-bit link capability.
pub const CAP_LEN: usize = 16;
/// Largest complete frame ever emitted, on any transport.
pub const DEFAULT_CHUNK: usize = 65536;
/// `u32` LE length prefix, on byte-stream transports only.
pub const LEN_PREFIX: usize = 4;
/// One tag byte in front of every frame.
pub const TAG_LEN: usize = 1;
/// Worst-case postcard-encoded [`ChunkHeader`]: 5 + 5 + 10 + 5 bytes.
pub const CHUNK_HEADER_MAX: usize = 25;
/// Framing cost of one chunk on a length-prefixed transport.
pub const CHUNK_OVERHEAD_STREAM: usize = LEN_PREFIX + TAG_LEN + CHUNK_HEADER_MAX;
/// Framing cost of one chunk on a message transport.
pub const CHUNK_OVERHEAD_DC: usize = TAG_LEN + CHUNK_HEADER_MAX;
/// A transport that cannot carry about 1 KiB of payload per frame is not used for chunks.
pub const MIN_USABLE_FRAME: usize = 1024;
/// Hard reader limit on every transport.
pub const MAX_FRAME: usize = 1048576;
/// Manifest cap, so a manifest always fits inside [`MAX_FRAME`].
pub const MAX_MANIFEST_FILES: usize = 2000;
/// Default initial credit grant the receiver sends after every request.
pub const INITIAL_WINDOW: u64 = 4194304;
/// `win=` values above this many MiB are clamped by the fragment parser.
pub const MAX_WINDOW_MIB: u64 = 64;
/// The receiver coalesces credit grants to roughly one per MiB consumed.
pub const CREDIT_GRAIN: u64 = 1048576;

/// Tag of a control frame.
pub const TAG_CONTROL: u8 = 0;
/// Tag of a chunk frame.
pub const TAG_CHUNK: u8 = 1;

/// One entry of the manifest. `name` is sender-supplied and must be sanitised before use.
#[derive(Clone, Debug, PartialEq, Eq)]
pub struct FileMeta {
    pub name: String,
    pub size: u64,
    pub hash: BlobHash,
}

/// Control messages. They travel only on the control stream.
#[derive(Clone, PartialEq, Eq)]
pub enum Control {
    Hello { version: u16, webrtc: bool, cap: [u8; 16] },
    Manifest { files: Vec<FileMeta> },
    Offer { sdp: String },
    Answer { sdp: String },
    Ice { candidate: String, sdp_mid: Option<String>, sdp_mline_index: Option<u16> },
    Request { file: u32, offset: u64, epoch: u32 },
    Credit { epoch: u32, bytes: u64 },
    UseRelay,
    Done { file: u32, epoch: u32 },
    Error { file: Option<u32>, epoch: Option<u32>, message: String },
    Verified { files: u32, bytes: u64 },
    VerifiedAck,
}

/// Header of one chunk frame.
#[derive(Clone, Copy, Debug, PartialEq, Eq, Structural)]
pub struct ChunkHeader {
    pub file: u32,
    pub epoch: u32,
    pub offset: u64,
    pub len: u32,
}

/// A decoded frame. The chunk payload borrows from the buffer it was decoded from.
#[derive(PartialEq)]
pub enum Frame<'a> {
    Control(Control),
    Chunk { header: ChunkHeader, payload: &'a [u8] },
}

/// A frame split at its tag: the still encoded body of a control frame, or a decoded chunk.
#[derive(Debug)]
pub enum RawFrame<'a> {
    Control(&'a [u8]),
    Chunk { header: ChunkHeader, payload: &'a [u8] },
}

#[verifier::external_type_specification]
#[verifier::external_body]
pub struct ExPostcardError(postcard::Error);

/// Framing errors. Wire input only, never a programming error.
#[derive(Debug)]
pub enum ProtocolError {
    Empty,
    UnknownTag(u8),
    Codec(postcard::Error),
    LengthMismatch { declared: u32, actual: usize },
    TooLarge(usize),
    Version { theirs: u16 },
    InvalidReceipt,
}

/// What `postcard::to_allocvec` writes for the tuple `(file, epoch, offset, len)`, which is
/// also how it writes a [`ChunkHeader`].
pub uninterp spec fn postcard_header_bytes(file: u32, epoch: u32, offset: u64, len: u32) -> Seq<
    u8,
>;

/// What `postcard::take_from_bytes::<(u32, u32, u64, u32)>` reads from the front of `bytes`:
/// the four fields and how many bytes they took, or `None` when it fails.
pub uninterp spec fn postcard_take_header(bytes: Seq<u8>) -> Option<(u32, u32, u64, u32, nat)>;

/// Serialises the header fields with `postcard::to_allocvec`. Postcard writes each integer
/// as a varint of at most 5 (`u32`) or 10 (`u64`) bytes, so the result is at most 25 bytes.
/// Serialising plain integers into a growable vector cannot fail in postcard.
#[verifier::external_body]
fn postcard_encode_header(file: u32, epoch: u32, offset: u64, len: u32) -> (r: Vec<u8>)
    ensures
        r@ == postcard_header_bytes(file, epoch, offset, len),
        r@.len() <= CHUNK_HEADER_MAX,
{
    postcard::to_allocvec(&(file, epoch, offset, len)).expect("integers always serialise")
}

/// Reads the header fields from the front of `bytes` with `postcard::take_from_bytes` and
/// returns them with the unread rest. The contract claims that the result is the named one,
/// that the rest is a suffix of `bytes`, and that postcard reads back exactly what
/// [`postcard_encode_header`] wrote, whatever follows it.
#[verifier::external_body]
fn postcard_decode_header(bytes: &[u8]) -> (r: Result<(ChunkHeader, &[u8]), postcard::Error>)
    ensures
        match postcard_take_header(bytes@) {
            Some((file, epoch, offset, len, used)) => r is Ok && r->Ok_0.0 == (ChunkHeader {
                file,
                epoch,
                offset,
                len,
            }) && used <= bytes@.len() && r->Ok_0.1@ == bytes@.skip(used as int),
            None => r is Err,
        },
        forall|file: u32, epoch: u32, offset: u64, len: u32, rest: Seq<u8>|
            bytes@ == #[trigger] (postcard_header_bytes(file, epoch, offset, len) + rest) ==> r is Ok
                && r->Ok_0.0 == (ChunkHeader { file, epoch, offset, len }) && r->Ok_0.1@ == rest,
{
    match postcard::take_from_bytes::<(u32, u32, u64, u32)>(bytes) {
        Ok(((file, epoch, offset, len), rest)) => Ok((ChunkHeader { file, epoch, offset, len }, rest)),
        Err(e) => Err(e),
    }
}

/// The payload budget of a frame of at most `limit` bytes: the limit less the framing of a
/// chunk (with the length prefix of a byte stream when `prefixed`), or 0 when the limit does
/// not even cover the framing.
pub open spec fn max_payload_spec(limit: usize, prefixed: bool) -> int {
    let overhead = if prefixed {
        CHUNK_OVERHEAD_STREAM
    } else {
        CHUNK_OVERHEAD_DC
    };
    if limit >= overhead {
        limit - overhead
    } else {
        0
    }
}

/// Largest payload whose complete encoded frame is at most `limit` bytes; 0 when `limit`
/// cannot even carry the framing.
pub fn max_payload(limit: usize, prefixed: bool) -> (r: usize)
    ensures
        r == max_payload_spec(limit, prefixed),
{
    limit.saturating_sub(
        if prefixed {
            CHUNK_OVERHEAD_STREAM
        } else {
            CHUNK_OVERHEAD_DC
        },
    )
}

/// A chunk carrying the whole payload budget of a frame fits the frame: its tag, the longest
/// header, the payload and, on a byte stream, the length prefix add up to the limit exactly.
pub proof fn lemma_full_chunk_fits(limit: usize, prefixed: bool)
    requires
        max_payload_spec(limit, prefixed) > 0,
    ensures
        TAG_LEN + CHUNK_HEADER_MAX + max_payload_spec(limit, prefixed) + (if prefixed {
            LEN_PREFIX
        } else {
            0
        }) == limit,
{
}

/// Outcome of frame-size negotiation for a transport that advertises a maximum message size.
#[derive(Clone, Copy, Debug, PartialEq, Eq, Structural)]
pub enum ChunkPlan {
    Frame(usize),
    TooSmall,
}

/// The plan for a transport's advertised limit: the default frame when there is none,
/// otherwise the limit capped at the default, refused below [`MIN_USABLE_FRAME`].
pub open spec fn chunk_plan(remote_max_message_size: Option<usize>) -> ChunkPlan {
    match remote_max_message_size {
        None => ChunkPlan::Frame(DEFAULT_CHUNK),
        Some(m) => {
            let frame = if m < DEFAULT_CHUNK {
                m
            } else {
                DEFAULT_CHUNK
            };
            if frame >= MIN_USABLE_FRAME {
                ChunkPlan::Frame(frame)
            } else {
                ChunkPlan::TooSmall
            }
        },
    }
}

/// Negotiation never rounds a limit up: a planned frame is at least [`MIN_USABLE_FRAME`],
/// at most the default and at most the advertised limit; a limit is refused only when it is
/// below [`MIN_USABLE_FRAME`].
pub proof fn lemma_negotiate_never_rounds_up(limit: usize)
    ensures
        chunk_plan(Some(limit)) matches ChunkPlan::Frame(f) ==> MIN_USABLE_FRAME <= f <= limit
            && f <= DEFAULT_CHUNK,
        chunk_plan(Some(limit)) is TooSmall <==> limit < MIN_USABLE_FRAME,
{
}

/// The complete-frame size for a transport: the default when the limit is unknown, otherwise
/// the limit capped at the default while that is at least [`MIN_USABLE_FRAME`]. Never rounds
/// a limit up.
pub fn negotiate_chunk(remote_max_message_size: Option<usize>) -> (r: ChunkPlan)
    ensures
        r == chunk_plan(remote_max_message_size),
{
    match remote_max_message_size {
        None => ChunkPlan::Frame(DEFAULT_CHUNK),
        Some(m) => {
            let frame = if m < DEFAULT_CHUNK {
                m
            } else {
                DEFAULT_CHUNK
            };
            if frame >= MIN_USABLE_FRAME {
                ChunkPlan::Frame(frame)
            } else {
                ChunkPlan::TooSmall
            }
        },
    }
}

/// `std::hint::black_box`: returns its argument unchanged while hiding it from the optimiser.
#[verifier::external_body]
fn black_box_byte(x: u8) -> (r: u8)
    ensures
        r == x,
{
    std::hint::black_box(x)
}

/// Comparison of two capabilities that folds XOR over every byte into one accumulator, with
/// no early exit, and compares once at the end.
pub fn cap_eq(a: &[u8; 16], b: &[u8; 16]) -> (r: bool)
    ensures
        r == (a@ == b@),
{
    let mut acc: u8 = 0;
    let mut i: usize = 0;
    while i < 16
        invariant
            0 <= i <= 16,
            a@.len() == 16,
            b@.len() == 16,
            (acc == 0) == (forall|j: int| 0 <= j < i ==> a@[j] == b@[j]),
        decreases 16 - i,
    {
        let x = a[i];
        let y = b[i];
        let next = acc | (x ^ y);
        assert((next == 0) == (acc == 0 && x == y)) by (bit_vector)
            requires
                next == acc | (x ^ y),
        ;
        acc = next;
        i = i + 1;
    }
    let r = black_box_byte(acc) == 0;
    assert(r ==> a@ =~= b@);
    r
}

/// The link encoding of a capability: exactly 32 lowercase hex digits.
pub fn cap_to_hex(cap: &[u8; 16]) -> (r: String)
    ensures
        r@ == hex_encode_spec(cap@),
{
    hex::encode(cap)
}

/// Whether a byte is an ASCII uppercase letter.
pub open spec fn is_upper_ascii(c: u8) -> bool {
    65 <= c <= 90
}

/// What parsing the bytes `b` of a link's capability gives.
pub open spec fn cap_from_hex_spec(b: Seq<u8>) -> Option<Seq<u8>> {
    if b.len() != 32 || exists|i: int| 0 <= i < b.len() && is_upper_ascii(#[trigger] b[i]) {
        None
    } else {
        match hex_decode_result(b) {
            Ok(v) => Some(v),
            Err(_) => None,
        }
    }
}

/// Inverse of [`cap_to_hex`]: exactly 32 lowercase hex digits, nothing else.
pub fn cap_from_hex(s: &str) -> (r: Option<[u8; 16]>)
    ensures
        match cap_from_hex_spec(s.spec_bytes()) {
            Some(v) => r is Some && r->0@ == v,
            None => r is None,
        },
{
    let b = s.as_bytes();
    if b.len() != 32 {
        return None;
    }
    let mut i: usize = 0;
    while i < b.len()
        invariant
            b@ == s.spec_bytes(),
            b@.len() == 32,
            i <= b@.len(),
            forall|j: int| 0 <= j < i ==> !is_upper_ascii(b@[j]),
        decreases b@.len() - i,
    {
        if 65 <= b[i] && b[i] <= 90 {
            assert(is_upper_ascii(b@[i as int]));
            return None;
        }
        i = i + 1;
    }
    let bytes = match hex::decode(s) {
        Ok(v) => v,
        Err(_) => return None,
    };
    let mut out = [0u8; 16];
    let mut k: usize = 0;
    while k < 16
        invariant
            bytes@.len() == 16,
            0 <= k <= 16,
            forall|j: int| 0 <= j < k ==> out@[j] == bytes@[j],
        decreases 16 - k,
    {
        out[k] = bytes[k];
        k = k + 1;
    }
    assert(out@ =~= bytes@);
    Some(out)
}

/// `[1] ++ postcard(header) ++ payload`.
pub open spec fn chunk_frame_bytes(h: ChunkHeader, payload: Seq<u8>) -> Seq<u8> {
    seq![TAG_CHUNK] + postcard_header_bytes(h.file, h.epoch, h.offset, h.len) + payload
}

/// The chunk frame `tag(1) + postcard(header) + payload`. The header's length must equal the
/// payload's: a mismatch is a caller's programming error.
pub fn encode_chunk(header: ChunkHeader, payload: &[u8]) -> (r: Vec<u8>)
    requires
        header.len == payload@.len(),
    ensures
        r@ == chunk_frame_bytes(header, payload@),
        r@.len() <= TAG_LEN + CHUNK_HEADER_MAX + payload@.len(),
{
    let head = postcard_encode_header(header.file, header.epoch, header.offset, header.len);
    let mut buf: Vec<u8> = Vec::new();
    buf.push(TAG_CHUNK);
    buf.extend_from_slice(head.as_slice());
    buf.extend_from_slice(payload);
    assert(buf@ =~= chunk_frame_bytes(header, payload@));
    buf
}

/// `tag(0) + body`, where `body` is the postcard encoding of a control message; refused when
/// the whole frame would exceed [`MAX_FRAME`].
pub fn frame_control(body: &[u8]) -> (r: Result<Vec<u8>, ProtocolError>)
    requires
        body@.len() + TAG_LEN <= usize::MAX,
    ensures
        body@.len() + TAG_LEN > MAX_FRAME ==> (r matches Err(ProtocolError::TooLarge(n)) && n
            == body@.len() + TAG_LEN),
        body@.len() + TAG_LEN <= MAX_FRAME ==> r is Ok && r->Ok_0@ == seq![TAG_CONTROL]
            + body@,
{
    if body.len() > MAX_FRAME - TAG_LEN {
        return Err(ProtocolError::TooLarge(body.len() + TAG_LEN));
    }
    let mut buf: Vec<u8> = Vec::new();
    buf.push(TAG_CONTROL);
    buf.extend_from_slice(body);
    assert(buf@ =~= seq![TAG_CONTROL] + body@);
    Ok(buf)
}

/// The limits a control message must respect before it is encoded or after it is decoded:
/// a manifest of more than [`MAX_MANIFEST_FILES`] entries is too large.
pub fn check_control(c: &Control) -> (r: Result<(), ProtocolError>)
    ensures
        (c matches Control::Manifest { files } && files@.len() > MAX_MANIFEST_FILES) ==> (r matches Err(
            ProtocolError::TooLarge(n),
        ) && n == c->Manifest_files@.len()),
        !(c matches Control::Manifest { files } && files@.len() > MAX_MANIFEST_FILES) ==> r is Ok,
{
    if let Control::Manifest { files } = c {
        if files.len() > MAX_MANIFEST_FILES {
            return Err(ProtocolError::TooLarge(files.len()));
        }
    }
    Ok(())
}

/// A decoded control message as a frame, refused when it breaks [`check_control`].
pub fn frame_from_control<'a>(c: Control) -> (r: Result<Frame<'a>, ProtocolError>)
    ensures
        (c matches Control::Manifest { files } && files@.len() > MAX_MANIFEST_FILES) ==> (r matches Err(
            ProtocolError::TooLarge(n),
        ) && n == c->Manifest_files@.len()),
        !(c matches Control::Manifest { files } && files@.len() > MAX_MANIFEST_FILES) ==> r
            == Ok::<Frame<'a>, ProtocolError>(Frame::Control(c)),
{
    match check_control(&c) {
        Ok(()) => Ok(Frame::Control(c)),
        Err(e) => Err(e),
    }
}

/// Splits a frame at its tag, checks its size, and decodes a chunk's header.
pub fn decode(frame: &[u8]) -> (r: Result<RawFrame<'_>, ProtocolError>)
    ensures
        frame@.len() > MAX_FRAME ==> (r matches Err(ProtocolError::TooLarge(n)) && n
            == frame@.len()),
        frame@.len() <= MAX_FRAME && frame@.len() == 0 ==> r matches Err(ProtocolError::Empty),
        frame@.len() <= MAX_FRAME && frame@.len() > 0 && frame@[0] == TAG_CONTROL ==> (r matches Ok(
            RawFrame::Control(body),
        ) && body@ == frame@.skip(1)),
        frame@.len() <= MAX_FRAME && frame@.len() > 0 && frame@[0] == TAG_CHUNK ==> match postcard_take_header(
            frame@.skip(1),
        ) {
            None => r matches Err(ProtocolError::Codec(_)),
            Some((file, epoch, offset, len, used)) => {
                let payload = frame@.skip(1).skip(used as int);
                if len != payload.len() {
                    r matches Err(ProtocolError::LengthMismatch { declared, actual })
                        && declared == len && actual == payload.len()
                } else {
                    r matches Ok(RawFrame::Chunk { header, payload: p }) && header == (ChunkHeader {
                        file,
                        epoch,
                        offset,
                        len,
                    }) && p@ == payload
                }
            },
        },
        frame@.len() <= MAX_FRAME && frame@.len() > 0 && frame@[0] != TAG_CONTROL && frame@[0]
            != TAG_CHUNK ==> (r matches Err(ProtocolError::UnknownTag(t)) && t == frame@[0]),
        forall|h: ChunkHeader, p: Seq<u8>|
            #[trigger] chunk_frame_bytes(h, p) == frame@ && frame@.len() <= MAX_FRAME ==> if h.len
                == p.len() {
                r matches Ok(RawFrame::Chunk { header, payload }) && header == h && payload@ == p
            } else {
                r matches Err(ProtocolError::LengthMismatch { declared, actual }) && declared == h.len
                    && actual == p.len()
            },
{
    if frame.len() > MAX_FRAME {
        return Err(ProtocolError::TooLarge(frame.len()));
    }
    if frame.len() == 0 {
        return Err(ProtocolError::Empty);
    }
    let tag = frame[0];
    let (_, rest) = frame.split_at(1);
    assert(rest@ == frame@.skip(1));
    if tag == TAG_CONTROL {
        Ok(RawFrame::Control(rest))
    } else if tag == TAG_CHUNK {
        let decoded = postcard_decode_header(rest);
        assert forall|h: ChunkHeader, p: Seq<u8>|
            #[trigger] chunk_frame_bytes(h, p) == frame@ implies decoded is Ok
                && decoded->Ok_0.0 == h && decoded->Ok_0.1@ == p by {
            assert(rest@ =~= postcard_header_bytes(h.file, h.epoch, h.offset, h.len) + p);
        }
        match decoded {
            Err(e) => Err(ProtocolError::Codec(e)),
            Ok((header, payload)) => {
                if header.len as usize != payload.len() {
                    Err(ProtocolError::LengthMismatch { declared: header.len, actual: payload.len() })
                } else {
                    Ok(RawFrame::Chunk { header, payload })
                }
            },
        }
    } else {
        Err(ProtocolError::UnknownTag(tag))
    }
}

/// What a byte stream carries for one frame: its length as a `u32` little-endian prefix, then
/// the frame.
pub open spec fn prefixed_frame(frame: Seq<u8>) -> Seq<u8> {
    le_bytes(frame.len(), 4) + frame
}

/// The bytes written for one frame on a byte-stream transport; refused when the frame is
/// larger than [`MAX_FRAME`].
pub fn length_prefixed(frame: &[u8]) -> (r: Result<Vec<u8>, ProtocolError>)
    ensures
        frame@.len() > MAX_FRAME ==> (r matches Err(ProtocolError::TooLarge(n)) && n
            == frame@.len()),
        frame@.len() <= MAX_FRAME ==> r is Ok && r->Ok_0@ == prefixed_frame(frame@),
{
    if frame.len() > MAX_FRAME {
        return Err(ProtocolError::TooLarge(frame.len()));
    }
    let mut out = u32_le_bytes(frame.len() as u32);
    append(&mut out, frame);
    Ok(out)
}

/// What `format!("{:?}", s)` writes for a string: `s` quoted, with `Debug` escapes.
pub uninterp spec fn debug_quoted(s: Seq<char>) -> Seq<char>;

/// `format!("{:?}", s)` for a string.
#[verifier::external_body]
fn debug_string(s: &str) -> (r: String)
    ensures
        r@ == debug_quoted(s@),
{
    format!("{:?}", s)
}

/// `true` or `false`.
pub open spec fn bool_text(b: bool) -> Seq<char> {
    if b {
        "true"@
    } else {
        "false"@
    }
}

/// `Some(..)` around the text of a value, or `None`.
pub open spec fn option_text(o: Option<Seq<char>>) -> Seq<char> {
    match o {
        Some(t) => "Some("@ + t + ")"@,
        None => "None"@,
    }
}

pub open spec fn opt_num(o: Option<u32>) -> Option<Seq<char>> {
    match o {
        Some(n) => Some(decimal(n as nat)),
        None => None,
    }
}

/// The text a control message is logged as. The capability of a `Hello` and the contents of
/// SDPs, candidates and file names never appear: a log line is shown to the user.
pub open spec fn control_text(c: Control) -> Seq<char> {
    match c {
        Control::Hello { version, webrtc, .. } => "Hello { version: "@ + decimal(version as nat)
            + ", webrtc: "@ + bool_text(webrtc) + ", cap: \"<redacted>\" }"@,
        Control::Manifest { files } => "Manifest { files: "@ + decimal(files@.len()) + " }"@,
        Control::Offer { sdp } => "Offer { sdp_len: "@ + decimal(
            (encode_utf8(sdp@).len() as usize) as nat,
        ) + " }"@,
        Control::Answer { sdp } => "Answer { sdp_len: "@ + decimal(
            (encode_utf8(sdp@).len() as usize) as nat,
        ) + " }"@,
        Control::Ice { sdp_mid, sdp_mline_index, .. } => "Ice { sdp_mid: "@ + option_text(
            match sdp_mid {
                Some(m) => Some(debug_quoted(m@)),
                None => None,
            },
        ) + ", sdp_mline_index: "@ + option_text(
            match sdp_mline_index {
                Some(n) => Some(decimal(n as nat)),
                None => None,
            },
        ) + " }"@,
        Control::Request { file, offset, epoch } => "Request { file: "@ + decimal(file as nat)
            + ", offset: "@ + decimal(offset as nat) + ", epoch: "@ + decimal(epoch as nat) + " }"@,
        Control::Credit { epoch, bytes } => "Credit { epoch: "@ + decimal(epoch as nat)
            + ", bytes: "@ + decimal(bytes as nat) + " }"@,
        Control::UseRelay => "UseRelay"@,
        Control::Done { file, epoch } => "Done { file: "@ + decimal(file as nat) + ", epoch: "@
            + decimal(epoch as nat) + " }"@,
        Control::Error { file, epoch, message } => "Error { file: "@ + option_text(opt_num(file))
            + ", epoch: "@ + option_text(opt_num(epoch)) + ", message: "@ + debug_quoted(
            message@,
        ) + " }"@,
        Control::Verified { files, bytes } => "Verified { files: "@ + decimal(files as nat)
            + ", bytes: "@ + decimal(bytes as nat) + " }"@,
        Control::VerifiedAck => "VerifiedAck"@,
    }
}

fn push_bool(s: &mut String, b: bool)
    ensures
        final(s)@ == old(s)@ + bool_text(b),
{
    if b {
        push_str(s, "true");
    } else {
        push_str(s, "false");
    }
}

fn push_num(s: &mut String, n: u64)
    ensures
        final(s)@ == old(s)@ + decimal(n as nat),
{
    let d = decimal_string(n);
    push_str(s, d.as_str());
}

fn push_opt_num(s: &mut String, o: Option<u32>)
    ensures
        final(s)@ == old(s)@ + option_text(opt_num(o)),
{
    match o {
        Some(n) => {
            push_str(s, "Some(");
            push_num(s, n as u64);
            push_str(s, ")");
        },
        None => push_str(s, "None"),
    }
}

impl Control {
    /// The text this message is logged as (what `{:?}` prints for it).
    pub fn describe(&self) -> (r: String)
        ensures
            r@ == control_text(*self),
    {
        let mut s = String::new();
        match self {
            Control::Hello { version, webrtc, .. } => {
                push_str(&mut s, "Hello { version: ");
                push_num(&mut s, *version as u64);
                push_str(&mut s, ", webrtc: ");
                push_bool(&mut s, *webrtc);
                push_str(&mut s, ", cap: \"<redacted>\" }");
            },
            Control::Manifest { files } => {
                push_str(&mut s, "Manifest { files: ");
                push_num(&mut s, files.len() as u64);
                push_str(&mut s, " }");
                assert(s@ =~= control_text(*self));
            },
            Control::Offer { sdp } => {
                push_str(&mut s, "Offer { sdp_len: ");
                push_num(&mut s, sdp.as_str().len() as u64);
                push_str(&mut s, " }");
                assert(s@ =~= control_text(*self));
            },
            Control::Answer { sdp } => {
                push_str(&mut s, "Answer { sdp_len: ");
                push_num(&mut s, sdp.as_str().len() as u64);
                push_str(&mut s, " }");
                assert(s@ =~= control_text(*self));
            },
            Control::Ice { sdp_mid, sdp_mline_index, .. } => {
                push_str(&mut s, "Ice { sdp_mid: ");
                match sdp_mid {
                    Some(m) => {
                        push_str(&mut s, "Some(");
                        let q = debug_string(m.as_str());
                        push_str(&mut s, q.as_str());
                        push_str(&mut s, ")");
                    },
                    None => push_str(&mut s, "None"),
                }
                push_str(&mut s, ", sdp_mline_index: ");
                match sdp_mline_index {
                    Some(n) => {
                        push_str(&mut s, "Some(");
                        push_num(&mut s, *n as u64);
                        push_str(&mut s, ")");
                    },
                    None => push_str(&mut s, "None"),
                }
                push_str(&mut s, " }");
                assert(s@ =~= control_text(*self));
            },
            Control::Request { file, offset, epoch } => {
                push_str(&mut s, "Request { file: ");
                push_num(&mut s, *file as u64);
                push_str(&mut s, ", offset: ");
                push_num(&mut s, *offset);
                push_str(&mut s, ", epoch: ");
                push_num(&mut s, *epoch as u64);
                push_str(&mut s, " }");
                assert(s@ =~= control_text(*self));
            },
            Control::Credit { epoch, bytes } => {
                push_str(&mut s, "Credit { epoch: ");
                push_num(&mut s, *epoch as u64);
                push_str(&mut s, ", bytes: ");
                push_num(&mut s, *bytes);
                push_str(&mut s, " }");
                assert(s@ =~= control_text(*self));
            },
            Control::UseRelay => {
                push_str(&mut s, "UseRelay");
                assert(s@ =~= control_text(*self));
            },
            Control::Done { file, epoch } => {
                push_str(&mut s, "Done { file: ");
                push_num(&mut s, *file as u64);
                push_str(&mut s, ", epoch: ");
                push_num(&mut s, *epoch as u64);
                push_str(&mut s, " }");
                assert(s@ =~= control_text(*self));
            },
            Control::Error { file, epoch, message } => {
                push_str(&mut s, "Error { file: ");
                push_opt_num(&mut s, *file);
                push_str(&mut s, ", epoch: ");
                push_opt_num(&mut s, *epoch);
                push_str(&mut s, ", message: ");
                let q = debug_string(message.as_str());
                push_str(&mut s, q.as_str());
                push_str(&mut s, " }");
                assert(s@ =~= control_text(*self));
            },
            Control::Verified { files, bytes } => {
                push_str(&mut s, "Verified { files: ");
                push_num(&mut s, *files as u64);
                push_str(&mut s, ", bytes: ");
                push_num(&mut s, *bytes);
                push_str(&mut s, " }");
                assert(s@ =~= control_text(*self));
            },
            Control::VerifiedAck => {
                push_str(&mut s, "VerifiedAck");
                assert(s@ =~= control_text(*self));
            },
        }
        s
    }
}

/// A link's capability reads back as the capability it encodes.
pub proof fn lemma_cap_roundtrip(cap: Seq<u8>)
    requires
        cap.len() == CAP_LEN,
    ensures
        cap_from_hex_spec(encode_utf8(hex_encode_spec(cap))) == Some(cap),
{
    hex::lemma_hex_roundtrip(cap);
    hex::lemma_hex_is_ascii(cap);
    let b = encode_utf8(hex_encode_spec(cap));
    assert(!(exists|i: int| 0 <= i < b.len() && is_upper_ascii(#[trigger] b[i])));
}

} // verus!
