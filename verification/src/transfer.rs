//! The transfer engine's decisions: errors, session phases, flow control, framing on byte
//! streams, and the sender's and receiver's session state machines. The caller performs the
//! I/O each decision asks for and hands the outcome back.

use vstd::prelude::*;
use crate::node::{FragmentParams, SinkPref};
use crate::protocol::{
    cap_eq, max_payload, max_payload_spec, prefixed_frame, ChunkHeader, Control, FileMeta, ProtocolError,
    CREDIT_GRAIN, INITIAL_WINDOW, LEN_PREFIX, MAX_FRAME, PROTOCOL_VERSION,
};
use crate::blob_store::{
    blake3_hash, hasher_finalize, hasher_input, hasher_new, hasher_regular, hasher_update, BlobHash,
};
use crate::file_io::{served, IoFailure, Source};
use crate::text::{le_bytes, le_value, lemma_le_roundtrip, pow256, u32_from_le};

verus! {

/// Reconnection attempts after the first connection of a receive.
pub const MAX_RECONNECT_ATTEMPTS: u32 = 4;
/// First pause before a reconnection, in milliseconds.
pub const RECONNECT_BACKOFF_MS: u64 = 500;
/// Longest pause between reconnections, in milliseconds.
pub const MAX_RECONNECT_BACKOFF_MS: u64 = 8000;
/// Read-ahead of a source while serving, in bytes.
pub const READ_AHEAD: usize = 1048576;
/// How long a sender waits for the receiver's `Hello`, in milliseconds.
pub const HELLO_DEADLINE_MS: u64 = 10000;
/// How long a parked request waits for its data channel to open, in milliseconds.
pub const DCEP_DEADLINE_MS: u64 = 2000;
/// How long an auxiliary step may take, in milliseconds.
pub const AUX_DEADLINE_MS: u64 = 5000;
/// How long a receiver waits for any frame before it gives up, in milliseconds.
pub const INACTIVITY_MS: u64 = 30000;
/// How long one write to a destination may take, in milliseconds.
pub const WRITE_DEADLINE_MS: u64 = 60000;
/// How long dialling the sender may take, in milliseconds.
pub const CONNECT_TIMEOUT_MS: u64 = 15000;
/// How long a data channel may take to open, in milliseconds.
pub const WEBRTC_OPEN_MS: u64 = 10000;

/// Shortest pause between two progress reports, in milliseconds.
pub const PROGRESS_INTERVAL_MS: u64 = 50;
/// Bytes of progress that make a report due however soon it follows the last one.
pub const PROGRESS_BYTES: u64 = 1048576;
/// Shortest span of one throughput sample, in milliseconds.
pub const RATE_WINDOW_MS: u64 = 250;

/// `a - b`, or 0 when `b` is the larger.
pub open spec fn since(a: u64, b: u64) -> u64 {
    if a >= b { (a - b) as u64 } else { 0 }
}

/// What one progress check decided: whether to report, and the throughput sample taken, as
/// bytes over milliseconds, when one was due.
pub struct MeterStep {
    pub publish: bool,
    pub sample: Option<(u64, u64)>,
}

/// When progress was last reported and last sampled. Times are milliseconds of a monotonic
/// clock that the caller reads; the throughput average itself is the caller's.
pub struct ProgressMeter {
    pub published_at: Option<u64>,
    pub published_bytes: u64,
    pub sampled_at: u64,
    pub sampled_bytes: u64,
}

impl ProgressMeter {
    /// A meter started at `now_ms`: nothing reported yet, so the first check reports.
    pub fn new(now_ms: u64) -> (r: ProgressMeter)
        ensures
            r.published_at is None,
            r.published_bytes == 0,
            r.sampled_at == now_ms,
            r.sampled_bytes == 0,
    {
        ProgressMeter { published_at: None, published_bytes: 0, sampled_at: now_ms, sampled_bytes: 0 }
    }

    /// Whether `bytes_done` at `now_ms` is worth reporting: nothing was reported yet, or the
    /// last report is at least [`PROGRESS_INTERVAL_MS`] old, or at least [`PROGRESS_BYTES`]
    /// behind. A throughput sample is taken once the last one is [`RATE_WINDOW_MS`] old.
    pub fn due(&mut self, now_ms: u64, bytes_done: u64) -> (r: MeterStep)
        ensures
            ({
                let elapsed = since(now_ms, old(self).sampled_at);
                if elapsed >= RATE_WINDOW_MS {
                    r.sample == Some((since(bytes_done, old(self).sampled_bytes), elapsed))
                        && final(self).sampled_at == now_ms && final(self).sampled_bytes == bytes_done
                } else {
                    r.sample is None && final(self).sampled_at == old(self).sampled_at
                        && final(self).sampled_bytes == old(self).sampled_bytes
                }
            }),
            r.publish == (match old(self).published_at {
                None => true,
                Some(t) => since(now_ms, t) >= PROGRESS_INTERVAL_MS,
            } || since(bytes_done, old(self).published_bytes) >= PROGRESS_BYTES),
            r.publish ==> final(self).published_at == Some(now_ms) && final(self).published_bytes == bytes_done,
            !r.publish ==> final(self).published_at == old(self).published_at
                && final(self).published_bytes == old(self).published_bytes,
    {
        let elapsed = now_ms.saturating_sub(self.sampled_at);
        let sample = if elapsed >= RATE_WINDOW_MS {
            let s = Some((bytes_done.saturating_sub(self.sampled_bytes), elapsed));
            self.sampled_at = now_ms;
            self.sampled_bytes = bytes_done;
            s
        } else {
            None
        };
        let stale = match self.published_at {
            None => true,
            Some(t) => now_ms.saturating_sub(t) >= PROGRESS_INTERVAL_MS,
        };
        let publish = stale || bytes_done.saturating_sub(self.published_bytes) >= PROGRESS_BYTES;
        if publish {
            self.published_at = Some(now_ms);
            self.published_bytes = bytes_done;
        }
        MeterStep { publish, sample }
    }
}

/// The earlier of two optional deadlines; `None` only when both are.
pub fn earliest(a: Option<u64>, b: Option<u64>) -> (r: Option<u64>)
    ensures
        r == match (a, b) {
            (Some(x), Some(y)) => Some(if x <= y { x } else { y }),
            (Some(x), None) => Some(x),
            (None, y) => y,
        },
{
    match (a, b) {
        (Some(x), Some(y)) => Some(if x <= y { x } else { y }),
        (Some(x), None) => Some(x),
        (None, y) => y,
    }
}

/// A transport-level failure. `Cancelled` and `Closed` are benign for a data-channel send;
/// only a control-stream error is fatal to a session.
#[derive(Debug)]
pub enum TransportError {
    Closed,
    Cancelled,
    Io(String),
    TooLarge(usize),
    Timeout,
    Protocol(ProtocolError),
}

/// Why an authorization check failed.
#[derive(Debug, Clone, Copy, PartialEq, Eq, Structural)]
pub enum AuthFailure {
    /// The link carried no access code at all.
    MissingCap,
    /// The sender rejected the code that was offered.
    Rejected,
}

/// Session-level errors.
#[derive(Debug)]
pub enum TransferError {
    Unauthorized(AuthFailure),
    Version { theirs: u16 },
    Protocol(ProtocolError),
    HashMismatch { file: u32 },
    /// A session-fatal `Error` frame from the peer.
    Remote(String),
    Transport(TransportError),
    Io(String),
    /// A destination operation timed out; its commit state is uncertain, so it is never retried.
    SinkTimeout,
    /// A fresh connection offered different content than the session's first manifest.
    ManifestChanged,
    Timeout,
    Cancelled,
}

/// Which kind of path bytes are travelling over.
#[derive(Clone, Copy, Debug, PartialEq, Eq, Structural)]
pub enum Path {
    Unknown,
    Direct,
    Relayed,
}

/// Engine-level peer-connection state.
#[derive(Clone, Copy, Debug, PartialEq, Eq, Structural)]
pub enum PcState {
    New,
    Connecting,
    Connected,
    Failed,
    Closed,
}

impl PcState {
    /// Whether the connection can never open again.
    pub fn is_terminal(&self) -> (r: bool)
        ensures
            r <==> (*self == PcState::Failed || *self == PcState::Closed),
    {
        match self {
            PcState::Failed | PcState::Closed => true,
            _ => false,
        }
    }
}

/// One trickle-ICE candidate, in the shape the `Ice` control frame carries.
#[derive(Clone, Debug, PartialEq, Eq)]
pub struct IceCandidate {
    pub candidate: String,
    pub sdp_mid: Option<String>,
    pub sdp_mline_index: Option<u16>,
}

/// Which side of the WebRTC handshake this is. The sender offers, the receiver answers.
#[derive(Clone, Copy, Debug, PartialEq, Eq, Structural)]
pub enum DcRole {
    Offerer,
    Answerer,
}

/// The data-channel factory of builds with no WebRTC.
#[derive(Clone, Debug)]
pub struct NoWebRtc;

impl NoWebRtc {
    /// The `webrtc` bit this side puts in `Hello`: never.
    pub fn available(&self) -> (r: bool)
        ensures
            !r,
    {
        false
    }

    /// No channel can be created: the attempt always fails, and nothing is handed back.
    pub fn create(&self, role: DcRole) -> (r: Result<(), TransportError>)
        ensures
            r matches Err(TransportError::Closed),
    {
        Err(TransportError::Closed)
    }
}

/// The data-channel factory of this build: one without WebRTC.
pub fn default_dc_factory() -> (r: NoWebRtc)
    ensures
        !r.available_spec(),
{
    NoWebRtc
}

impl NoWebRtc {
    pub open spec fn available_spec(&self) -> bool {
        false
    }
}

/// Byte-budgeted admission for a queue fed by one side and drained by the other. The budget
/// is in bytes, never in frames, so that a conforming sender is never refused at small frame
/// sizes.
#[derive(Debug)]
pub struct ByteBudget {
    budget: usize,
    in_queue: usize,
}

impl ByteBudget {
    pub closed spec fn limit(&self) -> nat {
        self.budget as nat
    }

    pub closed spec fn queued(&self) -> nat {
        self.in_queue as nat
    }

    pub fn new(budget: usize) -> (r: ByteBudget)
        ensures
            r.limit() == budget,
            r.queued() == 0,
    {
        ByteBudget { budget, in_queue: 0 }
    }

    pub fn budget(&self) -> (r: usize)
        ensures
            r == self.limit(),
    {
        self.budget
    }

    /// Set before a transport begins delivering frames.
    pub fn set_budget(&mut self, budget: usize)
        ensures
            final(self).limit() == budget,
            final(self).queued() == old(self).queued(),
    {
        self.budget = budget;
    }

    pub fn in_queue(&self) -> (r: usize)
        ensures
            r == self.queued(),
    {
        self.in_queue
    }

    /// Reserves `len` bytes of queue space, or reports that the peer overran the window.
    pub fn try_admit(&mut self, len: usize) -> (r: bool)
        ensures
            final(self).limit() == old(self).limit(),
            r <==> old(self).queued() + len <= old(self).limit(),
            r ==> final(self).queued() == old(self).queued() + len,
            !r ==> final(self).queued() == old(self).queued(),
    {
        if self.in_queue <= self.budget && len <= self.budget - self.in_queue {
            self.in_queue = self.in_queue + len;
            true
        } else {
            false
        }
    }

    /// Gives `len` bytes of queue space back once the reader took them.
    pub fn release(&mut self, len: usize)
        ensures
            final(self).limit() == old(self).limit(),
            final(self).queued() == queue_after_release(old(self).queued(), len as nat),
    {
        self.in_queue = self.in_queue.saturating_sub(len);
    }
}

/// The queue after releasing `len` bytes from `queued`: never below zero.
pub open spec fn queue_after_release(queued: nat, len: nat) -> nat {
    if queued >= len {
        (queued - len) as nat
    } else {
        0
    }
}

/// Releasing what was admitted gives the space back: a queue of `queued` bytes that admits
/// `len` more, then releases `len`, holds `queued` again.
pub proof fn lemma_release_undoes_admit(queued: nat, len: nat)
    ensures
        queue_after_release(queued + len, len) == queued,
{
}

/// A conforming sender is never refused: frames of `lens`, admitted in order into an empty
/// queue whose limit covers their sum, each fit when they arrive.
pub proof fn lemma_budget_admits_window(limit: nat, lens: Seq<u64>)
    requires
        sum_sizes(lens) <= limit,
    ensures
        forall|k: int| 0 <= k < lens.len() ==> sum_sizes(lens.take(k)) + lens[k] <= limit,
{
    assert forall|k: int| 0 <= k < lens.len() implies sum_sizes(lens.take(k)) + lens[k] <= limit by {
        lemma_sum_sizes_prefix(lens, k + 1, lens.len() as int);
        assert(lens.take(k + 1).drop_last() =~= lens.take(k));
        assert(lens.take(k + 1).last() == lens[k]);
        assert(lens.take(lens.len() as int) =~= lens);
    }
}

/// Sender-side settings: the share's capability and the deadlines, in milliseconds.
#[derive(Clone)]
pub struct SenderOptions {
    pub cap: [u8; 16],
    pub hello_deadline_ms: u64,
    pub dcep_deadline_ms: u64,
    pub aux_deadline_ms: u64,
}

impl SenderOptions {
    /// The settings of a share with capability `cap`, with the default deadlines.
    pub fn new(cap: [u8; 16]) -> (r: SenderOptions)
        ensures
            r.cap == cap,
            r.hello_deadline_ms == HELLO_DEADLINE_MS,
            r.dcep_deadline_ms == DCEP_DEADLINE_MS,
            r.aux_deadline_ms == AUX_DEADLINE_MS,
    {
        SenderOptions {
            cap,
            hello_deadline_ms: HELLO_DEADLINE_MS,
            dcep_deadline_ms: DCEP_DEADLINE_MS,
            aux_deadline_ms: AUX_DEADLINE_MS,
        }
    }
}

/// Receiver-side settings: the deadlines in milliseconds, the reconnection policy, and what
/// the link's fragment asked for.
#[derive(Clone)]
pub struct ReceiveOptions {
    /// Never offer WebRTC (fragment `relay`).
    pub force_relay: bool,
    pub inactivity_ms: u64,
    pub write_deadline_ms: u64,
    pub aux_deadline_ms: u64,
    pub connect_timeout_ms: u64,
    pub webrtc_open_ms: u64,
    pub max_reconnect_attempts: u32,
    pub reconnect_backoff_ms: u64,
    pub max_reconnect_backoff_ms: u64,
    /// The link's access code; without one a receive fails before dialling.
    pub cap: Option<[u8; 16]>,
    /// Fragment `sink=`.
    pub sink_pref: SinkPref,
    /// Fragment `killdc=`.
    pub kill_dc_after: Option<u64>,
    /// Fragment `win=`: the initial credit grant, in bytes.
    pub initial_window: u64,
}

/// Whether `o` holds the default deadlines and reconnection policy.
pub open spec fn default_timing(o: ReceiveOptions) -> bool {
    &&& o.inactivity_ms == INACTIVITY_MS
    &&& o.write_deadline_ms == WRITE_DEADLINE_MS
    &&& o.aux_deadline_ms == AUX_DEADLINE_MS
    &&& o.connect_timeout_ms == CONNECT_TIMEOUT_MS
    &&& o.webrtc_open_ms == WEBRTC_OPEN_MS
    &&& o.max_reconnect_attempts == MAX_RECONNECT_ATTEMPTS
    &&& o.reconnect_backoff_ms == RECONNECT_BACKOFF_MS
    &&& o.max_reconnect_backoff_ms == MAX_RECONNECT_BACKOFF_MS
}

impl Default for ReceiveOptions {
    /// The default deadlines, no access code, no test flag, and the default window.
    fn default() -> (r: ReceiveOptions)
        ensures
            default_timing(r),
            !r.force_relay,
            r.cap is None,
            r.sink_pref == SinkPref::Auto,
            r.kill_dc_after is None,
            r.initial_window == INITIAL_WINDOW,
    {
        ReceiveOptions {
            force_relay: false,
            inactivity_ms: INACTIVITY_MS,
            write_deadline_ms: WRITE_DEADLINE_MS,
            aux_deadline_ms: AUX_DEADLINE_MS,
            connect_timeout_ms: CONNECT_TIMEOUT_MS,
            webrtc_open_ms: WEBRTC_OPEN_MS,
            max_reconnect_attempts: MAX_RECONNECT_ATTEMPTS,
            reconnect_backoff_ms: RECONNECT_BACKOFF_MS,
            max_reconnect_backoff_ms: MAX_RECONNECT_BACKOFF_MS,
            cap: None,
            sink_pref: SinkPref::Auto,
            kill_dc_after: None,
            initial_window: INITIAL_WINDOW,
        }
    }
}

impl ReceiveOptions {
    /// The settings a parsed fragment asks for: its flags, its access code and its window,
    /// the default window when it named none, and the default deadlines.
    pub fn from_fragment(p: &FragmentParams) -> (r: ReceiveOptions)
        ensures
            default_timing(r),
            r.force_relay == p.force_relay,
            r.cap == p.cap,
            r.sink_pref == p.sink_pref,
            r.kill_dc_after == p.kill_dc_after,
            r.initial_window == match p.window {
                Some(w) => w,
                None => INITIAL_WINDOW,
            },
    {
        let d = ReceiveOptions::default();
        ReceiveOptions {
            force_relay: p.force_relay,
            cap: p.cap,
            sink_pref: p.sink_pref,
            kill_dc_after: p.kill_dc_after,
            initial_window: match p.window {
                Some(w) => w,
                None => INITIAL_WINDOW,
            },
            ..d
        }
    }
}

/// What splitting one length-prefixed frame off the front of `buf` gives: `Ok(None)` while it
/// is not all there, the frame and what follows it, or the refused declared length.
pub open spec fn take_frame_result(buf: Seq<u8>) -> Result<Option<(Seq<u8>, Seq<u8>)>, nat> {
    if buf.len() < LEN_PREFIX {
        Ok(None)
    } else {
        let len = le_value(buf.take(4));
        if len > MAX_FRAME {
            Err(len)
        } else if buf.len() < LEN_PREFIX + len {
            Ok(None)
        } else {
            Ok(Some((buf.subrange(4, 4 + len as int), buf.skip(4 + len as int))))
        }
    }
}

/// Splits one complete length-prefixed frame off the front of `buf`, if it is all there. A
/// declared length above [`MAX_FRAME`] is refused before anything is taken.
pub fn take_frame(buf: &mut Vec<u8>) -> (r: Result<Option<Vec<u8>>, TransportError>)
    ensures
        match take_frame_result(old(buf)@) {
            Ok(None) => r matches Ok(None) && final(buf)@ == old(buf)@,
            Ok(Some((frame, rest))) => r matches Ok(Some(f)) && f@ == frame && final(buf)@ == rest,
            Err(n) => r matches Err(TransportError::TooLarge(m)) && m == n && final(buf)@ == old(
                buf,
            )@,
        },
{
    if buf.len() < LEN_PREFIX {
        return Ok(None);
    }
    let declared = u32_from_le(buf.as_slice());
    if declared as usize > MAX_FRAME {
        return Err(TransportError::TooLarge(declared as usize));
    }
    let len = declared as usize;
    if buf.len() - LEN_PREFIX < len {
        return Ok(None);
    }
    let mut frame: Vec<u8> = Vec::new();
    let mut i: usize = 0;
    while i < len
        invariant
            i <= len,
            4 + len <= buf@.len(),
            buf@.len() <= usize::MAX,
            frame@ == buf@.subrange(4, 4 + i),
        decreases len - i,
    {
        frame.push(buf[4 + i]);
        assert(frame@ =~= buf@.subrange(4, 4 + i + 1));
        i = i + 1;
    }
    let mut rest: Vec<u8> = Vec::new();
    let mut j: usize = 4 + len;
    while j < buf.len()
        invariant
            4 + len <= j <= buf@.len(),
            rest@ == buf@.subrange(4 + len, j as int),
        decreases buf@.len() - j,
    {
        rest.push(buf[j]);
        assert(rest@ =~= buf@.subrange(4 + len, j + 1));
        j = j + 1;
    }
    assert(rest@ =~= buf@.skip(4 + len));
    *buf = rest;
    Ok(Some(frame))
}

/// Reading a byte stream back gives what was written: a frame written with its length prefix
/// (see [`crate::protocol::length_prefixed`]) is split off whole, whatever follows it.
pub proof fn lemma_take_frame_after_prefix(frame: Seq<u8>, rest: Seq<u8>)
    requires
        frame.len() <= MAX_FRAME,
    ensures
        take_frame_result(prefixed_frame(frame) + rest) == Ok::<
            Option<(Seq<u8>, Seq<u8>)>,
            nat,
        >(Some((frame, rest))),
{
    assert(pow256(4) == 4294967296) by {
        reveal_with_fuel(pow256, 5);
    }
    lemma_le_roundtrip(frame.len(), 4);
    let buf = prefixed_frame(frame) + rest;
    assert(buf.take(4) =~= le_bytes(frame.len(), 4));
    assert(buf.subrange(4, 4 + frame.len() as int) =~= frame);
    assert(buf.skip(4 + frame.len() as int) =~= rest);
}

/// Where a session is. `AwaitingSave` carries the manifest the user is about to accept;
/// `Complete` carries the saved files.
#[derive(Clone, Debug, PartialEq)]
pub enum Phase {
    Connecting,
    Reconnecting { attempt: u32, max_attempts: u32 },
    Handshake,
    AwaitingSave { manifest: Vec<crate::protocol::FileMeta> },
    Signaling,
    Transferring,
    Switching,
    Verifying,
    Complete { saved: Vec<crate::file_io::SavedFile> },
    Failed,
    Cancelled,
}

impl Phase {
    /// Whether the session is over.
    pub fn is_terminal(&self) -> (r: bool)
        ensures
            r <==> (*self is Complete || *self is Failed || *self is Cancelled),
    {
        match self {
            Phase::Complete { .. } | Phase::Failed | Phase::Cancelled => true,
            _ => false,
        }
    }
}

/// `Error` control frame for the whole session.
pub fn session_error(message: &str) -> (r: Control)
    ensures
        r matches Control::Error { file, epoch, message: m } && file is None && epoch is None
            && m@ == message@,
{
    Control::Error { file: None, epoch: None, message: message.to_owned() }
}

/// The total of `sizes`.
pub open spec fn sum_sizes(sizes: Seq<u64>) -> int
    decreases sizes.len(),
{
    if sizes.len() == 0 {
        0
    } else {
        sum_sizes(sizes.drop_last()) + sizes.last()
    }
}

pub proof fn lemma_sum_sizes_prefix(sizes: Seq<u64>, i: int, j: int)
    requires
        0 <= i <= j <= sizes.len(),
    ensures
        0 <= sum_sizes(sizes.take(i)) <= sum_sizes(sizes.take(j)),
    decreases j - i,
{
    if i < j {
        lemma_sum_sizes_prefix(sizes, i, j - 1);
        assert(sizes.take(j).drop_last() =~= sizes.take(j - 1));
    } else {
        lemma_sum_nonneg(sizes.take(i));
    }
}

pub proof fn lemma_sum_nonneg(sizes: Seq<u64>)
    ensures
        sum_sizes(sizes) >= 0,
    decreases sizes.len(),
{
    if sizes.len() > 0 {
        lemma_sum_nonneg(sizes.drop_last());
    }
}

/// The sum of the first `n` of `sizes`, when the whole sum fits in a `u64`.
pub fn prefix_total(sizes: &[u64], n: usize) -> (r: u64)
    requires
        n <= sizes@.len(),
        sum_sizes(sizes@) <= u64::MAX,
    ensures
        r == sum_sizes(sizes@.take(n as int)),
{
    let mut total: u64 = 0;
    let mut i: usize = 0;
    while i < n
        invariant
            i <= n <= sizes@.len(),
            sum_sizes(sizes@) <= u64::MAX,
            total == sum_sizes(sizes@.take(i as int)),
        decreases n - i,
    {
        proof {
            lemma_sum_sizes_prefix(sizes@, i + 1, sizes@.len() as int);
            assert(sizes@.take(sizes@.len() as int) =~= sizes@);
            assert(sizes@.take(i + 1).drop_last() =~= sizes@.take(i as int));
        }
        total = total + sizes[i];
        i = i + 1;
    }
    total
}

/// What the sender's first frame from the receiver turned out to be.
pub enum FirstFrame {
    Hello { version: u16, webrtc: bool, cap: [u8; 16] },
    /// A readable frame that is not a `Hello`.
    Other,
    /// A frame that could not be decoded.
    Unreadable(ProtocolError),
}

/// The sender's answer to a connection's first frame: go on, or send the one `Error` frame
/// with `message`, close the connection with `close_reason`, and end with `error`.
pub enum HelloVerdict {
    Accept { their_webrtc: bool },
    Refuse { message: String, close_reason: String, error: TransferError },
}

/// The check a connection passes before the sender sends it anything: the first frame must
/// be a `Hello` of this protocol version carrying this share's capability, and something must
/// be shared. A connection that fails it gets the refusal and nothing more.
pub fn sender_gate(first: FirstFrame, cap: &[u8; 16], files_shared: usize) -> (r: HelloVerdict)
    ensures
        (r is Accept) <==> (first matches FirstFrame::Hello { version, cap: theirs, .. }
            && version == PROTOCOL_VERSION && theirs@ == cap@ && files_shared > 0),
        r matches HelloVerdict::Accept { their_webrtc } ==> (first matches FirstFrame::Hello {
            webrtc,
            ..
        } && webrtc == their_webrtc),
        first is Other ==> (r matches HelloVerdict::Refuse { message, close_reason, error }
            && message@ == "expected a Hello frame"@ && close_reason@ == "protocol"@
            && (error matches TransferError::Version { theirs } && theirs == 0)),
        first is Unreadable ==> (r matches HelloVerdict::Refuse { message, close_reason, error }
            && message@ == "unreadable first frame"@ && close_reason@ == "protocol"@
            && error is Protocol),
        (first matches FirstFrame::Hello { version, .. } && version != PROTOCOL_VERSION) ==> (
        r matches HelloVerdict::Refuse { message, close_reason, error }
            && message@ == "unsupported protocol version"@ && close_reason@ == "version"@
            && (error matches TransferError::Version { theirs } && theirs == first->Hello_version)),
        (first matches FirstFrame::Hello { version, cap: theirs, .. } && version
            == PROTOCOL_VERSION && theirs@ != cap@) ==> (r matches HelloVerdict::Refuse {
            message,
            close_reason,
            error,
        } && message@ == "unauthorized"@ && close_reason@ == "unauthorized"@
            && error matches TransferError::Unauthorized(AuthFailure::Rejected)),
        (first matches FirstFrame::Hello { version, cap: theirs, .. } && version
            == PROTOCOL_VERSION && theirs@ == cap@ && files_shared == 0) ==> (
        r matches HelloVerdict::Refuse { message, close_reason, error } && message@
            == "no files"@ && close_reason@ == "no files"@ && (error matches TransferError::Io(m)
            && m@ == "no files are shared"@)),
{
    match first {
        FirstFrame::Other => HelloVerdict::Refuse {
            message: "expected a Hello frame".to_owned(),
            close_reason: "protocol".to_owned(),
            error: TransferError::Version { theirs: 0 },
        },
        FirstFrame::Unreadable(e) => HelloVerdict::Refuse {
            message: "unreadable first frame".to_owned(),
            close_reason: "protocol".to_owned(),
            error: TransferError::Protocol(e),
        },
        FirstFrame::Hello { version, webrtc, cap: theirs } => {
            if version != PROTOCOL_VERSION {
                return HelloVerdict::Refuse {
                    message: "unsupported protocol version".to_owned(),
                    close_reason: "version".to_owned(),
                    error: TransferError::Version { theirs: version },
                };
            }
            if !cap_eq(&theirs, cap) {
                return HelloVerdict::Refuse {
                    message: "unauthorized".to_owned(),
                    close_reason: "unauthorized".to_owned(),
                    error: TransferError::Unauthorized(AuthFailure::Rejected),
                };
            }
            if files_shared == 0 {
                return HelloVerdict::Refuse {
                    message: "no files".to_owned(),
                    close_reason: "no files".to_owned(),
                    error: TransferError::Io("no files are shared".to_owned()),
                };
            }
            HelloVerdict::Accept { their_webrtc: webrtc }
        },
    }
}

/// The request the sender is working on: parked until its transport is decided, then
/// started. The credit window travels with it.
#[derive(Clone, Copy, Debug, PartialEq, Eq, Structural)]
pub struct Serving {
    pub file: u32,
    pub offset: u64,
    pub epoch: u32,
    /// Payload bytes the receiver has granted for this epoch.
    pub granted: u64,
    pub initial_credit_seen: bool,
    /// How far into the file the receiver has confirmed committed bytes.
    pub acknowledged: u64,
    pub started: bool,
}

/// What the sender makes of a `Request`.
#[derive(Clone, Copy, Debug, PartialEq, Eq, Structural)]
pub enum RequestVerdict {
    /// Refused with an `Error` frame for that file and epoch; nothing is served.
    Invalid,
    /// Accepted: `bytes_before` is the total size of the files before the requested one.
    Accepted { bytes_before: u64 },
}

/// What the sender makes of a `Credit`.
#[derive(Clone, Copy, Debug, PartialEq, Eq, Structural)]
pub enum CreditVerdict {
    /// For an epoch that is no longer served: ignored.
    Stale,
    /// The first grant of an epoch, which is capacity, not bytes written.
    Initial,
    /// A grant that also acknowledges committed bytes: the file is confirmed up to `done`,
    /// `newly` bytes more than before.
    Acknowledged { done: u64, newly: u64 },
}

/// Which transport a parked request starts on.
#[derive(Clone, Copy, Debug, PartialEq, Eq, Structural)]
pub enum TransportChoice {
    /// No request is waiting for a transport.
    Nothing,
    /// The control stream, over the relay.
    Relay,
    /// The data channel, once its send half exists.
    Direct,
    /// Keep waiting for the channel to open; `arm` says whether the opening deadline must be
    /// set now.
    Park { arm: bool },
}

/// The sender's session state between control frames: the manifest's sizes, the newest
/// epoch, the request being served, and the flags that decide its transport.
pub struct SenderSession {
    sizes: Vec<u64>,
    bytes_total: u64,
    epoch_seen: u32,
    serving: Option<Serving>,
    relay_forced: bool,
    dc_expired: bool,
    dcep_armed: bool,
    verified: bool,
    acknowledged_bytes: u64,
}

impl SenderSession {
    pub closed spec fn file_sizes(&self) -> Seq<u64> {
        self.sizes@
    }

    pub closed spec fn total(&self) -> u64 {
        self.bytes_total
    }

    pub closed spec fn newest_epoch(&self) -> u32 {
        self.epoch_seen
    }

    pub closed spec fn current(&self) -> Option<Serving> {
        self.serving
    }

    pub closed spec fn relay_only(&self) -> bool {
        self.relay_forced
    }

    pub closed spec fn channel_expired(&self) -> bool {
        self.dc_expired
    }

    pub closed spec fn deadline_armed(&self) -> bool {
        self.dcep_armed
    }

    pub closed spec fn receipt_accepted(&self) -> bool {
        self.verified
    }

    pub closed spec fn confirmed_bytes(&self) -> u64 {
        self.acknowledged_bytes
    }

    /// The session's invariant: the total is the sum of the sizes, and a request being served
    /// names a shared file, the newest epoch, and offsets within that file.
    pub closed spec fn wf(&self) -> bool {
        &&& self.bytes_total == sum_sizes(self.sizes@)
        &&& match self.serving {
            Some(s) => s.file < self.sizes@.len() && s.epoch == self.epoch_seen && s.offset
                <= s.acknowledged <= self.sizes@[s.file as int],
            None => true,
        }
    }

    /// A session over files of `sizes`, whose total fits in a `u64`.
    pub fn new(sizes: Vec<u64>) -> (r: SenderSession)
        requires
            sum_sizes(sizes@) <= u64::MAX,
        ensures
            r.wf(),
            r.file_sizes() == sizes@,
            r.total() == sum_sizes(sizes@),
            r.newest_epoch() == 0,
            r.current() is None,
            !r.relay_only(),
            !r.channel_expired(),
            !r.deadline_armed(),
            !r.receipt_accepted(),
            r.confirmed_bytes() == 0,
    {
        let total = prefix_total(sizes.as_slice(), sizes.len());
        proof {
            assert(sizes@.take(sizes@.len() as int) =~= sizes@);
        }
        SenderSession {
            sizes,
            bytes_total: total,
            epoch_seen: 0,
            serving: None,
            relay_forced: false,
            dc_expired: false,
            dcep_armed: false,
            verified: false,
            acknowledged_bytes: 0,
        }
    }

    pub fn bytes_total(&self) -> (r: u64)
        ensures
            r == self.total(),
    {
        self.bytes_total
    }

    pub fn serving(&self) -> (r: Option<Serving>)
        ensures
            r == self.current(),
    {
        self.serving
    }

    pub fn is_verified(&self) -> (r: bool)
        ensures
            r == self.receipt_accepted(),
    {
        self.verified
    }

    /// Whether a request waits for its transport.
    pub fn parked(&self) -> (r: bool)
        ensures
            r == (self.current() matches Some(s) && !s.started),
    {
        match self.serving {
            Some(s) => !s.started,
            None => false,
        }
    }

    /// A `Request` always pre-empts whatever was served or parked. It is accepted when it
    /// names a shared file, a newer epoch than any before, and an offset within the file.
    pub fn on_request(&mut self, file: u32, offset: u64, epoch: u32) -> (r: RequestVerdict)
        requires
            old(self).wf(),
        ensures
            final(self).wf(),
            final(self).file_sizes() == old(self).file_sizes(),
            final(self).total() == old(self).total(),
            final(self).relay_only() == old(self).relay_only(),
            final(self).receipt_accepted() == old(self).receipt_accepted(),
            final(self).confirmed_bytes() == old(self).confirmed_bytes(),
            !final(self).channel_expired(),
            !final(self).deadline_armed(),
            ({
                let valid = file < old(self).file_sizes().len() && epoch > old(self).newest_epoch()
                    && offset <= old(self).file_sizes()[file as int];
                &&& valid ==> r == RequestVerdict::Accepted {
                    bytes_before: sum_sizes(old(self).file_sizes().take(file as int)) as u64,
                }
                &&& valid ==> final(self).newest_epoch() == epoch
                &&& valid ==> final(self).current() == Some(Serving {
                    file,
                    offset,
                    epoch,
                    granted: 0,
                    initial_credit_seen: false,
                    acknowledged: offset,
                    started: false,
                })
                &&& !valid ==> r == RequestVerdict::Invalid && final(self).current() is None
                    && final(self).newest_epoch() == old(self).newest_epoch()
            }),
    {
        self.serving = None;
        self.dc_expired = false;
        self.dcep_armed = false;
        let n = self.sizes.len();
        if (file as usize) < n && epoch > self.epoch_seen && offset <= self.sizes[file as usize] {
            self.epoch_seen = epoch;
            proof {
                lemma_sum_sizes_prefix(self.sizes@, file as int, self.sizes@.len() as int);
                assert(self.sizes@.take(self.sizes@.len() as int) =~= self.sizes@);
            }
            let before = prefix_total(self.sizes.as_slice(), file as usize);
            self.serving = Some(
                Serving {
                    file,
                    offset,
                    epoch,
                    granted: 0,
                    initial_credit_seen: false,
                    acknowledged: offset,
                    started: false,
                },
            );
            RequestVerdict::Accepted { bytes_before: before }
        } else {
            RequestVerdict::Invalid
        }
    }

    /// A `Credit` for the served epoch widens its window. The first one is capacity; each
    /// later one also confirms that many more bytes of the file, never past its end.
    pub fn on_credit(&mut self, epoch: u32, bytes: u64) -> (r: CreditVerdict)
        requires
            old(self).wf(),
        ensures
            final(self).wf(),
            final(self).file_sizes() == old(self).file_sizes(),
            final(self).total() == old(self).total(),
            final(self).newest_epoch() == old(self).newest_epoch(),
            final(self).relay_only() == old(self).relay_only(),
            final(self).receipt_accepted() == old(self).receipt_accepted(),
            final(self).channel_expired() == old(self).channel_expired(),
            final(self).deadline_armed() == old(self).deadline_armed(),
            match old(self).current() {
                Some(s) if s.epoch == epoch => {
                    let size = old(self).file_sizes()[s.file as int];
                    let next = if s.acknowledged + bytes > size {
                        size
                    } else {
                        (s.acknowledged + bytes) as u64
                    };
                    &&& final(self).current() matches Some(t) && t.file == s.file && t.offset
                        == s.offset && t.epoch == s.epoch && t.started == s.started
                        && t.granted == (s.granted + bytes) % 0x1_0000_0000_0000_0000
                        && t.initial_credit_seen
                    &&& !s.initial_credit_seen ==> r == CreditVerdict::Initial
                        && final(self).current()->0.acknowledged == s.acknowledged
                        && final(self).confirmed_bytes() == old(self).confirmed_bytes()
                    &&& s.initial_credit_seen ==> r == CreditVerdict::Acknowledged {
                        done: next,
                        newly: (next - s.acknowledged) as u64,
                    } && final(self).current()->0.acknowledged == next
                        && final(self).confirmed_bytes() == if old(self).confirmed_bytes() + (next
                        - s.acknowledged) > u64::MAX {
                        u64::MAX as int
                    } else {
                        old(self).confirmed_bytes() + (next - s.acknowledged)
                    }
                },
                _ => r == CreditVerdict::Stale && final(self).current() == old(self).current()
                    && final(self).confirmed_bytes() == old(self).confirmed_bytes(),
            },
    {
        match self.serving {
            Some(s) => {
                if s.epoch != epoch {
                    return CreditVerdict::Stale;
                }
                let granted = s.granted.wrapping_add(bytes);
                if !s.initial_credit_seen {
                    self.serving = Some(
                        Serving { granted, initial_credit_seen: true, ..s },
                    );
                    CreditVerdict::Initial
                } else {
                    let size = self.sizes[s.file as usize];
                    let sum = s.acknowledged.saturating_add(bytes);
                    let next = if sum > size {
                        size
                    } else {
                        sum
                    };
                    let newly = next - s.acknowledged;
                    self.acknowledged_bytes = self.acknowledged_bytes.saturating_add(newly);
                    self.serving = Some(
                        Serving { granted, acknowledged: next, ..s },
                    );
                    CreditVerdict::Acknowledged { done: next, newly }
                }
            },
            None => CreditVerdict::Stale,
        }
    }

    /// `UseRelay`: from now on nothing starts on the data channel. A running serve is left
    /// alone; the receiver's next `Request` pre-empts it.
    pub fn on_use_relay(&mut self)
        requires
            old(self).wf(),
        ensures
            final(self).wf(),
            final(self).relay_only(),
            final(self).current() == old(self).current(),
            final(self).newest_epoch() == old(self).newest_epoch(),
            final(self).file_sizes() == old(self).file_sizes(),
            final(self).total() == old(self).total(),
            final(self).receipt_accepted() == old(self).receipt_accepted(),
    {
        self.relay_forced = true;
    }

    /// The parked request's channel will never open in time: it starts on the relay.
    pub fn on_channel_expired(&mut self)
        requires
            old(self).wf(),
        ensures
            final(self).wf(),
            final(self).channel_expired(),
            final(self).current() == old(self).current(),
            final(self).newest_epoch() == old(self).newest_epoch(),
            final(self).file_sizes() == old(self).file_sizes(),
            final(self).total() == old(self).total(),
            final(self).relay_only() == old(self).relay_only(),
            final(self).receipt_accepted() == old(self).receipt_accepted(),
    {
        self.dc_expired = true;
    }

    /// The receiver's receipt: accepted only when it counts every shared file and byte.
    pub fn on_verified(&mut self, files: u32, bytes: u64) -> (r: Result<(), TransferError>)
        requires
            old(self).wf(),
        ensures
            final(self).wf(),
            final(self).current() == old(self).current(),
            final(self).file_sizes() == old(self).file_sizes(),
            final(self).total() == old(self).total(),
            (r is Ok) <==> (files == old(self).file_sizes().len() && bytes == old(self).total()),
            r is Ok ==> final(self).receipt_accepted(),
            r is Err ==> (r matches Err(TransferError::Protocol(ProtocolError::InvalidReceipt))
                && final(self).receipt_accepted() == old(self).receipt_accepted()),
    {
        if files as usize != self.sizes.len() || bytes != self.bytes_total {
            return Err(TransferError::Protocol(ProtocolError::InvalidReceipt));
        }
        self.verified = true;
        Ok(())
    }

    /// Which transport the parked request starts on: the relay when it is forced, when there
    /// is no channel, when the channel died or did not open in time; the channel once it is
    /// open; otherwise it stays parked.
    pub fn plan_transport(&self, pc_present: bool, open_now: bool, dead: bool) -> (r:
        TransportChoice)
        ensures
            !(self.current() matches Some(s) && !s.started) ==> r == TransportChoice::Nothing,
            (self.current() matches Some(s) && !s.started) ==> r == if self.relay_only()
                || !pc_present || dead || self.channel_expired() {
                TransportChoice::Relay
            } else if open_now {
                TransportChoice::Direct
            } else {
                TransportChoice::Park { arm: !self.deadline_armed() }
            },
    {
        match self.serving {
            Some(s) => {
                if s.started {
                    return TransportChoice::Nothing;
                }
                if self.relay_forced || !pc_present || dead || self.dc_expired {
                    TransportChoice::Relay
                } else if open_now {
                    TransportChoice::Direct
                } else {
                    TransportChoice::Park { arm: !self.dcep_armed }
                }
            },
            None => TransportChoice::Nothing,
        }
    }

    /// The opening deadline of the parked request has been set.
    pub fn armed(&mut self)
        requires
            old(self).wf(),
        ensures
            final(self).wf(),
            final(self).deadline_armed(),
            final(self).current() == old(self).current(),
            final(self).newest_epoch() == old(self).newest_epoch(),
            final(self).file_sizes() == old(self).file_sizes(),
            final(self).total() == old(self).total(),
            final(self).relay_only() == old(self).relay_only(),
            final(self).channel_expired() == old(self).channel_expired(),
    {
        self.dcep_armed = true;
    }

    /// The parked request has started on a transport; its deadline is dropped.
    pub fn started(&mut self)
        requires
            old(self).wf(),
        ensures
            final(self).wf(),
            !final(self).deadline_armed(),
            final(self).current() == match old(self).current() {
                Some(s) => Some(Serving { started: true, ..s }),
                None => None,
            },
            final(self).newest_epoch() == old(self).newest_epoch(),
            final(self).file_sizes() == old(self).file_sizes(),
            final(self).total() == old(self).total(),
            final(self).relay_only() == old(self).relay_only(),
    {
        self.dcep_armed = false;
        match self.serving {
            Some(s) => {
                self.serving = Some(Serving { started: true, ..s });
            },
            None => {},
        }
    }
}

/// A request that is refused: the `Error` frame naming its file and epoch.
pub fn invalid_request(file: u32, epoch: u32) -> (r: Control)
    ensures
        r matches Control::Error { file: f, epoch: e, message } && f == Some(file) && e == Some(
            epoch,
        ) && message@ == "invalid request"@,
{
    Control::Error { file: Some(file), epoch: Some(epoch), message: "invalid request".to_owned() }
}

/// The next step of a serve.
#[derive(Clone, Copy, Debug, PartialEq, Eq, Structural)]
pub enum ServeStep {
    /// Every byte up to the declared size has been sent: send `Done`.
    Finished,
    /// The window is used up: wait for the next `Credit`.
    Wait,
    /// Read and send this many bytes next.
    Send(u64),
}

/// One file being served under one epoch: how far it has been sent, and how much is in
/// flight against the receiver's window.
pub struct ServeCursor {
    index: u32,
    epoch: u32,
    offset: u64,
    size: u64,
    in_flight: u64,
    budget: u64,
}

/// The payload bytes one chunk may carry next: the frame budget, what is left of the file,
/// and what the window allows, whichever is least.
pub open spec fn chunk_want(budget: u64, size: u64, offset: u64, granted: u64, in_flight: u64) -> int {
    let left = size - offset;
    let available = if granted >= in_flight { granted - in_flight } else { 0 };
    let a = if budget < left { budget as int } else { left };
    if a < available { a } else { available }
}

impl ServeCursor {
    pub closed spec fn file(&self) -> u32 {
        self.index
    }

    pub closed spec fn serve_epoch(&self) -> u32 {
        self.epoch
    }

    pub closed spec fn sent(&self) -> u64 {
        self.offset
    }

    pub closed spec fn declared(&self) -> u64 {
        self.size
    }

    pub closed spec fn flight(&self) -> u64 {
        self.in_flight
    }

    pub closed spec fn payload_budget(&self) -> u64 {
        self.budget
    }

    pub closed spec fn wf(&self) -> bool {
        &&& self.offset <= self.size
        &&& self.offset < self.size ==> self.budget > 0
    }

    /// A serve of a file of `size` bytes from `offset` over a transport whose frames are at
    /// most `frame_size` bytes; refused when such a frame cannot carry a chunk and there is
    /// something left to send.
    pub fn new(index: u32, epoch: u32, offset: u64, size: u64, frame_size: usize, prefixed: bool) -> (r:
        Result<ServeCursor, String>)
        requires
            offset <= size,
        ensures
            ({
                let budget = max_payload_spec(frame_size, prefixed);
                &&& (budget == 0 && offset < size) ==> (r matches Err(m)
                    && m@ == "this transport cannot carry a chunk"@)
                &&& !(budget == 0 && offset < size) ==> (r matches Ok(c) && c.wf() && c.file()
                    == index && c.serve_epoch() == epoch && c.sent() == offset && c.declared() == size
                    && c.flight() == 0 && c.payload_budget() == budget)
            }),
    {
        let budget = max_payload(frame_size, prefixed);
        if budget == 0 && offset < size {
            return Err("this transport cannot carry a chunk".to_owned());
        }
        Ok(ServeCursor { index, epoch, offset, size, in_flight: 0, budget: budget as u64 })
    }

    pub fn offset(&self) -> (r: u64)
        ensures
            r == self.sent(),
    {
        self.offset
    }

    pub fn index(&self) -> (r: u32)
        ensures
            r == self.file(),
    {
        self.index
    }

    pub fn epoch(&self) -> (r: u32)
        ensures
            r == self.serve_epoch(),
    {
        self.epoch
    }

    /// What to do next, given the window granted so far.
    pub fn next_step(&self, granted: u64) -> (r: ServeStep)
        requires
            self.wf(),
        ensures
            self.sent() >= self.declared() ==> r == ServeStep::Finished,
            self.sent() < self.declared() && granted <= self.flight() ==> r == ServeStep::Wait,
            self.sent() < self.declared() && granted > self.flight() ==> r == ServeStep::Send(
                chunk_want(
                    self.payload_budget(),
                    self.declared(),
                    self.sent(),
                    granted,
                    self.flight(),
                ) as u64,
            ),
            self.sent() < self.declared() && granted > self.flight() ==> (r matches ServeStep::Send(n)
                && 0 < n && n <= self.payload_budget() && n <= self.declared() - self.sent() && n
                <= granted - self.flight() && (n == self.payload_budget() || n == self.declared()
                - self.sent() || n == granted - self.flight())),
    {
        proof {
            if self.offset < self.size && granted > self.in_flight {
                lemma_chunk_want_is_least_bound(self.budget, self.size, self.offset, granted, self.in_flight);
            }
        }
        if self.offset >= self.size {
            return ServeStep::Finished;
        }
        let available = granted.saturating_sub(self.in_flight);
        if available == 0 {
            return ServeStep::Wait;
        }
        let left = self.size - self.offset;
        let a = if self.budget < left {
            self.budget
        } else {
            left
        };
        ServeStep::Send(
            if a < available {
                a
            } else {
                available
            },
        )
    }

    /// Records a chunk of `len` bytes that was sent, at most what [`Self::next_step`] asked
    /// for. An empty chunk means the file ended before its declared size.
    pub fn sent_chunk(&mut self, len: u64, granted: u64) -> (r: Result<(), String>)
        requires
            old(self).wf(),
            old(self).sent() < old(self).declared(),
            granted > old(self).flight(),
            len <= chunk_want(
                old(self).payload_budget(),
                old(self).declared(),
                old(self).sent(),
                granted,
                old(self).flight(),
            ),
        ensures
            final(self).wf(),
            final(self).file() == old(self).file(),
            final(self).serve_epoch() == old(self).serve_epoch(),
            final(self).declared() == old(self).declared(),
            final(self).payload_budget() == old(self).payload_budget(),
            len == 0 ==> (r matches Err(m) && m@ == "the file ended before its declared size"@
                && final(self).sent() == old(self).sent()
                && final(self).flight() == old(self).flight()),
            len > 0 ==> r is Ok && final(self).sent() == old(self).sent() + len
                && final(self).flight() == old(self).flight() + len,
            final(self).flight() <= granted,
    {
        if len == 0 {
            return Err("the file ended before its declared size".to_owned());
        }
        self.offset = self.offset + len;
        self.in_flight = self.in_flight + len;
        Ok(())
    }
}

/// A serve never puts more bytes in flight than the receiver granted for its epoch: after
/// any chunk that [`ServeCursor::next_step`] allowed, what is in flight is within the window.
pub proof fn lemma_serve_within_window(budget: u64, size: u64, offset: u64, granted: u64, in_flight: u64, len: u64)
    requires
        offset < size,
        granted > in_flight,
        len <= chunk_want(budget, size, offset, granted, in_flight),
    ensures
        in_flight + len <= granted,
        offset + len <= size,
        len <= budget,
{
}

/// A serve asks for as much as it may: while bytes remain and the window has room, the next
/// chunk is positive and is the least of the frame budget, what is left of the file and what
/// the window still allows, so the last piece of a file is sent whole however small it is.
pub proof fn lemma_chunk_want_is_least_bound(budget: u64, size: u64, offset: u64, granted: u64, in_flight: u64)
    requires
        offset < size,
        granted > in_flight,
        budget > 0,
    ensures
        ({
            let w = chunk_want(budget, size, offset, granted, in_flight);
            &&& 0 < w
            &&& w <= budget && w <= size - offset && w <= granted - in_flight
            &&& (w == budget || w == size - offset || w == granted - in_flight)
        }),
{
}

/// Read-ahead over a source, so that a small chunk does not become a small read: one buffer
/// of at least [`READ_AHEAD`] bytes starting at `buf_start`.
pub struct ReadAhead {
    buf: Vec<u8>,
    buf_start: u64,
}

impl ReadAhead {
    pub closed spec fn held(&self) -> Seq<u8> {
        self.buf@
    }

    pub closed spec fn start(&self) -> u64 {
        self.buf_start
    }

    pub closed spec fn wf(&self) -> bool {
        self.buf_start + self.buf@.len() <= u64::MAX
    }

    /// Whether the buffer holds the whole of `offset..offset + len`, cut at `size`.
    pub open spec fn covers(&self, offset: u64, len: usize, size: u64) -> bool {
        let buf_end = self.start() + self.held().len();
        let wanted_end = if offset + len < size { offset + len } else { size as int };
        offset >= self.start() && wanted_end <= buf_end && offset < buf_end
    }

    pub fn new() -> (r: ReadAhead)
        ensures
            r.wf(),
            r.held() == Seq::<u8>::empty(),
            r.start() == 0,
    {
        ReadAhead { buf: Vec::new(), buf_start: 0 }
    }

    /// The read to make before `offset..offset + len` can be served from the buffer: `None`
    /// when the buffer covers it, else how many bytes to read at `offset`.
    pub fn refill(&self, offset: u64, len: usize, size: u64) -> (r: Option<usize>)
        requires
            self.wf(),
            offset + len <= u64::MAX,
        ensures
            self.covers(offset, len, size) <==> r is None,
            r matches Some(n) ==> n == if len > READ_AHEAD { len } else { READ_AHEAD },
    {
        let buf_end = self.buf_start + self.buf.len() as u64;
        let end = offset + len as u64;
        let wanted_end = if end < size {
            end
        } else {
            size
        };
        let covered = offset >= self.buf_start && wanted_end <= buf_end && offset < buf_end;
        if covered {
            None
        } else {
            Some(
                if len > READ_AHEAD {
                    len
                } else {
                    READ_AHEAD
                },
            )
        }
    }

    /// Replaces the buffer with `bytes`, read at `offset`.
    pub fn fill(&mut self, offset: u64, bytes: Vec<u8>)
        requires
            offset + bytes@.len() <= u64::MAX,
        ensures
            final(self).wf(),
            final(self).held() == bytes@,
            final(self).start() == offset,
    {
        self.buf = bytes;
        self.buf_start = offset;
    }

    /// Up to `len` bytes at `offset` from the buffer, which starts at or before `offset`;
    /// fewer where the buffer ends, none when `offset` is past it.
    pub fn take(&self, offset: u64, len: usize) -> (r: Vec<u8>)
        requires
            self.wf(),
            offset >= self.start(),
        ensures
            ({
                let s = offset - self.start();
                let e = if s + len < self.held().len() { s + len } else { self.held().len() as int };
                &&& s <= self.held().len() ==> r@ == self.held().subrange(s, e)
                &&& s > self.held().len() ==> r@.len() == 0
            }),
            r@.len() <= len,
    {
        let rel = offset - self.buf_start;
        if rel > self.buf.len() as u64 {
            return Vec::new();
        }
        let s = rel as usize;
        let e = if len <= self.buf.len() - s {
            s + len
        } else {
            self.buf.len()
        };
        let mut out: Vec<u8> = Vec::new();
        let mut i = s;
        while i < e
            invariant
                s <= i <= e <= self.buf@.len(),
                out@ == self.buf@.subrange(s as int, i as int),
            decreases e - i,
        {
            out.push(self.buf[i]);
            assert(out@ =~= self.buf@.subrange(s as int, i + 1));
            i = i + 1;
        }
        out
    }
}

/// A source behind a read-ahead buffer.
pub struct SourceReader<S: Source> {
    pub src: S,
    ahead: ReadAhead,
}

impl<S: Source> SourceReader<S> {
    /// The buffer holds bytes of the source, where the source holds them.
    pub closed spec fn wf(&self) -> bool {
        &&& self.ahead.wf()
        &&& self.ahead.held().len() > 0 ==> self.ahead.start() + self.ahead.held().len()
            <= self.src.content().len() && self.ahead.held() == self.src.content().subrange(
            self.ahead.start() as int,
            self.ahead.start() + self.ahead.held().len(),
        )
    }

    /// The read-ahead buffer.
    pub closed spec fn buffer(&self) -> ReadAhead {
        self.ahead
    }

    /// The source behind the buffer.
    pub closed spec fn source(&self) -> S {
        self.src
    }

    pub fn new(src: S) -> (r: SourceReader<S>)
        ensures
            r.wf(),
            r.source() == src,
            r.buffer().held() == Seq::<u8>::empty(),
    {
        SourceReader { src, ahead: ReadAhead::new() }
    }

    /// Up to `len` bytes at `offset`, from the buffer, refilled by one read when it does not
    /// cover them. Fewer bytes than asked for, or none, mean that the source ended early.
    pub fn next(&mut self, offset: u64, len: usize) -> (r: Result<Vec<u8>, IoFailure>)
        requires
            old(self).wf(),
            offset + len <= u64::MAX,
        ensures
            final(self).wf(),
            final(self).source().declared() == old(self).source().declared(),
            final(self).source().content() == old(self).source().content(),
            r matches Ok(v) ==> v@.len() <= len,
            old(self).source().content().len() == old(self).source().declared() ==> (r matches Ok(v)
                ==> v@ == served(old(self).source().content(), offset, len)),
            old(self).buffer().covers(offset, len, old(self).source().declared()) ==> ({
                let b = old(self).buffer();
                let s = offset - b.start();
                let e = if s + len < b.held().len() { s + len } else { b.held().len() as int };
                r matches Ok(v) && v@ == b.held().subrange(s, e) && final(self).buffer() == b
            }),
            !old(self).buffer().covers(offset, len, old(self).source().declared()) ==> (r matches Ok(v)
                ==> final(self).buffer().start() == offset && v@ == final(self).buffer().held().take(
                if len < final(self).buffer().held().len() { len as int } else { final(self).buffer().held().len() as int },
            )),
    {
        let size = self.src.size();
        match self.ahead.refill(offset, len, size) {
            Some(n) => {
                let bytes = self.src.read(offset, n)?;
                if bytes.len() as u64 > u64::MAX - offset {
                    return Err(IoFailure::SourceOverran);
                }
                self.ahead.fill(offset, bytes);
            },
            None => {},
        }
        Ok(self.ahead.take(offset, len))
    }
}

/// Which transport delivered the most recent frame of the current epoch.
#[derive(Clone, Copy, Debug, PartialEq, Eq, Structural)]
pub enum Arrival {
    Control,
    Dc,
}

/// The receiver's `Hello`: refused before anything is dialled when the link has no access
/// code. WebRTC is offered only on a first connection, where this side can do it and the link
/// does not force the relay.
pub fn receiver_hello(cap: Option<[u8; 16]>, reconnecting: bool, dc_available: bool, force_relay: bool) -> (r:
    Result<Control, TransferError>)
    ensures
        cap is None ==> r matches Err(TransferError::Unauthorized(AuthFailure::MissingCap)),
        cap matches Some(c) ==> (r matches Ok(Control::Hello { version, webrtc, cap: sent })
            && version == PROTOCOL_VERSION && webrtc == (!reconnecting && dc_available
            && !force_relay) && sent == c),
{
    match cap {
        None => Err(TransferError::Unauthorized(AuthFailure::MissingCap)),
        Some(c) => Ok(
            Control::Hello {
                version: PROTOCOL_VERSION,
                webrtc: !reconnecting && dc_available && !force_relay,
                cap: c,
            },
        ),
    }
}

/// The receiver's side of the handshake: the sender's `Hello`, then its `Manifest`.
pub struct ReceiverHandshake {
    pub greeted: bool,
}

impl ReceiverHandshake {
    pub fn new() -> (r: ReceiverHandshake)
        ensures
            !r.greeted,
    {
        ReceiverHandshake { greeted: false }
    }

    /// One control frame of the handshake: `Ok(Some(files))` once the manifest arrived after a
    /// `Hello` of this protocol version, `Ok(None)` to keep reading. A rejection of the access
    /// code reads as such; any other `Error` frame ends the handshake with its message.
    pub fn on_frame(&mut self, frame: Control) -> (r: Result<Option<Vec<FileMeta>>, TransferError>)
        ensures
            match frame {
                Control::Hello { version, .. } => if version != PROTOCOL_VERSION {
                    r matches Err(TransferError::Version { theirs }) && theirs == version
                } else {
                    r matches Ok(None) && final(self).greeted
                },
                Control::Manifest { files } => if old(self).greeted {
                    r matches Ok(Some(f)) && f@ == files@
                } else {
                    r matches Err(TransferError::Protocol(ProtocolError::Empty))
                },
                Control::Error { message, .. } => if message@ == "unauthorized"@ {
                    r matches Err(TransferError::Unauthorized(AuthFailure::Rejected))
                } else {
                    r matches Err(TransferError::Remote(m)) && m@ == message@
                },
                _ => r matches Ok(None) && final(self).greeted == old(self).greeted,
            },
    {
        match frame {
            Control::Hello { version, .. } => {
                if version != PROTOCOL_VERSION {
                    return Err(TransferError::Version { theirs: version });
                }
                self.greeted = true;
                Ok(None)
            },
            Control::Manifest { files } => {
                if !self.greeted {
                    return Err(TransferError::Protocol(ProtocolError::Empty));
                }
                Ok(Some(files))
            },
            Control::Error { message, .. } => {
                let unauthorized = "unauthorized".to_owned();
                if message == unauthorized {
                    Err(TransferError::Unauthorized(AuthFailure::Rejected))
                } else {
                    Err(TransferError::Remote(message))
                }
            },
            _ => Ok(None),
        }
    }
}

/// Two manifest entries name the same file: the same name, size and hash.
pub open spec fn same_meta(a: FileMeta, b: FileMeta) -> bool {
    a.name@ == b.name@ && a.size == b.size && a.hash.0@ == b.hash.0@
}

/// Two manifests list the same files in the same order.
pub open spec fn same_manifest(a: Seq<FileMeta>, b: Seq<FileMeta>) -> bool {
    a.len() == b.len() && forall|i: int| 0 <= i < a.len() ==> same_meta(#[trigger] a[i], b[i])
}

/// Two manifests match only entry by entry on everything that identifies content: equal
/// length, and at each place the same name, the same size and the same hash. A file whose
/// content changed under the same name and size therefore breaks the match.
pub proof fn lemma_same_manifest_fixes_content(a: Seq<FileMeta>, b: Seq<FileMeta>)
    ensures
        same_manifest(a, b) <==> (a.len() == b.len() && forall|i: int| 0 <= i < a.len() ==> {
            &&& (#[trigger] a[i]).name@ == b[i].name@
            &&& a[i].size == b[i].size
            &&& a[i].hash.0@ == b[i].hash.0@
        }),
{
}

/// A later manifest that gives any file another hash is not the same manifest, so a resume
/// against it is refused.
pub proof fn lemma_changed_hash_breaks_manifest(a: Seq<FileMeta>, b: Seq<FileMeta>, i: int)
    requires
        0 <= i < a.len(),
        i < b.len(),
        a[i].hash.0@ != b[i].hash.0@,
    ensures
        !same_manifest(a, b),
{
}

/// Whether two manifest entries name the same file.
pub fn meta_matches(a: &FileMeta, b: &FileMeta) -> (r: bool)
    ensures
        r == same_meta(*a, *b),
{
    a.name == b.name && a.size == b.size && a.hash.same_as(&b.hash)
}

/// Whether two manifests list the same files in the same order.
pub fn manifest_matches(a: &[FileMeta], b: &[FileMeta]) -> (r: bool)
    ensures
        r == same_manifest(a@, b@),
{
    if a.len() != b.len() {
        return false;
    }
    let mut i: usize = 0;
    while i < a.len()
        invariant
            a@.len() == b@.len(),
            i <= a@.len(),
            forall|j: int| 0 <= j < i ==> same_meta(#[trigger] a@[j], b@[j]),
        decreases a@.len() - i,
    {
        if !meta_matches(&a[i], &b[i]) {
            return false;
        }
        i = i + 1;
    }
    true
}

/// The sizes of a manifest, in order.
pub open spec fn manifest_sizes(m: Seq<FileMeta>) -> Seq<u64> {
    m.map_values(|f: FileMeta| f.size)
}

/// The total size of a manifest, or `None` when it does not fit in a `u64`.
pub fn manifest_total(files: &[FileMeta]) -> (r: Option<u64>)
    ensures
        r matches Some(t) ==> t == sum_sizes(manifest_sizes(files@)),
        r is None <==> sum_sizes(manifest_sizes(files@)) > u64::MAX,
{
    let mut total: u64 = 0;
    let mut i: usize = 0;
    while i < files.len()
        invariant
            i <= files@.len(),
            total == sum_sizes(manifest_sizes(files@).take(i as int)),
        decreases files@.len() - i,
    {
        proof {
            assert(manifest_sizes(files@).take(i + 1).drop_last() =~= manifest_sizes(files@).take(
                i as int,
            ));
        }
        let size = files[i].size;
        if size > u64::MAX - total {
            proof {
                lemma_sum_sizes_prefix(manifest_sizes(files@), i + 1, files@.len() as int);
                assert(manifest_sizes(files@).take(files@.len() as int) =~= manifest_sizes(files@));
            }
            return None;
        }
        total = total + size;
        i = i + 1;
    }
    assert(manifest_sizes(files@).take(i as int) =~= manifest_sizes(files@));
    Some(total)
}

/// The BLAKE3 state of a destination's checkpointed prefix: made empty, then fed the bytes
/// the destination already holds, in order.
pub struct ResumeHasher {
    hasher: blake3::Hasher,
}

impl ResumeHasher {
    #[verifier::type_invariant]
    spec fn regular(self) -> bool {
        hasher_regular(self.hasher)
    }

    /// The bytes fed so far.
    pub closed spec fn fed(&self) -> Seq<u8> {
        hasher_input(self.hasher)
    }

    /// A hasher fed nothing yet.
    pub fn new() -> (r: ResumeHasher)
        ensures
            r.fed() == Seq::<u8>::empty(),
    {
        ResumeHasher { hasher: hasher_new() }
    }

    /// Feeds `data` after what was fed before.
    pub fn update(&mut self, data: &[u8])
        ensures
            final(self).fed() == old(self).fed() + data@,
    {
        proof {
            use_type_invariant(&*self);
        }
        let mut h = hasher_new();
        std::mem::swap(&mut h, &mut self.hasher);
        hasher_update(&mut h, data);
        self.hasher = h;
    }

    fn into_hasher(self) -> (r: blake3::Hasher)
        ensures
            hasher_regular(r),
            hasher_input(r) == self.fed(),
    {
        proof {
            use_type_invariant(&self);
        }
        self.hasher
    }
}

/// What each file's resume slot has been fed, or `None` where the file starts afresh.
pub open spec fn slot_inputs(slots: Seq<Option<blake3::Hasher>>) -> Seq<Option<Seq<u8>>> {
    slots.map_values(
        |o: Option<blake3::Hasher>|
            match o {
                Some(h) => Some(hasher_input(h)),
                None => None,
            },
    )
}

/// The file being received.
pub struct FileState {
    pub index: u32,
    /// The next byte offset the file expects.
    pub expected: u64,
    /// Where the current epoch started.
    pub epoch_start: u64,
    /// The initial grant of the current epoch.
    pub window: u64,
    /// Everything granted in the current epoch.
    pub granted: u64,
    /// Bytes taken by the sink since the last grant.
    pub consumed_since_grant: u64,
    pub active_rx: Arrival,
    pub hasher: blake3::Hasher,
}

impl FileState {
    /// Credit is never granted beyond what was consumed: all that was granted in the epoch is
    /// its initial window plus what the sink took, less what is still to be acknowledged.
    pub open spec fn wf(&self) -> bool {
        &&& self.epoch_start <= self.expected
        &&& self.consumed_since_grant <= self.expected - self.epoch_start
        &&& self.granted == self.window + (self.expected - self.epoch_start)
            - self.consumed_since_grant
    }
}

/// What the receiver makes of a chunk.
pub enum ChunkVerdict {
    /// Nothing is being received, or the file has no destination: dropped.
    Ignore,
    /// From a serve that was replaced: dropped, exactly what the epoch is for.
    Stale,
    /// Not the next bytes of the current file: the session fails.
    Mismatch(TransferError),
    /// Write the payload to the file's sink, then commit it.
    Write,
}

/// What the receiver makes of a `Done`.
pub enum DoneVerdict {
    /// For an old epoch or another file: it never advances to the next file.
    Stale,
    /// The file is shorter or longer than its declared size, or its hash differs.
    Failed(TransferError),
    /// Every byte arrived and the hash matches: finish the file's sink.
    Verified { index: u32 },
}

/// The receiver's session state: the manifest, the file being received, the next file, the
/// newest epoch, and the progress counters. It survives a reconnection.
pub struct ReceiverSession {
    manifest: Vec<FileMeta>,
    bytes_total: u64,
    sinks_ready: bool,
    current: Option<FileState>,
    next_file: u32,
    epoch: u32,
    bytes_done: u64,
    resume_hashers: Vec<Option<blake3::Hasher>>,
}

impl ReceiverSession {
    pub closed spec fn files(&self) -> Seq<FileMeta> {
        self.manifest@
    }

    pub closed spec fn total(&self) -> u64 {
        self.bytes_total
    }

    pub closed spec fn has_sinks(&self) -> bool {
        self.sinks_ready
    }

    pub closed spec fn receiving(&self) -> Option<FileState> {
        self.current
    }

    pub closed spec fn next_index(&self) -> u32 {
        self.next_file
    }

    pub closed spec fn newest_epoch(&self) -> u32 {
        self.epoch
    }

    pub closed spec fn done_bytes(&self) -> u64 {
        self.bytes_done
    }

    /// The bytes of the current file fed to its hash.
    pub closed spec fn fed(&self) -> Seq<u8> {
        hasher_input(self.current->0.hasher)
    }

    pub closed spec fn wf(&self) -> bool {
        &&& self.manifest@.len() <= u32::MAX
        &&& self.bytes_total == sum_sizes(manifest_sizes(self.manifest@))
        &&& self.next_file <= self.manifest@.len()
        &&& match self.current {
            Some(f) => f.wf() && f.index < self.manifest@.len() && f.index == self.next_file
                && hasher_regular(f.hasher),
            None => true,
        }
        &&& forall|i: int| 0 <= i < self.resume_hashers@.len() ==> (#[trigger] self.resume_hashers@[i]
            matches Some(h) ==> hasher_regular(h))
    }

    /// What each file's checkpointed prefix has been hashed over, where the destinations were
    /// resumed and the file was not asked for yet.
    pub closed spec fn resumed(&self) -> Seq<Option<Seq<u8>>> {
        slot_inputs(self.resume_hashers@)
    }

    /// The prefix the hash of file `index` starts from: what its resume slot holds, or nothing.
    pub open spec fn resume_prefix(&self, index: u32) -> Seq<u8> {
        if index < self.resumed().len() {
            match self.resumed()[index as int] {
                Some(p) => p,
                None => Seq::<u8>::empty(),
            }
        } else {
            Seq::<u8>::empty()
        }
    }

    /// A session that has not seen a manifest yet.
    pub fn new() -> (r: ReceiverSession)
        ensures
            r.wf(),
            r.files().len() == 0,
            !r.has_sinks(),
            r.receiving() is None,
            r.next_index() == 0,
            r.newest_epoch() == 0,
            r.done_bytes() == 0,
            r.resumed() == Seq::<Option<Seq<u8>>>::empty(),
    {
        assert(manifest_sizes(Seq::<FileMeta>::empty()) =~= Seq::<u64>::empty());
        assert(slot_inputs(Seq::<Option<blake3::Hasher>>::empty()) =~= Seq::<Option<Seq<u8>>>::empty());
        ReceiverSession {
            manifest: Vec::new(),
            bytes_total: 0,
            sinks_ready: false,
            current: None,
            next_file: 0,
            epoch: 0,
            bytes_done: 0,
            resume_hashers: Vec::new(),
        }
    }

    pub fn manifest(&self) -> (r: &[FileMeta])
        ensures
            r@ == self.files(),
    {
        self.manifest.as_slice()
    }

    pub fn bytes_total(&self) -> (r: u64)
        ensures
            r == self.total(),
    {
        self.bytes_total
    }

    pub fn bytes_done(&self) -> (r: u64)
        ensures
            r == self.done_bytes(),
    {
        self.bytes_done
    }

    pub fn sinks_ready(&self) -> (r: bool)
        ensures
            r == self.has_sinks(),
    {
        self.sinks_ready
    }

    /// The manifest of a new connection. The first one is adopted; a later one must list the
    /// same files, or resuming would mix different content. Returns whether it was the first.
    pub fn adopt_manifest(&mut self, files: Vec<FileMeta>) -> (r: Result<bool, TransferError>)
        requires
            old(self).wf(),
        ensures
            final(self).wf(),
            final(self).receiving() == old(self).receiving(),
            final(self).next_index() == old(self).next_index(),
            final(self).newest_epoch() == old(self).newest_epoch(),
            final(self).has_sinks() == old(self).has_sinks(),
            final(self).resumed() == old(self).resumed(),
            old(self).files().len() == 0 && files@.len() <= u32::MAX && sum_sizes(
                manifest_sizes(files@),
            ) <= u64::MAX ==> (r matches Ok(true) && final(self).files() == files@
                && final(self).total() == sum_sizes(manifest_sizes(files@))),
            old(self).files().len() == 0 && !(files@.len() <= u32::MAX && sum_sizes(
                manifest_sizes(files@),
            ) <= u64::MAX) ==> (r matches Err(TransferError::Protocol(ProtocolError::TooLarge(_)))
                && final(self).files() == old(self).files()),
            old(self).files().len() > 0 && same_manifest(old(self).files(), files@) ==> (
            r matches Ok(false) && final(self).files() == old(self).files()),
            old(self).files().len() > 0 && !same_manifest(old(self).files(), files@) ==> (
            r matches Err(TransferError::ManifestChanged) && final(self).files() == old(
                self,
            ).files()),
    {
        if self.manifest.len() == 0 {
            if files.len() > u32::MAX as usize {
                return Err(TransferError::Protocol(ProtocolError::TooLarge(files.len())));
            }
            match manifest_total(files.as_slice()) {
                Some(total) => {
                    self.bytes_total = total;
                    self.manifest = files;
                    Ok(true)
                },
                None => Err(TransferError::Protocol(ProtocolError::TooLarge(files.len()))),
            }
        } else if manifest_matches(self.manifest.as_slice(), files.as_slice()) {
            Ok(false)
        } else {
            Err(TransferError::ManifestChanged)
        }
    }

    /// Fresh destinations, one per file and all empty, or the session fails.
    pub fn on_save(&mut self, written: &[u64]) -> (r: Result<(), TransferError>)
        requires
            old(self).wf(),
        ensures
            final(self).wf(),
            final(self).files() == old(self).files(),
            final(self).receiving() == old(self).receiving(),
            final(self).next_index() == old(self).next_index(),
            final(self).newest_epoch() == old(self).newest_epoch(),
            final(self).done_bytes() == old(self).done_bytes(),
            (r is Ok) <==> (written@.len() == old(self).files().len() && forall|i: int|
                0 <= i < written@.len() ==> #[trigger] written@[i] == 0),
            r is Ok ==> final(self).has_sinks() && final(self).resumed() == Seq::new(
                old(self).files().len(),
                |i: int| None::<Seq<u8>>,
            ),
            r is Err ==> final(self).resumed() == old(self).resumed(),
            r is Err ==> (r matches Err(TransferError::Io(m))
                && m@ == "fresh destinations do not match the file manifest"@
                && final(self).has_sinks() == old(self).has_sinks()),
    {
        let mut ok = written.len() == self.manifest.len();
        let mut i: usize = 0;
        while ok && i < written.len()
            invariant
                i <= written@.len(),
                ok ==> forall|j: int| 0 <= j < i ==> #[trigger] written@[j] == 0,
                ok ==> written@.len() == self.manifest@.len(),
                !ok ==> !(written@.len() == self.manifest@.len() && forall|j: int|
                    0 <= j < written@.len() ==> #[trigger] written@[j] == 0),
            decreases written@.len() - i,
        {
            if written[i] != 0 {
                ok = false;
            }
            i = i + 1;
        }
        if !ok {
            return Err(TransferError::Io("fresh destinations do not match the file manifest".to_owned()));
        }
        self.sinks_ready = true;
        let mut hashers: Vec<Option<blake3::Hasher>> = Vec::new();
        let mut k: usize = 0;
        while k < self.manifest.len()
            invariant
                k <= self.manifest@.len(),
                hashers@.len() == k,
                forall|j: int| 0 <= j < k ==> #[trigger] hashers@[j] is None,
            decreases self.manifest@.len() - k,
        {
            hashers.push(None);
            k = k + 1;
        }
        self.resume_hashers = hashers;
        assert(self.resumed() =~= Seq::new(self.manifest@.len(), |i: int| None::<Seq<u8>>));
        Ok(())
    }

    /// Durable destinations with their checkpointed prefixes: each must name the manifest's
    /// file and hold no more than its size, or the content changed. The bytes already held
    /// count as done.
    pub fn on_resume(&mut self, metas: &[FileMeta], written: &[u64], hashers: Vec<ResumeHasher>) -> (r: Result<(), TransferError>)
        requires
            old(self).wf(),
            metas@.len() == written@.len(),
            metas@.len() == hashers@.len(),
        ensures
            final(self).wf(),
            final(self).files() == old(self).files(),
            final(self).receiving() == old(self).receiving(),
            final(self).next_index() == old(self).next_index(),
            final(self).newest_epoch() == old(self).newest_epoch(),
            ({
                let fits = metas@.len() == old(self).files().len() && forall|i: int|
                    0 <= i < metas@.len() ==> same_meta(#[trigger] metas@[i], old(self).files()[i])
                        && written@[i] <= old(self).files()[i].size;
                &&& fits ==> r is Ok && final(self).has_sinks() && final(self).done_bytes()
                    == sum_sizes(written@) && final(self).resumed() == hashers@.map_values(
                    |h: ResumeHasher| Some(h.fed()),
                )
                &&& !fits ==> (r matches Err(TransferError::ManifestChanged)
                    && final(self).has_sinks() == old(self).has_sinks()
                    && final(self).done_bytes() == old(self).done_bytes()
                    && final(self).resumed() == old(self).resumed())
            }),
    {
        if !resume_fits(self.manifest.as_slice(), metas, written) {
            return Err(TransferError::ManifestChanged);
        }
        proof {
            assert forall|j: int| 0 <= j < written@.len() implies written@[j] <= manifest_sizes(
                self.manifest@,
            )[j] by {
                assert(same_meta(metas@[j], self.manifest@[j]));
            }
            lemma_sum_bounded(written@, manifest_sizes(self.manifest@));
        }
        let done = prefix_total(written, written.len());
        proof {
            assert(written@.take(written@.len() as int) =~= written@);
        }
        self.bytes_done = done;
        self.sinks_ready = true;
        let mut slots: Vec<Option<blake3::Hasher>> = Vec::new();
        let mut hs = hashers;
        let ghost all = hs@;
        while hs.len() > 0
            invariant
                slots@.len() + hs@.len() == all.len(),
                hs@ == all.skip(slots@.len() as int),
                forall|j: int| 0 <= j < slots@.len() ==> (#[trigger] slots@[j] matches Some(h)
                    && hasher_regular(h) && hasher_input(h) == all[j].fed()),
            decreases hs@.len(),
        {
            let ghost k = slots@.len();
            let h = hs.remove(0);
            assert(h == all[k as int]);
            let raw = h.into_hasher();
            slots.push(Some(raw));
            assert(hs@ =~= all.skip(slots@.len() as int));
        }
        self.resume_hashers = slots;
        assert(self.resumed() =~= all.map_values(|h: ResumeHasher| Some(h.fed())));
        Ok(())
    }

    /// Whether every file has been received, verified and finished.
    pub fn all_received(&self) -> (r: bool)
        ensures
            r == (self.has_sinks() && self.receiving() is None && self.next_index()
                >= self.files().len()),
    {
        self.sinks_ready && self.current.is_none() && self.next_file as usize >= self.manifest.len()
    }

    /// The receipt that tells the sender every file was verified and saved.
    pub fn receipt(&self) -> (r: Control)
        requires
            self.wf(),
        ensures
            r == (Control::Verified { files: self.files().len() as u32, bytes: self.total() }),
    {
        Control::Verified { files: self.manifest.len() as u32, bytes: self.bytes_total }
    }

    /// Whether the next file can be asked for.
    pub fn ready_to_request(&self) -> (r: bool)
        ensures
            r == (self.has_sinks() && self.receiving() is None && self.next_index()
                < self.files().len()),
    {
        self.sinks_ready && self.current.is_none() && (self.next_file as usize) < self.manifest.len()
    }

    /// Whether the current file arrives over the data channel.
    pub fn on_dc(&self) -> (r: bool)
        ensures
            r == (self.receiving() matches Some(f) && f.active_rx == Arrival::Dc),
    {
        match &self.current {
            Some(f) => f.active_rx == Arrival::Dc,
            None => false,
        }
    }

    /// Asks for the next file from the offset its sink already holds, under a new epoch, with
    /// `window` bytes of initial credit. The hash continues from a resumed prefix where there
    /// is one. Returns the `Request` and the `Credit` to send, in that order.
    pub fn start_next(&mut self, sink_offset: u64, window: u64, on_dc: bool) -> (r: (Control, Control))
        requires
            old(self).wf(),
            old(self).has_sinks(),
            old(self).receiving() is None,
            old(self).next_index() < old(self).files().len(),
            old(self).newest_epoch() < u32::MAX,
        ensures
            final(self).wf(),
            final(self).files() == old(self).files(),
            final(self).has_sinks(),
            final(self).next_index() == old(self).next_index(),
            final(self).newest_epoch() == old(self).newest_epoch() + 1,
            final(self).done_bytes() == old(self).done_bytes(),
            final(self).receiving() matches Some(f) && f.index == old(self).next_index()
                && f.expected == sink_offset && f.epoch_start == sink_offset && f.window == window
                && f.granted == window && f.consumed_since_grant == 0 && f.active_rx == if on_dc {
                Arrival::Dc
            } else {
                Arrival::Control
            },
            r.0 == (Control::Request {
                file: old(self).next_index(),
                offset: sink_offset,
                epoch: final(self).newest_epoch(),
            }),
            r.1 == (Control::Credit { epoch: final(self).newest_epoch(), bytes: window }),
            hasher_input(final(self).receiving()->0.hasher) == old(self).resume_prefix(
                old(self).next_index(),
            ),
            old(self).next_index() < old(self).resumed().len() ==> final(self).resumed()
                == old(self).resumed().update(old(self).next_index() as int, None),
            old(self).next_index() >= old(self).resumed().len() ==> final(self).resumed()
                == old(self).resumed(),
    {
        let index = self.next_file;
        self.epoch = self.epoch + 1;
        let epoch = self.epoch;
        let mut hasher = hasher_new();
        let ghost before = self.resume_hashers@;
        if (index as usize) < self.resume_hashers.len() {
            let mut slot: Option<blake3::Hasher> = None;
            std::mem::swap(&mut slot, &mut self.resume_hashers[index as usize]);
            assert(slot == before[index as int]);
            assert(slot_inputs(self.resume_hashers@) =~= slot_inputs(before).update(index as int, None));
            match slot {
                Some(h) => {
                    hasher = h;
                },
                None => {},
            }
        }
        self.current = Some(
            FileState {
                index,
                expected: sink_offset,
                epoch_start: sink_offset,
                window,
                granted: window,
                consumed_since_grant: 0,
                active_rx: if on_dc {
                    Arrival::Dc
                } else {
                    Arrival::Control
                },
                hasher,
            },
        );
        (
            Control::Request { file: index, offset: sink_offset, epoch },
            Control::Credit { epoch, bytes: window },
        )
    }
}

pub proof fn lemma_sum_bounded(a: Seq<u64>, b: Seq<u64>)
    requires
        a.len() == b.len(),
        forall|i: int| 0 <= i < a.len() ==> a[i] <= b[i],
    ensures
        sum_sizes(a) <= sum_sizes(b),
    decreases a.len(),
{
    if a.len() > 0 {
        lemma_sum_bounded(a.drop_last(), b.drop_last());
    }
}

/// Whether durable destinations fit a manifest: one per file, each naming that file and
/// holding no more than its size.
pub open spec fn resume_fits_spec(manifest: Seq<FileMeta>, metas: Seq<FileMeta>, written: Seq<u64>) -> bool {
    metas.len() == manifest.len() && written.len() == metas.len() && forall|i: int|
        0 <= i < metas.len() ==> same_meta(#[trigger] metas[i], manifest[i]) && written[i]
            <= manifest[i].size
}

/// Whether durable destinations fit a manifest.
pub fn resume_fits(manifest: &[FileMeta], metas: &[FileMeta], written: &[u64]) -> (r: bool)
    ensures
        r == resume_fits_spec(manifest@, metas@, written@),
{
    if metas.len() != manifest.len() || written.len() != metas.len() {
        return false;
    }
    let mut i: usize = 0;
    while i < metas.len()
        invariant
            metas@.len() == manifest@.len(),
            written@.len() == metas@.len(),
            i <= metas@.len(),
            forall|j: int| 0 <= j < i ==> same_meta(#[trigger] metas@[j], manifest@[j]),
            forall|j: int| 0 <= j < i ==> #[trigger] written@[j] <= manifest@[j].size,
        decreases metas@.len() - i,
    {
        let same = meta_matches(&metas[i], &manifest[i]);
        if !same {
            return false;
        }
        if written[i] > manifest[i].size {
            return false;
        }
        assert(same_meta(metas@[i as int], manifest@[i as int]));
        assert(written@[i as int] <= manifest@[i as int].size);
        i = i + 1;
    }
    true
}

impl ReceiverSession {
    /// What to do with a chunk: it must belong to the newest epoch and be exactly the next
    /// bytes of the file being received. `sink_present` says whether the file has a
    /// destination.
    pub fn check_chunk(&self, header: ChunkHeader, payload_len: usize, sink_present: bool) -> (r:
        ChunkVerdict)
        requires
            self.wf(),
        ensures
            self.receiving() is None ==> r is Ignore,
            self.receiving() matches Some(f) ==> {
                if header.epoch != self.newest_epoch() {
                    r is Stale
                } else if header.file != f.index || header.offset != f.expected || payload_len
                    != header.len || f.expected + payload_len > u64::MAX || f.window + (f.expected
                    + payload_len - f.epoch_start) > u64::MAX {
                    r matches ChunkVerdict::Mismatch(TransferError::Protocol(
                        ProtocolError::LengthMismatch { declared, actual },
                    )) && declared == header.len && actual == payload_len
                } else if !sink_present {
                    r is Ignore
                } else {
                    r is Write
                }
            },
    {
        match &self.current {
            None => ChunkVerdict::Ignore,
            Some(f) => {
                if header.epoch != self.epoch {
                    return ChunkVerdict::Stale;
                }
                let len = payload_len as u64;
                if header.file != f.index || header.offset != f.expected || payload_len
                    != header.len as usize || len > u64::MAX - f.expected || f.expected + len
                    - f.epoch_start > u64::MAX - f.window {
                    return ChunkVerdict::Mismatch(
                        TransferError::Protocol(
                            ProtocolError::LengthMismatch {
                                declared: header.len,
                                actual: payload_len,
                            },
                        ),
                    );
                }
                if !sink_present {
                    ChunkVerdict::Ignore
                } else {
                    ChunkVerdict::Write
                }
            },
        }
    }

    /// Commits a chunk its sink has taken: the hash, the offsets and the counters move on, and
    /// the credit to grant comes back. Credit is granted when a grain has been consumed, when
    /// `grant_timer_due` says the last grant is a second old, when less than a grain of window
    /// is left, or when the file is complete; it is exactly what was consumed since the last
    /// grant.
    pub fn commit_chunk(&mut self, payload: &[u8], from: Arrival, grant_timer_due: bool) -> (r: Option<u64>)
        requires
            old(self).wf(),
            old(self).receiving() matches Some(f) && f.expected + payload@.len() <= u64::MAX
                && f.window + (f.expected + payload@.len() - f.epoch_start) <= u64::MAX,
        ensures
            final(self).wf(),
            final(self).files() == old(self).files(),
            final(self).has_sinks() == old(self).has_sinks(),
            final(self).next_index() == old(self).next_index(),
            final(self).newest_epoch() == old(self).newest_epoch(),
            final(self).resumed() == old(self).resumed(),
            final(self).done_bytes() == if old(self).done_bytes() + payload@.len() > u64::MAX {
                u64::MAX as int
            } else {
                old(self).done_bytes() + payload@.len()
            },
            ({
                let f = old(self).receiving()->0;
                let g = final(self).receiving()->0;
                let consumed = f.consumed_since_grant + payload@.len();
                let received = f.expected + payload@.len() - f.epoch_start;
                let remaining = if f.granted >= received { f.granted - received } else { 0 };
                let due = consumed >= CREDIT_GRAIN || grant_timer_due || remaining < CREDIT_GRAIN
                    || f.expected + payload@.len() == old(self).files()[f.index as int].size;
                &&& final(self).receiving() is Some
                &&& g.index == f.index && g.epoch_start == f.epoch_start && g.window == f.window
                &&& g.expected == f.expected + payload@.len()
                &&& g.active_rx == from
                &&& hasher_input(g.hasher) == hasher_input(f.hasher) + payload@
                &&& due ==> r == Some(consumed as u64) && g.consumed_since_grant == 0
                    && g.granted == f.granted + consumed
                &&& !due ==> r is None && g.consumed_since_grant == consumed && g.granted
                    == f.granted
            }),
    {
        let mut slot: Option<FileState> = None;
        std::mem::swap(&mut slot, &mut self.current);
        let mut f = match slot {
            Some(f) => f,
            None => {
                return None;
            },
        };
        let len = payload.len() as u64;
        hasher_update(&mut f.hasher, payload);
        f.expected = f.expected + len;
        f.consumed_since_grant = f.consumed_since_grant + len;
        self.bytes_done = self.bytes_done.saturating_add(len);
        f.active_rx = from;
        let received = f.expected - f.epoch_start;
        let remaining = f.granted.saturating_sub(received);
        let size = self.manifest[f.index as usize].size;
        let grant = if f.consumed_since_grant >= CREDIT_GRAIN || grant_timer_due || remaining
            < CREDIT_GRAIN || f.expected == size {
            let bytes = f.consumed_since_grant;
            f.granted = f.granted + bytes;
            f.consumed_since_grant = 0;
            Some(bytes)
        } else {
            None
        };
        self.current = Some(f);
        grant
    }

    /// Whether the receiver should close the data channel itself, once `limit` bytes of the
    /// current epoch arrived over it (a test hook).
    pub fn kill_dc_due(&self, limit: Option<u64>, killed: bool) -> (r: bool)
        ensures
            r == match (limit, self.receiving()) {
                (Some(l), Some(f)) => !killed && f.active_rx == Arrival::Dc && f.expected
                    - f.epoch_start >= l,
                _ => false,
            },
    {
        match (limit, &self.current) {
            (Some(l), Some(f)) => !killed && f.active_rx == Arrival::Dc && f.expected
                >= f.epoch_start && f.expected - f.epoch_start >= l,
            _ => false,
        }
    }

    /// What to do with a `Done`: only one for the newest epoch and the current file counts,
    /// and it finishes the file only when every declared byte arrived and the hash of the bytes
    /// received is the manifest's.
    pub fn on_done(&self, index: u32, epoch: u32) -> (r: DoneVerdict)
        requires
            self.wf(),
        ensures
            match self.receiving() {
                None => r is Stale,
                Some(f) => if epoch != self.newest_epoch() || index != f.index {
                    r is Stale
                } else if f.expected != self.files()[index as int].size {
                    r matches DoneVerdict::Failed(TransferError::Protocol(
                        ProtocolError::LengthMismatch { declared, actual },
                    )) && declared == self.files()[index as int].size as u32 && actual
                        == f.expected as usize
                } else if blake3_hash(hasher_input(f.hasher)) != self.files()[index as int].hash.0@ {
                    r matches DoneVerdict::Failed(TransferError::HashMismatch { file })
                        && file == index
                } else {
                    r matches DoneVerdict::Verified { index: i } && i == index
                },
            },
    {
        match &self.current {
            None => DoneVerdict::Stale,
            Some(f) => {
                if epoch != self.epoch || index != f.index {
                    return DoneVerdict::Stale;
                }
                let meta = &self.manifest[index as usize];
                if f.expected != meta.size {
                    return DoneVerdict::Failed(
                        TransferError::Protocol(
                            ProtocolError::LengthMismatch {
                                declared: meta.size as u32,
                                actual: f.expected as usize,
                            },
                        ),
                    );
                }
                let digest = BlobHash(hasher_finalize(&f.hasher));
                if !digest.same_as(&meta.hash) {
                    return DoneVerdict::Failed(TransferError::HashMismatch { file: index });
                }
                DoneVerdict::Verified { index }
            },
        }
    }

    /// The file verified by [`Self::on_done`] has been saved: on to the next one.
    pub fn file_finished(&mut self)
        requires
            old(self).wf(),
            old(self).receiving() is Some,
        ensures
            final(self).wf(),
            final(self).receiving() is None,
            final(self).next_index() == old(self).receiving()->0.index + 1,
            final(self).files() == old(self).files(),
            final(self).has_sinks() == old(self).has_sinks(),
            final(self).newest_epoch() == old(self).newest_epoch(),
            final(self).done_bytes() == old(self).done_bytes(),
            final(self).resumed() == old(self).resumed(),
    {
        let mut slot: Option<FileState> = None;
        std::mem::swap(&mut slot, &mut self.current);
        match slot {
            Some(f) => {
                self.next_file = f.index + 1;
            },
            None => {},
        }
    }

    /// An `Error` frame: fatal for the whole session, or for the file and epoch being
    /// received; one about anything else is stale and ignored.
    pub fn on_error(&self, file: Option<u32>, epoch: Option<u32>, message: String) -> (r: Result<(), TransferError>)
        ensures
            ({
                let fatal = match (file, epoch, self.receiving()) {
                    (None, _, _) => true,
                    (Some(i), Some(e), Some(f)) => i == f.index && e == self.newest_epoch(),
                    _ => false,
                };
                &&& fatal ==> (r matches Err(TransferError::Remote(m)) && m@ == message@)
                &&& !fatal ==> r is Ok
            }),
    {
        match (file, epoch, &self.current) {
            (None, _, _) => Err(TransferError::Remote(message)),
            (Some(i), Some(e), Some(f)) => {
                if i == f.index && e == self.epoch {
                    Err(TransferError::Remote(message))
                } else {
                    Ok(())
                }
            },
            _ => Ok(()),
        }
    }

    /// Asks for the current file again under a new epoch, from the offset the sink actually
    /// holds, with a fresh window, so that whatever an abandoned serve still has in flight is
    /// discarded rather than mixed in. The hash is left as it is. `None` when nothing was
    /// being received.
    pub fn restart_current(&mut self, window: u64) -> (r: Option<(Control, Control)>)
        requires
            old(self).wf(),
            old(self).receiving() is Some ==> old(self).newest_epoch() < u32::MAX,
        ensures
            final(self).wf(),
            final(self).files() == old(self).files(),
            final(self).has_sinks() == old(self).has_sinks(),
            final(self).next_index() == old(self).next_index(),
            final(self).done_bytes() == old(self).done_bytes(),
            final(self).resumed() == old(self).resumed(),
            old(self).receiving() is None ==> r is None && final(self).newest_epoch() == old(
                self,
            ).newest_epoch() && final(self).receiving() is None,
            old(self).receiving() matches Some(f) ==> {
                let g = final(self).receiving()->0;
                &&& final(self).newest_epoch() == old(self).newest_epoch() + 1
                &&& final(self).receiving() is Some
                &&& g.index == f.index && g.expected == f.expected && g.epoch_start == f.expected
                &&& g.window == window && g.granted == window && g.consumed_since_grant == 0
                &&& g.active_rx == Arrival::Control
                &&& hasher_input(g.hasher) == hasher_input(f.hasher)
                &&& r == Some((
                    Control::Request {
                        file: f.index,
                        offset: f.expected,
                        epoch: final(self).newest_epoch(),
                    },
                    Control::Credit { epoch: final(self).newest_epoch(), bytes: window },
                ))
            },
    {
        let mut slot: Option<FileState> = None;
        std::mem::swap(&mut slot, &mut self.current);
        match slot {
            None => None,
            Some(mut f) => {
                self.epoch = self.epoch + 1;
                let epoch = self.epoch;
                f.epoch_start = f.expected;
                f.window = window;
                f.granted = window;
                f.consumed_since_grant = 0;
                f.active_rx = Arrival::Control;
                let index = f.index;
                let offset = f.expected;
                self.current = Some(f);
                Some(
                    (
                        Control::Request { file: index, offset, epoch },
                        Control::Credit { epoch, bytes: window },
                    ),
                )
            },
        }
    }
}

/// An `Offer` is a protocol violation for a receiver that advertised no WebRTC.
pub fn check_offer(force_relay: bool) -> (r: Result<(), TransferError>)
    ensures
        force_relay ==> r matches Err(TransferError::Protocol(ProtocolError::Empty)),
        !force_relay ==> r is Ok,
{
    if force_relay {
        Err(TransferError::Protocol(ProtocolError::Empty))
    } else {
        Ok(())
    }
}

/// Whether a failed session is worth a fresh connection: timeouts, closed streams and I/O
/// failures of the transport are; anything the peer said or the data did is not.
pub open spec fn reconnectable_spec(error: TransferError) -> bool {
    match error {
        TransferError::Timeout => true,
        TransferError::Transport(TransportError::Closed) => true,
        TransferError::Transport(TransportError::Timeout) => true,
        TransferError::Transport(TransportError::Io(_)) => true,
        _ => false,
    }
}

pub fn reconnectable(error: &TransferError) -> (r: bool)
    ensures
        r == reconnectable_spec(*error),
{
    match error {
        TransferError::Timeout => true,
        TransferError::Transport(TransportError::Closed) => true,
        TransferError::Transport(TransportError::Timeout) => true,
        TransferError::Transport(TransportError::Io(_)) => true,
        _ => false,
    }
}

/// Whether a failed session is retried: a reconnectable error, attempts left, and no cancel.
pub fn should_retry(error: &TransferError, retries: u32, max_attempts: u32, cancelled: bool) -> (r: bool)
    ensures
        r == (reconnectable_spec(*error) && retries < max_attempts && !cancelled),
{
    reconnectable(error) && retries < max_attempts && !cancelled
}

/// The pause before the next reconnection: twice the last one, never above `max_ms`.
pub fn next_backoff(backoff_ms: u64, max_ms: u64) -> (r: u64)
    ensures
        r == if 2 * backoff_ms > u64::MAX {
            if u64::MAX < max_ms { u64::MAX } else { max_ms }
        } else if 2 * backoff_ms < max_ms {
            (2 * backoff_ms) as u64
        } else {
            max_ms
        },
        r <= max_ms,
{
    let doubled = if backoff_ms > u64::MAX / 2 {
        u64::MAX
    } else {
        backoff_ms * 2
    };
    if doubled < max_ms {
        doubled
    } else {
        max_ms
    }
}

/// The path an iroh control stream starts on natively, before a path is selected.
pub fn iroh_path() -> (r: Path)
    ensures
        r == Path::Unknown,
{
    Path::Unknown
}

/// The one sentence for a file that changed while it was shared; any other failure keeps its
/// own text.
pub fn describe_io(failure: &IoFailure, text: &str) -> (r: String)
    ensures
        *failure == IoFailure::Changed ==> r@ == "file changed since it was shared"@,
        *failure != IoFailure::Changed ==> r@ == text@,
{
    match failure {
        IoFailure::Changed => "file changed since it was shared".to_owned(),
        _ => text.to_owned(),
    }
}

} // verus!
