use p2p_transfer::blob_store::BlobHash;
use p2p_transfer::protocol::{
    cap_to_hex, length_prefixed, max_payload, ChunkHeader, Control, FileMeta, INITIAL_WINDOW,
    MAX_FRAME, PROTOCOL_VERSION,
};
use p2p_transfer::transfer::{
    next_backoff, reconnectable, sender_gate, should_retry, take_frame, Arrival, AuthFailure,
    earliest, ByteBudget, ChunkVerdict, CreditVerdict, DoneVerdict, FirstFrame, HelloVerdict,
    ReceiverSession, RequestVerdict, ResumeHasher, SenderSession, ServeCursor, ServeStep, TransferError,
    ProgressMeter, TransportChoice, TransportError, MAX_RECONNECT_BACKOFF_MS, PROGRESS_BYTES,
    RECONNECT_BACKOFF_MS,
};

fn filler(size: usize) -> Vec<u8> {
    (0..size).map(|i| (i % 251) as u8).collect()
}

#[test]
fn local_test_inbound_budget_admits_full_window() {
    let budget_bytes = INITIAL_WINDOW as usize + MAX_FRAME;
    for frame in [8 * 1024usize, 16 * 1024, 64 * 1024] {
        let payload = max_payload(frame, false);
        let needed = (INITIAL_WINDOW as usize).div_ceil(payload);
        let mut budget = ByteBudget::new(budget_bytes);

        for i in 0..needed {
            assert!(
                budget.try_admit(frame),
                "frame {frame}: refused admission {i} of {needed}"
            );
        }

        let mut refused = false;
        for _ in 0..(budget_bytes / frame + 2) {
            if !budget.try_admit(frame) {
                refused = true;
                break;
            }
        }
        assert!(refused, "frame {frame}: the budget never refused");
        budget.release(frame);
        assert!(
            budget.try_admit(frame),
            "frame {frame}: no space after release"
        );
        assert!(budget.in_queue() <= budget.budget());
    }
}

#[test]
fn byte_budget_release_saturates_at_zero() {
    let mut budget = ByteBudget::new(10);
    assert!(budget.try_admit(10));
    assert!(!budget.try_admit(1));
    budget.release(4);
    assert_eq!(budget.in_queue(), 6);
    budget.release(100);
    assert_eq!(budget.in_queue(), 0);
    budget.set_budget(3);
    assert_eq!(budget.budget(), 3);
    assert!(!budget.try_admit(4));
}

#[test]
fn take_frame_splits_prefixed_frames() {
    let mut buf = length_prefixed(&[1, 2, 3]).unwrap();
    buf.extend_from_slice(&length_prefixed(&[4]).unwrap());
    buf.push(9);
    assert_eq!(take_frame(&mut buf).unwrap(), Some(vec![1, 2, 3]));
    assert_eq!(take_frame(&mut buf).unwrap(), Some(vec![4]));
    assert_eq!(take_frame(&mut buf).unwrap(), None);
    assert_eq!(buf, vec![9]);

    let mut oversize = ((MAX_FRAME + 1) as u32).to_le_bytes().to_vec();
    oversize.extend_from_slice(b"not actually there");
    assert!(matches!(
        take_frame(&mut oversize),
        Err(TransportError::TooLarge(n)) if n == MAX_FRAME + 1
    ));
}

#[test]
fn sender_gate_checks_version_cap_and_files() {
    let cap = [7u8; 16];
    let hello = |version: u16, cap: [u8; 16]| FirstFrame::Hello { version, webrtc: true, cap };
    assert!(matches!(
        sender_gate(hello(PROTOCOL_VERSION, cap), &cap, 1),
        HelloVerdict::Accept { their_webrtc: true }
    ));
    match sender_gate(hello(PROTOCOL_VERSION, [8u8; 16]), &cap, 1) {
        HelloVerdict::Refuse { message, error, .. } => {
            assert_eq!(message, "unauthorized");
            assert!(matches!(error, TransferError::Unauthorized(AuthFailure::Rejected)));
        }
        HelloVerdict::Accept { .. } => panic!("a wrong cap was accepted"),
    }
    match sender_gate(hello(1, cap), &cap, 1) {
        HelloVerdict::Refuse { close_reason, error, .. } => {
            assert_eq!(close_reason, "version");
            assert!(matches!(error, TransferError::Version { theirs: 1 }));
        }
        HelloVerdict::Accept { .. } => panic!("an old protocol was accepted"),
    }
    assert!(matches!(
        sender_gate(hello(PROTOCOL_VERSION, cap), &cap, 0),
        HelloVerdict::Refuse { .. }
    ));
    match sender_gate(FirstFrame::Other, &cap, 1) {
        HelloVerdict::Refuse { message, .. } => assert_eq!(message, "expected a Hello frame"),
        HelloVerdict::Accept { .. } => panic!("a non-Hello was accepted"),
    }
    assert_eq!(cap_to_hex(&cap).len(), 32);
}

#[test]
fn sender_session_requests_credits_and_receipt() {
    let mut s = SenderSession::new(vec![100, 50]);
    assert_eq!(s.bytes_total(), 150);
    assert_eq!(s.on_request(1, 10, 1), RequestVerdict::Accepted { bytes_before: 100 });
    assert!(s.parked());
    // An epoch that is not newer is refused, and nothing is served after it.
    assert_eq!(s.on_request(0, 0, 1), RequestVerdict::Invalid);
    assert!(s.serving().is_none());
    assert_eq!(s.on_request(1, 10, 2), RequestVerdict::Accepted { bytes_before: 100 });
    assert_eq!(s.on_request(2, 0, 3), RequestVerdict::Invalid);
    assert_eq!(s.on_request(1, 10, 4), RequestVerdict::Accepted { bytes_before: 100 });

    assert_eq!(s.on_credit(3, 64), CreditVerdict::Stale);
    assert_eq!(s.on_credit(4, 64), CreditVerdict::Initial);
    assert_eq!(
        s.on_credit(4, 30),
        CreditVerdict::Acknowledged { done: 40, newly: 30 }
    );
    assert_eq!(
        s.on_credit(4, 1000),
        CreditVerdict::Acknowledged { done: 50, newly: 10 }
    );
    assert_eq!(s.serving().unwrap().granted, 1094);

    assert_eq!(s.plan_transport(true, false, false), TransportChoice::Park { arm: true });
    s.armed();
    assert_eq!(s.plan_transport(true, false, false), TransportChoice::Park { arm: false });
    assert_eq!(s.plan_transport(true, true, false), TransportChoice::Direct);
    s.on_use_relay();
    assert_eq!(s.plan_transport(true, true, false), TransportChoice::Relay);
    s.started();
    assert_eq!(s.plan_transport(true, true, false), TransportChoice::Nothing);

    assert!(matches!(
        s.on_verified(2, 149),
        Err(TransferError::Protocol(p2p_transfer::protocol::ProtocolError::InvalidReceipt))
    ));
    assert!(!s.is_verified());
    assert!(s.on_verified(2, 150).is_ok());
    assert!(s.is_verified());
}

#[test]
fn serve_cursor_respects_window_and_frame() {
    let mut c = ServeCursor::new(0, 1, 0, 100, 56, false).ok().unwrap();
    // 56 - 26 = 30 bytes per frame.
    assert_eq!(c.next_step(0), ServeStep::Wait);
    assert_eq!(c.next_step(50), ServeStep::Send(30));
    c.sent_chunk(30, 50).unwrap();
    assert_eq!(c.next_step(50), ServeStep::Send(20));
    c.sent_chunk(20, 50).unwrap();
    assert_eq!(c.next_step(50), ServeStep::Wait);
    assert_eq!(c.next_step(200), ServeStep::Send(30));
    assert!(c.sent_chunk(0, 200).is_err());
    c.sent_chunk(30, 200).unwrap();
    c.sent_chunk(20, 200).unwrap();
    assert_eq!(c.offset(), 100);
    assert_eq!(c.next_step(200), ServeStep::Finished);

    assert!(ServeCursor::new(0, 1, 0, 10, 20, true).is_err());
    assert!(ServeCursor::new(0, 1, 10, 10, 20, true).is_ok());
}

#[test]
fn receiver_session_receives_and_verifies_a_file() {
    let data = filler(3000);
    let meta = FileMeta { name: "a.bin".to_string(), size: 3000, hash: BlobHash::from_bytes(&data) };
    let mut r = ReceiverSession::new();
    assert_eq!(r.adopt_manifest(vec![meta.clone()]).unwrap(), true);
    assert_eq!(r.adopt_manifest(vec![meta.clone()]).unwrap(), false);
    let changed = FileMeta { size: 3001, ..meta.clone() };
    assert!(matches!(r.adopt_manifest(vec![changed]), Err(TransferError::ManifestChanged)));
    assert!(!r.ready_to_request());
    assert!(r.on_save(&[1]).is_err());
    r.on_save(&[0]).unwrap();
    assert!(r.ready_to_request());

    let (request, credit) = r.start_next(0, 2048, false);
    assert!(request == Control::Request { file: 0, offset: 0, epoch: 1 });
    assert!(credit == Control::Credit { epoch: 1, bytes: 2048 });

    let stale = ChunkHeader { file: 0, epoch: 0, offset: 0, len: 1000 };
    assert!(matches!(r.check_chunk(stale, 1000, true), ChunkVerdict::Stale));
    let gap = ChunkHeader { file: 0, epoch: 1, offset: 5, len: 1000 };
    assert!(matches!(r.check_chunk(gap, 1000, true), ChunkVerdict::Mismatch(_)));

    let first = ChunkHeader { file: 0, epoch: 1, offset: 0, len: 1000 };
    assert!(matches!(r.check_chunk(first, 1000, true), ChunkVerdict::Write));
    // Less than a grain of window is left, so the consumed bytes are granted back at once.
    assert_eq!(r.commit_chunk(&data[..1000], Arrival::Control, false), Some(1000));
    assert_eq!(r.commit_chunk(&data[1000..2000], Arrival::Control, false), Some(1000));
    assert!(matches!(r.on_done(0, 1), DoneVerdict::Failed(_)));
    assert_eq!(r.commit_chunk(&data[2000..], Arrival::Control, false), Some(1000));
    assert_eq!(r.bytes_done(), 3000);
    assert!(matches!(r.on_done(0, 0), DoneVerdict::Stale));
    assert!(matches!(r.on_done(0, 1), DoneVerdict::Verified { index: 0 }));
    r.file_finished();
    assert!(r.all_received());
    assert!(r.receipt() == Control::Verified { files: 1, bytes: 3000 });
}

#[test]
fn receiver_session_detects_a_hash_mismatch() {
    let meta = FileMeta { name: "a.bin".to_string(), size: 4, hash: BlobHash::from_bytes(b"abcd") };
    let mut r = ReceiverSession::new();
    r.adopt_manifest(vec![meta]).unwrap();
    r.on_save(&[0]).unwrap();
    r.start_next(0, 1024, false);
    r.commit_chunk(b"abce", Arrival::Control, true);
    assert!(matches!(
        r.on_done(0, 1),
        DoneVerdict::Failed(TransferError::HashMismatch { file: 0 })
    ));
    assert!(r.on_error(None, None, "stop".to_string()).is_err());
    assert!(r.on_error(Some(0), Some(0), "old".to_string()).is_ok());
    let (request, _) = r.restart_current(1024).unwrap();
    assert!(request == Control::Request { file: 0, offset: 4, epoch: 2 });
}

#[test]
fn reconnect_policy() {
    assert!(reconnectable(&TransferError::Timeout));
    assert!(reconnectable(&TransferError::Transport(TransportError::Closed)));
    assert!(!reconnectable(&TransferError::ManifestChanged));
    assert!(should_retry(&TransferError::Timeout, 0, 4, false));
    assert!(!should_retry(&TransferError::Timeout, 4, 4, false));
    assert!(!should_retry(&TransferError::Timeout, 0, 4, true));
    assert_eq!(next_backoff(RECONNECT_BACKOFF_MS, MAX_RECONNECT_BACKOFF_MS), 1000);
    assert_eq!(next_backoff(6000, MAX_RECONNECT_BACKOFF_MS), MAX_RECONNECT_BACKOFF_MS);
}

#[test]
fn progress_meter_reports_first_then_by_time_or_bytes() {
    let mut meter = ProgressMeter::new(1000);
    let first = meter.due(1000, 10);
    assert!(first.publish);
    assert_eq!(first.sample, None);
    // 10 ms later and a few bytes on: not yet.
    assert!(!meter.due(1010, 20).publish);
    // A megabyte on: due however soon.
    assert!(meter.due(1020, 10 + PROGRESS_BYTES).publish);
    // 50 ms after the last report: due.
    let step = meter.due(1070, 20 + PROGRESS_BYTES);
    assert!(step.publish);
    assert_eq!(step.sample, None);
    // 250 ms after the meter started: a throughput sample is taken.
    let step = meter.due(1250, 30 + PROGRESS_BYTES);
    assert_eq!(step.sample, Some((30 + PROGRESS_BYTES, 250)));
    assert_eq!(meter.sampled_at, 1250);
}

#[test]
fn earliest_of_two_deadlines() {
    assert_eq!(earliest(Some(5), Some(3)), Some(3));
    assert_eq!(earliest(Some(5), None), Some(5));
    assert_eq!(earliest(None, Some(7)), Some(7));
    assert_eq!(earliest(None, None), None);
}

#[test]
fn receiver_session_resumes_a_checkpointed_prefix() {
    let data = filler(3000);
    let meta = FileMeta { name: "a.bin".to_string(), size: 3000, hash: BlobHash::from_bytes(&data) };
    let mut r = ReceiverSession::new();
    r.adopt_manifest(vec![meta.clone()]).unwrap();
    let mut prefix = ResumeHasher::new();
    prefix.update(&data[..1200]);
    assert!(matches!(
        r.on_resume(&[FileMeta { size: 2999, ..meta.clone() }], &[1200], vec![ResumeHasher::new()]),
        Err(TransferError::ManifestChanged)
    ));
    r.on_resume(&[meta.clone()], &[1200], vec![prefix]).unwrap();
    assert_eq!(r.bytes_done(), 1200);
    let (request, _) = r.start_next(1200, 4096, false);
    assert!(request == Control::Request { file: 0, offset: 1200, epoch: 1 });
    let header = ChunkHeader { file: 0, epoch: 1, offset: 1200, len: 1800 };
    assert!(matches!(r.check_chunk(header, 1800, true), ChunkVerdict::Write));
    r.commit_chunk(&data[1200..], Arrival::Control, false);
    assert!(matches!(r.on_done(0, 1), DoneVerdict::Verified { index: 0 }));
}

#[test]
fn source_reader_serves_ranges_across_its_buffer() {
    let data = filler(3 * 1048576 + 7);
    let mut reader =
        p2p_transfer::transfer::SourceReader::new(p2p_transfer::file_io::MemSource::new(data.clone()));
    assert_eq!(reader.next(0, 100).unwrap(), data[..100].to_vec());
    let at = 1048576 - 10;
    assert_eq!(reader.next(at as u64, 100).unwrap(), data[at..at + 100].to_vec());
    let end = data.len() - 5;
    assert_eq!(reader.next(end as u64, 100).unwrap(), data[end..].to_vec());
}
