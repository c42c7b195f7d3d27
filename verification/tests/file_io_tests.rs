use p2p_transfer::blob_store::BlobHash;
use p2p_transfer::file_io::{
    first_route, mem_sinks, next_route, RouteOutcome, SinkError, SinkRoute, MEM_SINK_CAP,
    check_snapshot, final_name, hash_source, manifest_id, read_length, sanitize_name,
    FileSnapshot, IoFailure, MemSink, MemSource, PersistentSink, Sink, SourceHasher,
    StagingProgress, StuckSink, MAX_SOURCE_READ,
};
use p2p_transfer::node::SinkPref;
use p2p_transfer::protocol::FileMeta;

fn filler(size: usize) -> Vec<u8> {
    (0..size).map(|i| (i % 251) as u8).collect()
}

#[test]
fn local_test_sanitize_name() {
    assert_eq!(sanitize_name("../x"), "x");
    assert_eq!(sanitize_name("../../etc/passwd"), "passwd");
    assert_eq!(sanitize_name("a/b"), "b");
    assert_eq!(sanitize_name("C:\\windows\\system32\\evil.dll"), "evil.dll");
    assert_eq!(sanitize_name(""), "file.bin");
    assert_eq!(sanitize_name("."), "file.bin");
    assert_eq!(sanitize_name(".."), "file.bin");
    assert_eq!(sanitize_name("   "), "file.bin");
    assert_eq!(sanitize_name("a\u{0}b\nc"), "abc");
    assert_eq!(sanitize_name("report:final?.txt"), "report_final_.txt");
    assert_eq!(sanitize_name("CON"), "file.bin");
    assert_eq!(sanitize_name("com1.txt"), "file.bin");
    assert_eq!(sanitize_name("LPT9.backup"), "file.bin");
    assert_eq!(sanitize_name("normal name. "), "normal name");
    assert_eq!(sanitize_name("δοκιμή.txt"), "δοκιμή.txt");

    let long = sanitize_name(&"x".repeat(300));
    assert_eq!(long.len(), 255);
    let wide = sanitize_name(&"é".repeat(300));
    assert!(wide.len() <= 255);
    assert!(wide.chars().all(|c| c == 'é'));
}

#[test]
fn local_test_source_read_length_clamps_in_u64() {
    assert_eq!(read_length(1_u64 << 34, 1_u64 << 33, 1024).unwrap(), 1024);
    assert_eq!(read_length(100, 90, 50).unwrap(), 10);
    assert_eq!(read_length(100, 100, 50).unwrap(), 0);
    assert_eq!(read_length(100, 101, 50).unwrap(), 0);
    assert!(read_length(u64::MAX, 0, MAX_SOURCE_READ + 1).is_err());
}

#[test]
fn mem_sink_writes_and_caps() {
    let mut sink = MemSink::new("out.bin".to_string(), 16);
    sink.write(&filler(8)).expect("first write fits");
    assert_eq!(sink.bytes_written(), 8);
    assert_eq!(sink.write(&filler(16)), Err(IoFailure::OverCap));
    assert_eq!(sink.bytes_written(), 8, "a refused write stores nothing");
    assert_eq!(sink.contents(), &filler(8)[..]);

    let saved = sink.finish().expect("finishes");
    assert_eq!(saved.name, "out.bin");
    assert_eq!(saved.size, 8);
    assert_eq!(saved.location, "In memory");
}

#[test]
fn mem_source_reads_are_clamped_to_the_end() {
    let source = MemSource::new(filler(100));
    assert_eq!(source.read_at(90, 50).unwrap(), filler(100)[90..].to_vec());
    assert_eq!(source.read_at(100, 50).unwrap(), Vec::<u8>::new());
    assert_eq!(
        source.read_at(0, MAX_SOURCE_READ + 1),
        Err(IoFailure::ReadTooLarge)
    );
}

#[test]
fn incremental_hash_matches_whole() {
    let data = filler(3 * 1024 * 1024 + 17);
    let mut source = MemSource::new(data.clone());
    let hashed = hash_source(&mut source).expect("hashes");
    assert_eq!(hashed, BlobHash::from_bytes(&data));

    let mut empty = MemSource::new(Vec::new());
    let hashed = hash_source(&mut empty).expect("hashes");
    assert_eq!(hashed, BlobHash::from_bytes(&[]));
}

#[test]
fn source_hasher_refuses_short_and_long_reads() {
    let mut hasher = SourceHasher::new(10);
    assert_eq!(hasher.next_read(), Some(10));
    assert_eq!(hasher.feed(&[]), Err(IoFailure::SourceEnded));

    let mut hasher = SourceHasher::new(4);
    assert_eq!(hasher.feed(&[1, 2, 3, 4, 5]), Err(IoFailure::SourceOverran));

    let mut hasher = SourceHasher::new(4);
    hasher.feed(&[1, 2]).expect("part");
    assert_eq!(hasher.offset(), 2);
    hasher.feed(&[3, 4]).expect("rest");
    assert_eq!(hasher.next_read(), None);
    assert_eq!(hasher.finish(), BlobHash::from_bytes(&[1, 2, 3, 4]));
}

#[test]
fn snapshot_detects_changes() {
    let then = FileSnapshot { size: 10, modified_ms: Some(5) };
    assert_eq!(check_snapshot(&then, &then), Ok(()));
    let grown = FileSnapshot { size: 11, modified_ms: Some(5) };
    assert_eq!(check_snapshot(&then, &grown), Err(IoFailure::Changed));
    let touched = FileSnapshot { size: 10, modified_ms: Some(6) };
    assert_eq!(check_snapshot(&then, &touched), Err(IoFailure::Changed));
    let unknown = FileSnapshot { size: 10, modified_ms: None };
    assert_eq!(check_snapshot(&then, &unknown), Ok(()));
}

#[test]
fn final_name_appends_the_attempt() {
    assert_eq!(final_name("report.txt", 0), "report.txt");
    assert_eq!(final_name("report.txt", 2), "report.txt (2)");
    let long = "x".repeat(255);
    let renamed = final_name(&long, 12);
    assert_eq!(renamed.len(), 255);
    assert!(renamed.ends_with(" (12)"));
}

#[test]
fn staging_progress_blocks_after_an_unfinished_write() {
    let mut progress = StagingProgress::new();
    assert_eq!(progress.begin_write(5), Ok(5));
    assert_eq!(progress.check_ready(), Err(IoFailure::NotReady));
    assert_eq!(progress.begin_write(1), Err(IoFailure::NotReady));
    progress.end_write(5);
    assert_eq!(progress.begin_write(3), Ok(8));
    progress.end_write(8);
    progress.written = u64::MAX - 1;
    assert_eq!(progress.begin_write(2), Err(IoFailure::CountOverflow));
}

#[test]
fn persistent_sink_refuses_growth_and_short_finish() {
    let mut sink = PersistentSink::new("id".to_string(), 0, "a.bin".to_string(), 10, 4);
    assert_eq!(sink.plan_write(6), Ok(10));
    assert_eq!(sink.plan_write(7), Err(IoFailure::ExceedsDeclaredSize));
    assert_eq!(sink.check_finish(), Err(IoFailure::EndedBeforeSize));
    sink.wrote(10);
    assert_eq!(sink.check_finish(), Ok(()));
    assert!(sink.holds_handle());
    let saved = sink.finished();
    assert_eq!(saved.name, "a.bin");
    assert_eq!(saved.size, 10);
    assert!(!sink.holds_handle());
}

#[test]
fn stuck_sink_records_abort() {
    let mut sink = StuckSink::new("stuck.bin".to_string());
    assert!(!sink.abort_flag());
    sink.abort();
    assert!(sink.abort_flag());
    assert_eq!(sink.inner().bytes_written(), 0);
}

#[test]
fn manifest_id_depends_on_names_sizes_and_order() {
    let a = FileMeta { name: "a.bin".to_string(), size: 1, hash: BlobHash::from_bytes(b"a") };
    let b = FileMeta { name: "b.bin".to_string(), size: 2, hash: BlobHash::from_bytes(b"b") };
    let ab = manifest_id(&[a.clone(), b.clone()]).ok().unwrap();
    let ba = manifest_id(&[b.clone(), a.clone()]).ok().unwrap();
    assert_eq!(ab.len(), 64);
    assert_ne!(ab, ba);
    assert_eq!(ab, manifest_id(&[a.clone(), b]).ok().unwrap());
    let sanitized = FileMeta { name: "../a.bin".to_string(), ..a.clone() };
    assert_eq!(
        manifest_id(&[sanitized]).ok().unwrap(),
        manifest_id(&[a]).ok().unwrap()
    );
}

#[test]
fn memory_route_sinks_and_limit() {
    let small = FileMeta { name: "../a.bin".to_string(), size: 10, hash: BlobHash::from_bytes(b"a") };
    let sinks = mem_sinks(&[small.clone()]).ok().unwrap();
    assert_eq!(sinks.len(), 1);
    assert_eq!(sinks[0].name(), "a.bin");
    let big = FileMeta { size: MEM_SINK_CAP as u64 + 1, ..small };
    match mem_sinks(&[big]) {
        Err(SinkError::Unsupported(m)) => assert!(m.starts_with("this browser cannot stream")),
        _ => panic!("an oversized file was accepted"),
    }
}

#[test]
fn sink_routes_fall_back_only_when_unsupported() {
    assert_eq!(first_route(SinkPref::Auto), SinkRoute::Fsa);
    assert_eq!(first_route(SinkPref::Mem), SinkRoute::Mem);
    assert_eq!(next_route(SinkPref::Auto, SinkRoute::Fsa, RouteOutcome::Unsupported), Some(SinkRoute::Sw));
    assert_eq!(next_route(SinkPref::Auto, SinkRoute::Sw, RouteOutcome::Unsupported), Some(SinkRoute::Mem));
    assert_eq!(next_route(SinkPref::Auto, SinkRoute::Fsa, RouteOutcome::Failed), None);
    assert_eq!(next_route(SinkPref::Fsa, SinkRoute::Fsa, RouteOutcome::Unsupported), None);
    assert_eq!(next_route(SinkPref::Auto, SinkRoute::Mem, RouteOutcome::Ready), None);
}
