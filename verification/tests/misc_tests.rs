use p2p_transfer::echo::{
    chunk_count, encode_reply, encode_request, files_to_send, EchoError, EchoReader,
    TransferEvent, ECHO_CHUNK,
};
use p2p_transfer::logging::{terminal_buffer, wants_buffer, LogLevel, TERMINAL_CAPACITY};
use p2p_transfer::transfer::PcState;
use p2p_transfer::tree_merge::{
    build_change_tree, crc_eq, file_digest_hex, crc_failure, git_delete_history, git_restore_staged, git_status,
    items_content_eq, merge, needs_hashes, parse_status_line, plan_apply, retry_delay,
    should_print, time_bytes, ApplyStep, Change, FileCrc, ItemStamp, MergeError, MergeStrategy,
    PathWalker,
};
use p2p_transfer::webrtc::{pc_state, WebRtcFactory};

#[test]
fn status_lines_parse_into_changes() {
    assert_eq!(
        parse_status_line("M  src/main.rs"),
        Some((Change::Modify, "src/main.rs".to_string()))
    );
    assert_eq!(
        parse_status_line("A  \"with space.txt\""),
        Some((Change::Add, "with space.txt".to_string()))
    );
    assert_eq!(
        parse_status_line("R  old.txt -> new.txt"),
        Some((Change::Rename("old.txt".to_string()), "new.txt".to_string()))
    );
    assert_eq!(
        parse_status_line("C  a -> b"),
        Some((Change::Copy("a".to_string()), "b".to_string()))
    );
    assert_eq!(parse_status_line("R  no-arrow"), None);
    assert_eq!(parse_status_line("?? untracked"), None);
    assert_eq!(parse_status_line(""), None);
    assert_eq!(Change::Rename("x".to_string()).to_text(), "R 'x' ->");
    assert_eq!(Change::Delete.to_text(), "D");
}

#[test]
fn change_tree_lists_flat_changes_in_order() {
    let lines = vec!["A  one".to_string(), "D  two".to_string()];
    let tree = build_change_tree(&lines, false).expect("parses");
    assert!(!tree.new_repo());
    assert_eq!(
        tree.changes().unwrap(),
        vec![(Change::Add, "one".to_string()), (Change::Delete, "two".to_string())]
    );
    assert!(build_change_tree(&["X  bad".to_string()], true).is_none());
}

#[test]
fn change_tree_keeps_the_last_change_of_a_repeated_path() {
    let lines = vec![
        "A  one".to_string(),
        "A  two".to_string(),
        "M  one".to_string(),
    ];
    let tree = build_change_tree(&lines, true).expect("parses");
    assert!(tree.new_repo());
    assert_eq!(
        tree.changes().unwrap(),
        vec![(Change::Modify, "one".to_string()), (Change::Add, "two".to_string())]
    );
}

#[test]
fn change_tree_hangs_nested_paths_under_their_parent_part() {
    // The first nested path under an unknown parent part makes a node for that part and
    // records the change on it.
    let lines = vec!["A  dir|file".to_string()];
    let tree = build_change_tree(&lines, false).expect("parses");
    assert_eq!(tree.changes().unwrap(), vec![(Change::Add, "dir".to_string())]);
    // Once the parent part is itself a recorded path, nested paths hang under its node.
    let lines = vec!["A  dir".to_string(), "M  dir|file".to_string()];
    let tree = build_change_tree(&lines, false).expect("parses");
    assert_eq!(
        tree.changes().unwrap(),
        vec![(Change::Add, "dir".to_string()), (Change::Modify, "dir|file".to_string())]
    );
}

#[test]
fn git_command_plans() {
    assert_eq!(git_status().args, vec!["status", "-s"]);
    let restore = git_restore_staged("a b");
    assert_eq!(restore[1].args, vec!["restore", "--staged", "a b"]);
    assert!(!restore[1].must_succeed);
    let history = git_delete_history();
    assert_eq!(history.len(), 5);
    assert_eq!(history[4].args, vec!["branch", "-m", "master"]);
}

#[test]
fn one_way_merge_copies_the_first_trees_changes() {
    let first = vec![(Change::Add, "x".to_string())];
    let merged = merge(&first, 3, MergeStrategy::OneWay).unwrap();
    assert_eq!(merged.len(), 3);
    assert!(merged[0].is_empty());
    assert_eq!(merged[2], first);
    assert_eq!(merge(&first, 1, MergeStrategy::TwoWay), Err(MergeError::TooFewPaths));
}

#[test]
fn apply_plans_and_comparisons() {
    assert_eq!(
        plan_apply(&Change::Modify, false, true, false, false, true),
        (ApplyStep::CopyFromSource { check_crc: true }, true)
    );
    assert_eq!(plan_apply(&Change::Add, true, true, false, false, true), (ApplyStep::Skip, false));
    assert_eq!(plan_apply(&Change::Delete, false, false, false, false, false), (ApplyStep::Skip, true));
    assert_eq!(
        plan_apply(&Change::Rename("o".to_string()), false, false, true, false, false),
        (ApplyStep::RenameWithinDestination, true)
    );
    let a = ItemStamp { size: 1, mtime_secs: 2, mtime_nanos: 3 };
    let b = ItemStamp { size: 1, mtime_secs: 2, mtime_nanos: 4 };
    assert!(items_content_eq(a, a, false, None));
    assert!(!items_content_eq(a, b, false, None));
    assert!(needs_hashes(a, a, true));
    assert!(items_content_eq(a, a, true, Some(("h", "h"))));
    assert!(!items_content_eq(a, a, true, Some(("h", "g"))));
    assert!(should_print(10, 5, false));
    assert!(!should_print(11, 5, false));
    assert_eq!(crc_failure("f"), "CRC check failed for `f` after transfer");
    assert_eq!(retry_delay(3, 5), Some(8));
    assert_eq!(retry_delay(6, 5), None);
    assert_eq!(time_bytes(1, 2), vec![0, 0, 0, 0, 0, 0, 0, 1, 0, 0, 0, 2]);
    assert!(PathWalker::new("p".to_string(), false).is_err());
    assert_eq!(PathWalker::new("p".to_string(), true).ok().unwrap().path, "p");
}

#[test]
fn crc_of_equal_bytes_is_equal() {
    let mut a = FileCrc::new();
    a.update(b"hello ");
    a.update(b"world");
    let mut b = FileCrc::new();
    b.update(b"hello world");
    assert!(crc_eq(a, b));
    let mut c = FileCrc::new();
    c.update(b"hello there");
    let mut d = FileCrc::new();
    d.update(b"hello world");
    assert!(!crc_eq(c, d));
    let mut e = FileCrc::new();
    e.update(b"123456789");
    assert_eq!(e.finish(), 0xcbf43926);
}

#[test]
fn echo_reply_reads_back_with_verified_hashes() {
    let data: Vec<u8> = (0..(ECHO_CHUNK as usize + 10)).map(|i| (i % 7) as u8).collect();
    let files = files_to_send(&vec![], "a.txt".to_string(), data.clone());
    assert_eq!(chunk_count(data.len() as u64), 2);
    let reply = encode_reply(&files);

    let mut reader = EchoReader::new();
    let mut pos = 0;
    let mut events = Vec::new();
    while !reader.is_done() {
        let n = reader.need();
        events.extend(reader.feed(&reply[pos..pos + n]).unwrap());
        pos += n;
    }
    assert_eq!(pos, reply.len());
    assert!(matches!(&events[0], TransferEvent::FileStart { file_name, file_size, total_chunks: 2, .. }
        if file_name == "a.txt" && *file_size == data.len() as u64));
    let mut got = Vec::new();
    for e in &events {
        if let TransferEvent::ChunkReceived { chunk_data, .. } = e {
            got.extend_from_slice(chunk_data);
        }
    }
    assert_eq!(got, data);
    assert!(matches!(events.last().unwrap(), TransferEvent::FileComplete { hash_verified: Some(true), .. }));
    let request = encode_request("a", &[9]);
    assert_eq!(request, vec![1, 0, 0, 0, b'a', 1, 0, 0, 0, 0, 0, 0, 0, 9]);
}

#[test]
fn terminal_buffer_keeps_the_newest_lines() {
    let mut buffer = terminal_buffer();
    for i in 0..(TERMINAL_CAPACITY + 3) {
        buffer.push(format!("line {i}"));
    }
    assert_eq!(buffer.len(), TERMINAL_CAPACITY);
    assert_eq!(buffer.line(0), "line 3");
    assert!(wants_buffer(LogLevel::Info, "anything"));
    assert!(wants_buffer(LogLevel::Debug, "p2p_transfer::node"));
    assert!(!wants_buffer(LogLevel::Debug, "iroh"));
    assert!(!wants_buffer(LogLevel::Trace, "p2p_transfer"));
}

#[test]
fn peer_connection_states() {
    assert_eq!(pc_state("connected"), PcState::Connected);
    assert_eq!(pc_state("disconnected"), PcState::Failed);
    assert_eq!(pc_state("whatever"), PcState::Connecting);
    assert_eq!(WebRtcFactory::new().ice_servers.len(), 2);
}

#[test]
fn echo_reader_refuses_a_name_that_is_not_utf8() {
    let mut reader = EchoReader::new();
    reader.feed(&[1, 0, 0, 0]).unwrap();
    reader.feed(&[2, 0, 0, 0]).unwrap();
    assert_eq!(reader.need(), 2);
    assert!(matches!(reader.feed(&[0xff, 0xfe]), Err(EchoError::BadName)));
}

#[test]
fn file_digest_is_lowercase_md5_hex() {
    assert_eq!(file_digest_hex(b"example data"), "5c71dbb287630d65ca93764c34d9aa0d");
    assert_eq!(file_digest_hex(&[]), "d41d8cd98f00b204e9800998ecf8427e");
}
