use std::sync::atomic::{AtomicBool, Ordering};
use std::sync::Arc;

use p2p_transfer::node::parse_fragment;
use p2p_transfer::transfer::{Path, Phase};
use p2p_transfer::ui_state::{
    contains, flag_summary, humanize, path_badge, phase_text, rebuild_url,
    receive_needs_wake_lock, share_base_url, transfer_path_text, SaveAttempt, Theme,
    BUILD_COMMITTED_AT, BUILD_LABEL, BUILD_REVISION,
};

#[test]
fn local_test_build_label_identifies_compiled_revision() {
    assert_eq!(BUILD_LABEL, format!("v{} · {}", "0.1.0", BUILD_REVISION));
    assert!(
        BUILD_REVISION == "unknown"
            || (BUILD_REVISION.len() == 12
                && BUILD_REVISION.bytes().all(|byte| byte.is_ascii_hexdigit()))
    );
    assert!(
        BUILD_COMMITTED_AT == "unknown"
            || (BUILD_COMMITTED_AT.len() == 25 && BUILD_COMMITTED_AT.as_bytes()[10] == b'T')
    );
}

#[test]
fn local_test_receiver_wake_lock_requires_active_session_or_save_attempt() {
    let preview = Phase::AwaitingSave { manifest: vec![] };
    let done = Phase::Complete { saved: vec![] };
    assert!(receive_needs_wake_lock(true, false, None));
    assert!(!receive_needs_wake_lock(false, true, None));
    assert!(!receive_needs_wake_lock(false, false, Some(&preview)));
    assert!(receive_needs_wake_lock(false, true, Some(&preview)));
    assert!(receive_needs_wake_lock(false, true, Some(&Phase::Transferring)));
    assert!(!receive_needs_wake_lock(false, true, Some(&done)));
}

#[test]
fn local_test_reconnect_ui_does_not_claim_the_old_path_is_active() {
    let phase = Phase::Reconnecting {
        attempt: 2,
        max_attempts: 5,
    };
    assert_eq!(phase_text(&phase), "Connecting again…");
    assert_eq!(path_badge(&phase, Path::Direct), "Connecting again");
}

#[test]
fn local_test_connection_labels_explain_paths_without_protocol_names() {
    assert_eq!(transfer_path_text(Path::Direct), "Direct connection");
    assert_eq!(
        transfer_path_text(Path::Relayed),
        "Encrypted via a helper server"
    );
    assert_eq!(phase_text(&Phase::Signaling), "Finding a connection…");
    assert_eq!(
        phase_text(&Phase::Complete { saved: Vec::new() }),
        "Transfer complete and checked"
    );
}

#[test]
fn local_test_save_attempt_blocks_duplicates_and_allows_retry() {
    let pending = Arc::new(AtomicBool::new(false));
    let attempt = SaveAttempt::begin(&pending).unwrap();
    assert!(pending.load(Ordering::Acquire));
    assert!(SaveAttempt::begin(&pending).is_none());

    drop(attempt);
    assert!(!pending.load(Ordering::Acquire));
    assert!(SaveAttempt::begin(&pending).is_some());
}

#[test]
fn local_test_submitted_save_stays_blocked_until_phase_changes() {
    let pending = Arc::new(AtomicBool::new(false));
    SaveAttempt::begin(&pending).unwrap().submitted();
    assert!(SaveAttempt::begin(&pending).is_none());
}

#[test]
fn local_test_old_save_attempt_cannot_change_new_receive_state() {
    let old_pending = Arc::new(AtomicBool::new(false));
    let old_attempt = SaveAttempt::begin(&old_pending).unwrap();
    let new_pending = Arc::new(AtomicBool::new(false));
    let new_attempt = SaveAttempt::begin(&new_pending).unwrap();

    drop(old_attempt);
    assert!(new_pending.load(Ordering::Acquire));
    drop(new_attempt);
    assert!(!new_pending.load(Ordering::Acquire));
}

#[test]
fn theme_storage_values_roundtrip() {
    for theme in [Theme::Rusty, Theme::Clean] {
        assert_eq!(Theme::from_storage_value(theme.storage_value()), Some(theme));
    }
    assert_eq!(Theme::Rusty.storage_value(), "rusty");
    assert_eq!(Theme::from_storage_value("unknown"), None);
    assert_eq!(Theme::default(), Theme::Clean);
}

#[test]
fn path_badge_while_signalling_and_unknown() {
    assert_eq!(path_badge(&Phase::Signaling, Path::Direct), "Finding a connection");
    assert_eq!(path_badge(&Phase::Transferring, Path::Unknown), "Connecting");
    assert_eq!(path_badge(&Phase::Transferring, Path::Relayed), "Encrypted via a helper server");
}

#[test]
fn humanize_rewrites_access_code_errors() {
    assert_eq!(
        humanize("peer said: access code is missing"),
        "this link is missing its access code; ask the sender for the full link"
    );
    assert!(humanize("wrong access code").starts_with("this link is not valid"));
    assert_eq!(humanize("timed out"), "timed out");
    assert!(contains("abcdef", "cde"));
    assert!(contains("abc", ""));
    assert!(!contains("abc", "abcd"));
}

#[test]
fn flag_summary_lists_the_test_flags() {
    let params = parse_fragment("relay&sink=sw&killdc=1048576&win=16");
    assert_eq!(
        flag_summary(&params),
        "relay forced · sink=sw · killdc=1048576 · win=16 MiB"
    );
    assert_eq!(flag_summary(&parse_fragment("dev")), "");
}

#[test]
fn local_test_share_link_excludes_sender_frame_diagnostics() {
    assert_eq!(
        share_base_url("https://oxfer.pages.dev/?dcframe=64&theme=dark#ticket&cap=private"),
        "https://oxfer.pages.dev/?theme=dark"
    );
    assert_eq!(
        share_base_url("https://oxfer.pages.dev/?dcframe=64#private"),
        "https://oxfer.pages.dev/"
    );
    assert_eq!(
        share_base_url("https://oxfer.pages.dev/?tag=kept&d%63frame=64&other=also-kept#private"),
        "https://oxfer.pages.dev/?tag=kept&other=also-kept"
    );
    assert_eq!(
        share_base_url("https://oxfer.pages.dev/#private"),
        "https://oxfer.pages.dev/"
    );
}

#[test]
fn rebuild_url_keeps_unflagged_parts() {
    let parts = vec!["a=1".to_string(), "b=2".to_string(), "c=3".to_string()];
    assert_eq!(rebuild_url("p", &parts, &vec![false, true, false]), "p?a=1&c=3");
    assert_eq!(rebuild_url("p", &parts, &vec![true, true, true]), "p");
    assert_eq!(rebuild_url("p", &vec![], &vec![]), "p");
}
