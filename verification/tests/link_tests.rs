use p2p_transfer::node::{peer_fate, PEER_LINGER_MS};
use iroh_tickets::endpoint::EndpointTicket;
use p2p_transfer::node::{derive_cap, link, parse_fragment, parse_u64, FragmentParams, SinkPref};
use p2p_transfer::protocol::INITIAL_WINDOW;
use p2p_transfer::transfer::{ReceiveOptions, SenderOptions, RECONNECT_BACKOFF_MS};
use p2p_transfer::protocol::{cap_to_hex, CAP_LEN, MAX_WINDOW_MIB};

fn test_cap(seed: u8) -> [u8; CAP_LEN] {
    let mut cap = [0u8; CAP_LEN];
    for (i, b) in cap.iter_mut().enumerate() {
        *b = seed.wrapping_add(i as u8);
    }
    cap
}

/// A ticket for the Ed25519 base point with no transport addresses, read from its
/// postcard form.
fn test_ticket() -> EndpointTicket {
    let mut bytes = vec![0x58u8];
    bytes.extend(std::iter::repeat(0x66u8).take(31));
    bytes.push(0);
    postcard::from_bytes::<EndpointTicket>(&bytes).expect("a valid ticket")
}

fn fragment_of(link: &str) -> &str {
    link.split_once('#').expect("fragment").1
}

#[test]
fn local_test_ticket_link_roundtrip() {
    let ticket = test_ticket();
    let cap = test_cap(3);
    let link_text = link("https://syncoxiders.app/", &ticket, &cap, false);
    assert!(link_text.starts_with("https://syncoxiders.app/#"));
    assert!(link_text.contains("endpoint"));

    let fragment = fragment_of(&link_text);
    let params = parse_fragment(fragment);
    assert_eq!(params.ticket.as_ref(), Some(&ticket));
    assert_eq!(params.cap, Some(cap));
    assert!(!params.dev);
    assert_eq!(params.error, None);

    let relinked = link("https://syncoxiders.app/#stale", &ticket, &cap, false);
    assert_eq!(relinked, link_text);
}

#[test]
fn link_exact_text() {
    let ticket = test_ticket();
    let cap = test_cap(0);
    let expected = format!(
        "https://example.org/#dev&{}&cap=000102030405060708090a0b0c0d0e0f",
        ticket
    );
    assert_eq!(link("https://example.org/#old", &ticket, &cap, true), expected);
}

#[test]
fn local_test_fragment_dev_only() {
    let params = parse_fragment("dev");
    assert!(params.dev);
    assert!(params.ticket.is_none());
    assert!(params.cap.is_none());
    assert_eq!(params.error, None);
}

#[test]
fn local_test_fragment_dev_and_ticket() {
    let ticket = test_ticket();
    let cap = test_cap(9);
    let link_text = link("https://syncoxiders.app/", &ticket, &cap, true);
    let fragment = fragment_of(&link_text);
    assert!(fragment.starts_with("dev&"));

    let params = parse_fragment(fragment);
    assert!(params.dev);
    assert_eq!(params.ticket.as_ref(), Some(&ticket));
    assert_eq!(params.cap, Some(cap));

    let reordered = format!("#cap={}&{}&dev", cap_to_hex(&cap), ticket);
    let params = parse_fragment(&reordered);
    assert!(params.dev);
    assert_eq!(params.ticket.as_ref(), Some(&ticket));
    assert_eq!(params.cap, Some(cap));
}

#[test]
fn local_test_fragment_relay_flag() {
    let params = parse_fragment("relay&sink=sw&killdc=1048576&win=16");
    assert!(params.force_relay);
    assert_eq!(params.sink_pref, SinkPref::Sw);
    assert_eq!(params.kill_dc_after, Some(1024 * 1024));
    assert_eq!(params.window, Some(16 * 1024 * 1024));
    assert_eq!(params.error, None);

    assert_eq!(
        parse_fragment("win=9999").window,
        Some(MAX_WINDOW_MIB * 1024 * 1024)
    );
    assert_eq!(parse_fragment("win=0").window, Some(1024 * 1024));
    assert_eq!(parse_fragment("win=big").window, None);
    assert_eq!(parse_fragment("killdc=soon").kill_dc_after, None);
    assert_eq!(parse_fragment("sink=nope").sink_pref, SinkPref::Auto);
}

#[test]
fn local_test_fragment_garbage() {
    let params = parse_fragment("");
    assert_eq!(params, FragmentParams::default());

    let params = parse_fragment("&&nonsense&x=y&&");
    assert!(!params.dev);
    assert!(params.ticket.is_none());
    assert!(params.error.is_some());

    let params = parse_fragment("endpointnotreallyaticket");
    assert!(params.ticket.is_none());
    assert!(params.error.is_some());

    let params = parse_fragment("dev&relay&sink=mem");
    assert!(params.dev);
    assert!(params.ticket.is_none());
    assert_eq!(params.error, None);
}

#[test]
fn local_test_fragment_damaged_ticket() {
    let ticket = test_ticket().to_string();
    let damaged = &ticket[3..];
    let cap = test_cap(0xd1);

    for fragment in [
        damaged.to_string(),
        format!("{damaged}&cap={}", cap_to_hex(&cap)),
        format!("dev&{damaged}"),
    ] {
        let params = parse_fragment(&fragment);
        assert!(params.ticket.is_none(), "{fragment}");
        let error = params.error.expect("a damaged link must say so");
        assert!(error.contains("damaged"), "{error}");
        assert!(!error.contains(damaged), "the error echoed the link");
        assert!(
            !error.contains(&cap_to_hex(&cap)),
            "the error echoed the cap"
        );
    }

    let params = parse_fragment(&format!("cap={}", cap_to_hex(&cap)));
    let error = params.error.expect("an incomplete link must say so");
    assert!(error.contains("incomplete"), "{error}");
    assert!(
        !error.contains(&cap_to_hex(&cap)),
        "the error echoed the cap"
    );
}

#[test]
fn local_test_fragment_unknown_flag_with_ticket() {
    let ticket = test_ticket();
    let cap = test_cap(0xd2);
    let params = parse_fragment(&format!(
        "{ticket}&cap={}&future=1&whatever",
        cap_to_hex(&cap)
    ));
    assert_eq!(params.ticket.as_ref(), Some(&ticket));
    assert_eq!(params.cap, Some(cap));
    assert_eq!(params.error, None);
}

#[test]
fn local_test_fragment_cap() {
    let cap = test_cap(0xa0);
    let params = parse_fragment(&format!("cap={}", cap_to_hex(&cap)));
    assert_eq!(params.cap, Some(cap));
    assert!(params
        .error
        .as_deref()
        .is_some_and(|error| error.contains("incomplete")));

    let ticket = test_ticket();
    let params = parse_fragment(&format!("{ticket}&cap={}", cap_to_hex(&cap)));
    assert_eq!(params.cap, Some(cap));
    assert_eq!(params.ticket.as_ref(), Some(&ticket));
    assert_eq!(params.error, None);
}

#[test]
fn local_test_fragment_missing_cap() {
    let ticket = test_ticket();
    let params = parse_fragment(&ticket.to_string());
    assert_eq!(params.ticket.as_ref(), Some(&ticket));
    assert_eq!(params.cap, None);
    assert_eq!(params.error, None);
}

#[test]
fn local_test_fragment_bad_cap() {
    for bad in [
        "cap=",
        "cap=zz",
        "cap=0123",
        "cap=ABCDEF0123456789ABCDEF0123456789",
    ] {
        let params = parse_fragment(bad);
        assert_eq!(params.cap, None, "{bad}");
        assert!(params.error.is_some(), "{bad} must report an error");
    }
}

#[test]
fn parse_u64_reads_plain_decimal_digits() {
    let digits: Vec<char> = "1048576".chars().collect();
    assert_eq!(parse_u64(&digits), Some(1048576));
    let plus: Vec<char> = "+7".chars().collect();
    assert_eq!(parse_u64(&plus), Some(7));
    let max: Vec<char> = "18446744073709551615".chars().collect();
    assert_eq!(parse_u64(&max), Some(u64::MAX));
    let over: Vec<char> = "18446744073709551616".chars().collect();
    assert_eq!(parse_u64(&over), None);
    let empty: Vec<char> = Vec::new();
    assert_eq!(parse_u64(&empty), None);
    let letters: Vec<char> = "12a".chars().collect();
    assert_eq!(parse_u64(&letters), None);
}

#[test]
fn fragment_kill_and_window_exact_values() {
    let params = parse_fragment("killdc=0&win=64");
    assert_eq!(params.kill_dc_after, Some(0));
    assert_eq!(params.window, Some(64 * 1024 * 1024));
    assert_eq!(parse_fragment("sink=mem").sink_pref, SinkPref::Mem);
}

#[test]
fn cap_is_derived_from_the_secret() {
    let secret = [7u8; 32];
    let derived = blake3::derive_key("syncoxiders/p2p-transfer cap v1", &secret);
    assert_eq!(&derive_cap(&secret)[..], &derived[..16]);
    assert_ne!(derive_cap(&secret), derive_cap(&[8u8; 32]));
    assert_eq!(SenderOptions::new(derive_cap(&secret)).cap, derive_cap(&secret));
}

#[test]
fn receive_options_follow_the_fragment() {
    let options = ReceiveOptions::from_fragment(&parse_fragment("relay&sink=mem&win=2"));
    assert!(options.force_relay);
    assert_eq!(options.sink_pref, SinkPref::Mem);
    assert_eq!(options.initial_window, 2 * 1024 * 1024);
    assert_eq!(options.cap, None);
    let plain = ReceiveOptions::from_fragment(&parse_fragment(""));
    assert_eq!(plain.initial_window, INITIAL_WINDOW);
    assert_eq!(plain.reconnect_backoff_ms, RECONNECT_BACKOFF_MS);
    assert!(!plain.force_relay);
}

#[test]
fn peers_linger_after_finishing_then_go() {
    let gone = peer_fate(true, false, None, 10);
    assert!(!gone.keep);
    let running = peer_fate(false, false, None, 10);
    assert!(running.keep);
    assert_eq!(running.terminal_at, None);
    let first = peer_fate(false, true, None, 100);
    assert!(first.keep);
    assert_eq!(first.terminal_at, Some(100));
    assert!(peer_fate(false, true, Some(100), 100 + PEER_LINGER_MS).keep);
    assert!(!peer_fate(false, true, Some(100), 101 + PEER_LINGER_MS).keep);
}
