//! Share links: building them, and reading the URL fragment a receiver opens.

use vstd::prelude::*;
use crate::blob_store::{blake3_derive_key, derive_key};
use crate::hex::hex_encode_spec;
use crate::protocol::{cap_from_hex, cap_from_hex_spec, cap_to_hex, MAX_WINDOW_MIB};
use crate::text::{
    chars_of, find_char, first_pos, push_char, push_str, split_chars, split_on, string_of,
};
use vstd::string::StringSliceAdditionalSpecFns;
use vstd::utf8::encode_utf8;

verus! {

/// What the user is told when a fragment carried something unusable instead of a ticket.
pub open spec fn damaged_link() -> Seq<char> {
    "this link is damaged; ask the sender to copy it again"@
}

/// What the user is told when a fragment carried an access code but no ticket.
pub open spec fn incomplete_link() -> Seq<char> {
    "this link is incomplete; ask the sender for the full link"@
}

/// What the user is told when the access code of a fragment is unreadable.
pub open spec fn bad_access_code() -> Seq<char> {
    "bad access code"@
}

#[verifier::external_type_specification]
#[verifier::external_body]
pub struct ExEndpointTicket(iroh_tickets::endpoint::EndpointTicket);

/// Whether `iroh_tickets::endpoint::EndpointTicket::from_str` accepts `text`.
pub uninterp spec fn ticket_parses(text: Seq<char>) -> bool;

/// `EndpointTicket::from_str`: the ticket `text` stands for, or `None` when it is not one.
/// The contract claims only that success is a function of the text; which ticket comes back
/// is not stated.
#[verifier::external_body]
fn parse_ticket(text: &str) -> (r: Option<iroh_tickets::endpoint::EndpointTicket>)
    ensures
        r is Some <==> ticket_parses(text@),
{
    text.parse::<iroh_tickets::endpoint::EndpointTicket>().ok()
}

/// A lowercase digit of unpadded base32: `a` to `z` and `2` to `7`.
pub open spec fn base32_lower(c: char) -> bool {
    ('a' <= c && c <= 'z') || ('2' <= c && c <= '7')
}

/// The shape of a ticket's canonical text: `endpoint`, then lowercase base32 digits.
pub open spec fn ticket_shaped(t: Seq<char>) -> bool {
    &&& t.len() >= 8
    &&& t.take(8) == "endpoint"@
    &&& forall|i: int| 8 <= i < t.len() ==> base32_lower(#[trigger] t[i])
}

/// `EndpointTicket`'s `Display`, which writes `Ticket::encode_string`: the kind `endpoint`,
/// then the unpadded base32 of the ticket's bytes, all in lowercase. `FromStr`
/// (`Ticket::decode_string`) reads that text back, so it parses. Which digits are written is
/// not stated.
#[verifier::external_body]
fn ticket_text(ticket: &iroh_tickets::endpoint::EndpointTicket) -> (r: String)
    ensures
        ticket_shaped(r@),
        ticket_parses(r@),
{
    ticket.to_string()
}

/// The key-derivation context of a share's capability.
pub open spec fn cap_context() -> Seq<char> {
    "syncoxiders/p2p-transfer cap v1"@
}

/// A share's capability: the first 16 bytes of the BLAKE3 key derived from the node's secret
/// key in [`cap_context`], so it is unpredictable without the secret and stable for the node.
pub fn derive_cap(secret: &[u8; 32]) -> (r: [u8; 16])
    ensures
        r@ == blake3_derive_key(cap_context(), secret@).take(16),
{
    let derived = derive_key("syncoxiders/p2p-transfer cap v1", secret);
    let mut cap = [0u8; 16];
    let mut i: usize = 0;
    while i < 16
        invariant
            derived@ == blake3_derive_key(cap_context(), secret@),
            derived@.len() == 32,
            0 <= i <= 16,
            forall|j: int| 0 <= j < i ==> cap@[j] == derived@[j],
        decreases 16 - i,
    {
        cap[i] = derived[i];
        i = i + 1;
    }
    assert(cap@ =~= derived@.take(16));
    cap
}

/// Which receiver sink a test run wants. `Auto` is the product behaviour.
#[derive(Clone, Copy, Debug, PartialEq, Eq, Structural)]
pub enum SinkPref {
    Auto,
    Fsa,
    Sw,
    Mem,
}

/// Everything the URL fragment can carry.
#[derive(Clone, Debug, PartialEq)]
pub struct FragmentParams {
    pub dev: bool,
    pub force_relay: bool,
    pub sink_pref: SinkPref,
    pub kill_dc_after: Option<u64>,
    /// `win=<MiB>` in bytes.
    pub window: Option<u64>,
    /// The link's access code.
    pub cap: Option<[u8; 16]>,
    pub ticket: Option<iroh_tickets::endpoint::EndpointTicket>,
    pub error: Option<String>,
}

impl Default for FragmentParams {
    fn default() -> (r: FragmentParams)
        ensures
            r.as_model() == empty_model(),
    {
        FragmentParams {
            dev: false,
            force_relay: false,
            sink_pref: SinkPref::Auto,
            kill_dc_after: None,
            window: None,
            cap: None,
            ticket: None,
            error: None,
        }
    }
}

/// The plain values of [`FragmentParams`], and whether a token was not understood.
pub struct FragmentModel {
    pub dev: bool,
    pub force_relay: bool,
    pub sink_pref: SinkPref,
    pub kill_dc_after: Option<u64>,
    pub window: Option<u64>,
    pub cap: Option<Seq<u8>>,
    pub has_ticket: bool,
    pub error: Option<Seq<char>>,
    pub unrecognised: bool,
}

pub open spec fn empty_model() -> FragmentModel {
    FragmentModel {
        dev: false,
        force_relay: false,
        sink_pref: SinkPref::Auto,
        kill_dc_after: None,
        window: None,
        cap: None,
        has_ticket: false,
        error: None,
        unrecognised: false,
    }
}

impl FragmentParams {
    pub open spec fn as_model(&self) -> FragmentModel {
        FragmentModel {
            dev: self.dev,
            force_relay: self.force_relay,
            sink_pref: self.sink_pref,
            kill_dc_after: self.kill_dc_after,
            window: self.window,
            cap: match self.cap {
                Some(c) => Some(c@),
                None => None,
            },
            has_ticket: self.ticket is Some,
            error: match self.error {
                Some(e) => Some(e@),
                None => None,
            },
            unrecognised: false,
        }
    }
}

/// The value of a string of ASCII digits.
pub open spec fn digits_value(s: Seq<char>) -> nat
    decreases s.len(),
{
    if s.len() == 0 {
        0
    } else {
        digits_value(s.drop_last()) * 10 + ((s.last() as u32) - 48) as nat
    }
}

pub open spec fn is_digit(c: char) -> bool {
    '0' <= c && c <= '9'
}

/// What `u64::from_str` gives for `s`: an optional `+`, then at least one ASCII digit and
/// nothing else, of a value that fits.
pub open spec fn parse_u64_spec(s: Seq<char>) -> Option<u64> {
    if all_digits(strip_plus(s)) && digits_value(strip_plus(s)) <= u64::MAX {
        Some(digits_value(strip_plus(s)) as u64)
    } else {
        None
    }
}

/// `s` without one leading `+`.
pub open spec fn strip_plus(s: Seq<char>) -> Seq<char> {
    if s.len() > 0 && s[0] == '+' {
        s.drop_first()
    } else {
        s
    }
}

/// At least one character, and all of them ASCII digits.
pub open spec fn all_digits(ds: Seq<char>) -> bool {
    ds.len() > 0 && forall|i: int| 0 <= i < ds.len() ==> is_digit(#[trigger] ds[i])
}

proof fn lemma_digits_value_grows(s: Seq<char>, k: int)
    requires
        0 <= k <= s.len(),
        forall|i: int| 0 <= i < s.len() ==> is_digit(#[trigger] s[i]),
    ensures
        digits_value(s.take(k)) <= digits_value(s),
    decreases s.len() - k,
{
    if k < s.len() {
        lemma_digits_value_grows(s.drop_last(), k);
        assert(s.drop_last().take(k) =~= s.take(k));
        assert(digits_value(s) == digits_value(s.drop_last()) * 10 + ((s.last() as u32)
            - 48) as nat);
    } else {
        assert(s.take(k) =~= s);
    }
}

/// `u64::from_str` on the characters `s`.
pub fn parse_u64(s: &[char]) -> (r: Option<u64>)
    ensures
        r == parse_u64_spec(s@),
{
    let start: usize = if s.len() > 0 && s[0] == '+' {
        1
    } else {
        0
    };
    let ghost ds = strip_plus(s@);
    assert(ds =~= s@.skip(start as int));
    if start >= s.len() {
        return None;
    }
    let mut v: u64 = 0;
    let mut i: usize = start;
    while i < s.len()
        invariant
            start <= i <= s@.len(),
            ds == s@.skip(start as int),
            ds == strip_plus(s@),
            forall|j: int| 0 <= j < i - start ==> is_digit(#[trigger] ds[j]),
            v == digits_value(ds.take(i - start)),
        decreases s@.len() - i,
    {
        let c = s[i];
        assert(c == ds[i - start]);
        if !('0' <= c && c <= '9') {
            assert(!is_digit(ds[i - start]));
            return None;
        }
        let d = (c as u32 - 48) as u64;
        assert(ds.take(i - start + 1).drop_last() =~= ds.take(i - start));
        assert(ds.take(i - start + 1).last() == c);
        assert(digits_value(ds.take(i - start + 1)) == v * 10 + d);
        if v > (u64::MAX - d) / 10 {
            proof {
                assert(v * 10 + d > u64::MAX) by (nonlinear_arith)
                    requires
                        v > (u64::MAX - d) / 10,
                        d <= 9,
                ;
                if all_digits(ds) {
                    lemma_digits_value_grows(ds, i - start + 1);
                    assert(digits_value(ds) > u64::MAX);
                }
            }
            return None;
        }
        assert(v * 10 + d <= u64::MAX) by (nonlinear_arith)
            requires
                v <= (u64::MAX - d) / 10,
                d <= 9,
        ;
        v = v * 10 + d;
        i = i + 1;
    }
    assert(ds.take(i - start) =~= ds);
    Some(v)
}

/// Whether `t` starts with `p`.
pub open spec fn starts_with(t: Seq<char>, p: Seq<char>) -> bool {
    t.len() >= p.len() && t.take(p.len() as int) == p
}

/// `win=` in MiB, clamped to `1..=MAX_WINDOW_MIB`, as bytes.
pub open spec fn window_bytes(mib: u64) -> u64 {
    let m = if mib < 1 { 1 } else if mib > MAX_WINDOW_MIB { MAX_WINDOW_MIB } else { mib };
    (m * 1048576) as u64
}

/// The effect of one non-empty token on the fragment so far. Known flags set their field; an
/// unreadable access code records an error unless one is already there; a ticket is kept;
/// anything else is remembered as not understood.
pub open spec fn fragment_step(m: FragmentModel, t: Seq<char>) -> FragmentModel {
    if t == "dev"@ {
        FragmentModel { dev: true, ..m }
    } else if t == "relay"@ {
        FragmentModel { force_relay: true, ..m }
    } else if starts_with(t, "sink="@) {
        let v = t.skip("sink="@.len() as int);
        if v == "fsa"@ {
            FragmentModel { sink_pref: SinkPref::Fsa, ..m }
        } else if v == "sw"@ {
            FragmentModel { sink_pref: SinkPref::Sw, ..m }
        } else if v == "mem"@ {
            FragmentModel { sink_pref: SinkPref::Mem, ..m }
        } else {
            m
        }
    } else if starts_with(t, "killdc="@) {
        FragmentModel { kill_dc_after: parse_u64_spec(t.skip("killdc="@.len() as int)), ..m }
    } else if starts_with(t, "win="@) {
        FragmentModel {
            window: match parse_u64_spec(t.skip("win="@.len() as int)) {
                Some(mib) => Some(window_bytes(mib)),
                None => None,
            },
            ..m
        }
    } else if starts_with(t, "cap="@) {
        let cap = cap_from_hex_spec(encode_utf8(t.skip("cap="@.len() as int)));
        FragmentModel {
            cap,
            error: if cap is None && m.error is None {
                Some(bad_access_code())
            } else {
                m.error
            },
            ..m
        }
    } else if ticket_parses(t) {
        FragmentModel { has_ticket: true, ..m }
    } else {
        FragmentModel { unrecognised: true, ..m }
    }
}

/// The fragment after the tokens `ts`, in order; empty tokens are skipped.
pub open spec fn fragment_fold(m: FragmentModel, ts: Seq<Seq<char>>) -> FragmentModel
    decreases ts.len(),
{
    if ts.len() == 0 {
        m
    } else {
        let m2 = fragment_fold(m, ts.drop_last());
        if ts.last().len() == 0 {
            m2
        } else {
            fragment_step(m2, ts.last())
        }
    }
}

/// The fragment without one leading `#`.
pub open spec fn strip_hash(f: Seq<char>) -> Seq<char> {
    if f.len() > 0 && f[0] == '#' {
        f.drop_first()
    } else {
        f
    }
}

/// What a fragment says: the tokens between `&`, folded in order, and then, when no ticket
/// was found, an error for a link that is damaged (something was not understood) or
/// incomplete (an access code alone), unless an error is already there.
pub open spec fn fragment_spec(f: Seq<char>) -> FragmentModel {
    let m = fragment_fold(empty_model(), split_on(strip_hash(f), '&'));
    if !m.has_ticket && m.error is None && m.unrecognised {
        FragmentModel { error: Some(damaged_link()), ..m }
    } else if !m.has_ticket && m.error is None && m.cap is Some {
        FragmentModel { error: Some(incomplete_link()), ..m }
    } else {
        m
    }
}

/// Whether the characters `t` are exactly the text `lit`.
fn is_text(t: &[char], lit: &str) -> (r: bool)
    ensures
        r == (t@ == lit@),
{
    let l = chars_of(lit);
    if t.len() != l.len() {
        return false;
    }
    let mut i: usize = 0;
    while i < t.len()
        invariant
            t@.len() == l@.len(),
            l@ == lit@,
            i <= t@.len(),
            forall|j: int| 0 <= j < i ==> t@[j] == l@[j],
        decreases t@.len() - i,
    {
        if t[i] != l[i] {
            return false;
        }
        i = i + 1;
    }
    assert(t@ =~= l@);
    true
}

/// The rest of `t` after `prefix`, when `t` starts with it.
fn after_prefix(t: &[char], prefix: &str) -> (r: Option<Vec<char>>)
    ensures
        starts_with(t@, prefix@) <==> r is Some,
        r matches Some(v) ==> v@ == t@.skip(prefix@.len() as int),
{
    let p = chars_of(prefix);
    if t.len() < p.len() {
        return None;
    }
    let mut i: usize = 0;
    while i < p.len()
        invariant
            p@ == prefix@,
            p@.len() <= t@.len(),
            i <= p@.len(),
            forall|j: int| 0 <= j < i ==> t@[j] == p@[j],
        decreases p@.len() - i,
    {
        if t[i] != p[i] {
            assert(t@.take(p@.len() as int)[i as int] != p@[i as int]);
            return None;
        }
        i = i + 1;
    }
    assert(t@.take(p@.len() as int) =~= p@);
    let mut out: Vec<char> = Vec::new();
    let mut k = p.len();
    while k < t.len()
        invariant
            p@.len() <= k <= t@.len(),
            out@ == t@.subrange(p@.len() as int, k as int),
        decreases t@.len() - k,
    {
        out.push(t[k]);
        assert(out@ =~= t@.subrange(p@.len() as int, k + 1));
        k = k + 1;
    }
    assert(out@ =~= t@.skip(p@.len() as int));
    Some(out)
}

/// `win=` in MiB, clamped, as bytes.
fn window_of(mib: u64) -> (r: u64)
    ensures
        r == window_bytes(mib),
{
    let m = if mib < 1 {
        1
    } else if mib > MAX_WINDOW_MIB {
        MAX_WINDOW_MIB
    } else {
        mib
    };
    m * 1048576
}

/// Applies one non-empty token.
fn apply_token(params: &mut FragmentParams, unrecognised: &mut bool, t: &[char])
    ensures
        ({
            let before = (FragmentModel { unrecognised: *old(unrecognised), ..old(params).as_model() });
            let after = fragment_step(before, t@);
            &&& final(params).as_model() == (FragmentModel { unrecognised: false, ..after })
            &&& *final(unrecognised) == after.unrecognised
        }),
{
    if is_text(t, "dev") {
        params.dev = true;
    } else if is_text(t, "relay") {
        params.force_relay = true;
    } else if let Some(v) = after_prefix(t, "sink=") {
        if is_text(v.as_slice(), "fsa") {
            params.sink_pref = SinkPref::Fsa;
        } else if is_text(v.as_slice(), "sw") {
            params.sink_pref = SinkPref::Sw;
        } else if is_text(v.as_slice(), "mem") {
            params.sink_pref = SinkPref::Mem;
        }
    } else if let Some(v) = after_prefix(t, "killdc=") {
        params.kill_dc_after = parse_u64(v.as_slice());
    } else if let Some(v) = after_prefix(t, "win=") {
        params.window = match parse_u64(v.as_slice()) {
            Some(mib) => Some(window_of(mib)),
            None => None,
        };
    } else if let Some(v) = after_prefix(t, "cap=") {
        let text = string_of(v.as_slice());
        params.cap = cap_from_hex(text.as_str());
        if params.cap.is_none() && params.error.is_none() {
            params.error = Some("bad access code".to_owned());
        }
    } else {
        let text = string_of(t);
        match parse_ticket(text.as_str()) {
            Some(ticket) => {
                params.ticket = Some(ticket);
            },
            None => {
                *unrecognised = true;
            },
        }
    }
}

/// Reads a URL fragment, with or without its leading `#`. Tokens are separated by `&` and may
/// come in any order. Unknown tokens are ignored once a ticket parsed, so a link written by a
/// later version still opens; with no ticket, a token that is not understood makes the link
/// damaged, and an access code alone makes it incomplete. No error message repeats a token.
pub fn parse_fragment(fragment: &str) -> (r: FragmentParams)
    ensures
        r.as_model() == (FragmentModel { unrecognised: false, ..fragment_spec(fragment@) }),
{
    let cs = chars_of(fragment);
    let body: Vec<char> = if cs.len() > 0 && cs[0] == '#' {
        let mut out: Vec<char> = Vec::new();
        let mut k: usize = 1;
        while k < cs.len()
            invariant
                1 <= k <= cs@.len(),
                out@ == cs@.subrange(1, k as int),
            decreases cs@.len() - k,
        {
            out.push(cs[k]);
            assert(out@ =~= cs@.subrange(1, k + 1));
            k = k + 1;
        }
        assert(out@ =~= cs@.drop_first());
        out
    } else {
        cs
    };
    assert(body@ == strip_hash(fragment@));
    let tokens = split_chars(body.as_slice(), '&');
    let ghost ts = split_on(body@, '&');
    let mut params = FragmentParams::default();
    let mut unrecognised = false;
    let mut i: usize = 0;
    while i < tokens.len()
        invariant
            tokens@.len() == ts.len(),
            forall|j: int| 0 <= j < tokens@.len() ==> (#[trigger] tokens@[j])@ == ts[j],
            i <= tokens@.len(),
            (FragmentModel { unrecognised, ..params.as_model() }) == fragment_fold(
                empty_model(),
                ts.take(i as int),
            ),
        decreases tokens@.len() - i,
    {
        proof {
            assert(ts.take(i + 1).drop_last() =~= ts.take(i as int));
            assert(ts.take(i + 1).last() == ts[i as int]);
        }
        let t = &tokens[i];
        if t.len() > 0 {
            apply_token(&mut params, &mut unrecognised, t.as_slice());
        }
        i = i + 1;
    }
    assert(ts.take(i as int) =~= ts);
    if params.ticket.is_none() && params.error.is_none() {
        if unrecognised {
            params.error = Some("this link is damaged; ask the sender to copy it again".to_owned());
        } else if params.cap.is_some() {
            params.error = Some(
                "this link is incomplete; ask the sender for the full link".to_owned(),
            );
        }
    }
    params
}

/// The part of a URL before its first `#`.
pub open spec fn before_hash(url: Seq<char>) -> Seq<char> {
    url.take(first_pos(url, '#'))
}

/// The fragment of a share link: `dev&` when asked for, the ticket text `t`, and the
/// capability `cap` in hex.
pub open spec fn link_fragment(dev: bool, t: Seq<char>, cap: Seq<u8>) -> Seq<char> {
    (if dev {
        "dev&"@
    } else {
        Seq::<char>::empty()
    }) + t + "&cap="@ + hex_encode_spec(cap)
}

/// The text of a share link for `base_url`, the ticket text `t` and the capability `cap`.
pub open spec fn link_text(base_url: Seq<char>, dev: bool, t: Seq<char>, cap: Seq<u8>) -> Seq<char> {
    before_hash(base_url) + seq!['#'] + link_fragment(dev, t, cap)
}

/// A share link: `{base}#{dev&}{ticket}&cap={32 hex digits}`, where `base` is `base_url`
/// without any fragment it had. The ticket's text is what the ticket's `Display` writes.
pub fn link(base_url: &str, ticket: &iroh_tickets::endpoint::EndpointTicket, cap: &[u8; 16], dev: bool) -> (r: String)
    ensures
        exists|t: Seq<char>|
            ticket_shaped(t) && ticket_parses(t) && r@ == #[trigger] link_text(base_url@, dev, t, cap@),
{
    let cs = chars_of(base_url);
    let end = find_char(cs.as_slice(), '#');
    let mut base: Vec<char> = Vec::new();
    let mut i: usize = 0;
    while i < end
        invariant
            i <= end <= cs@.len(),
            base@ == cs@.take(i as int),
        decreases end - i,
    {
        base.push(cs[i]);
        assert(base@ =~= cs@.take(i + 1));
        i = i + 1;
    }
    let mut out = string_of(base.as_slice());
    push_char(&mut out, '#');
    if dev {
        push_str(&mut out, "dev&");
    }
    let t = ticket_text(ticket);
    push_str(&mut out, t.as_str());
    push_str(&mut out, "&cap=");
    let h = cap_to_hex(cap);
    push_str(&mut out, h.as_str());
    assert(out@ =~= link_text(base_url@, dev, t@, cap@));
    out
}


/// What a receiver reads from a complete share link.
pub open spec fn opened_link(dev: bool, cap: Seq<u8>) -> FragmentModel {
    FragmentModel {
        dev,
        force_relay: false,
        sink_pref: SinkPref::Auto,
        kill_dc_after: None,
        window: None,
        cap: Some(cap),
        has_ticket: true,
        error: None,
        unrecognised: false,
    }
}

proof fn lemma_no_char(s: Seq<char>, c: char)
    requires
        forall|i: int| 0 <= i < s.len() ==> s[i] != c,
    ensures
        !s.contains(c),
{
}

/// The capability's token of a link: `cap=` and its hex digits.
pub open spec fn cap_token(cap: Seq<u8>) -> Seq<char> {
    "cap="@ + hex_encode_spec(cap)
}

/// The tokens of a link's fragment, between its `&`s.
pub open spec fn link_tokens(dev: bool, t: Seq<char>, cap: Seq<u8>) -> Seq<Seq<char>> {
    if dev {
        seq!["dev"@, t, cap_token(cap)]
    } else {
        seq![t, cap_token(cap)]
    }
}

proof fn lemma_link_position(base_url: Seq<char>, dev: bool, t: Seq<char>, cap: Seq<u8>)
    ensures
        first_pos(link_text(base_url, dev, t, cap), '#') == before_hash(base_url).len(),
        link_text(base_url, dev, t, cap).skip(before_hash(base_url).len() as int + 1)
            == link_fragment(dev, t, cap),
{
    let base = before_hash(base_url);
    crate::text::lemma_first_pos_found(base_url, '#');
    assert(forall|j: int| 0 <= j < base.len() ==> base[j] != '#');
    let frag = link_fragment(dev, t, cap);
    let text = link_text(base_url, dev, t, cap);
    assert(text =~= base + seq!['#'] + frag);
    assert(forall|j: int| 0 <= j < base.len() ==> text[j] == base[j]);
    assert(text[base.len() as int] == '#');
    crate::text::lemma_first_pos(text, '#', base.len() as int);
    assert(text.skip(base.len() as int + 1) =~= frag);
}

proof fn lemma_link_tokens(dev: bool, t: Seq<char>, cap: Seq<u8>)
    requires
        ticket_shaped(t),
    ensures
        strip_hash(link_fragment(dev, t, cap)) == link_fragment(dev, t, cap),
        split_on(link_fragment(dev, t, cap), '&') == link_tokens(dev, t, cap),
{
    reveal_strlit("endpoint");
    reveal_strlit("dev&");
    reveal_strlit("&cap=");
    reveal_strlit("dev");
    reveal_strlit("cap=");
    let frag = link_fragment(dev, t, cap);
    let hex = hex_encode_spec(cap);
    let capt = cap_token(cap);
    assert forall|i: int| 0 <= i < capt.len() implies capt[i] != '&' by {
        if i >= 4 {
            let b = cap[(i - 4) / 2] as int;
            assert(0 <= b / 16 < 16 && 0 <= b % 16 < 16);
        }
    }
    assert forall|i: int| 0 <= i < t.len() implies t[i] != '&' by {
        if i < 8 {
            assert(t[i] == t.take(8)[i]);
        } else {
            assert(base32_lower(t[i]));
        }
    }
    lemma_no_char(t, '&');
    lemma_no_char(capt, '&');
    crate::text::lemma_split_on_plain(capt, '&');
    crate::text::lemma_split_on_join(t, '&', capt);
    let rest = t + seq!['&'] + capt;
    assert(t + "&cap="@ + hex =~= rest);
    if dev {
        assert(frag =~= "dev"@ + seq!['&'] + rest);
        lemma_no_char("dev"@, '&');
        crate::text::lemma_split_on_join("dev"@, '&', rest);
        assert(split_on(frag, '&') =~= link_tokens(dev, t, cap));
        assert(frag[0] == 'd');
    } else {
        assert(frag =~= rest);
        assert(split_on(frag, '&') =~= link_tokens(dev, t, cap));
        assert(frag[0] == t[0]);
        assert(t[0] == t.take(8)[0]);
    }
}

proof fn lemma_ticket_step(m: FragmentModel, t: Seq<char>)
    requires
        ticket_shaped(t),
        ticket_parses(t),
    ensures
        fragment_step(m, t) == (FragmentModel { has_ticket: true, ..m }),
{
    reveal_strlit("endpoint");
    reveal_strlit("dev");
    reveal_strlit("relay");
    reveal_strlit("sink=");
    reveal_strlit("killdc=");
    reveal_strlit("win=");
    reveal_strlit("cap=");
    assert(t[0] == 'e') by {
        assert(t[0] == t.take(8)[0]);
    }
    assert(t != "dev"@ && t != "relay"@);
    assert(t.take(5)[0] == 'e' && t.take(7)[0] == 'e' && t.take(4)[0] == 'e');
}

proof fn lemma_cap_step(m: FragmentModel, cap: Seq<u8>)
    requires
        cap.len() == 16,
    ensures
        fragment_step(m, cap_token(cap)) == (FragmentModel { cap: Some(cap), ..m }),
{
    reveal_strlit("dev");
    reveal_strlit("relay");
    reveal_strlit("sink=");
    reveal_strlit("killdc=");
    reveal_strlit("win=");
    reveal_strlit("cap=");
    let capt = cap_token(cap);
    crate::protocol::lemma_cap_roundtrip(cap);
    assert(capt.skip(4) =~= hex_encode_spec(cap));
    assert(capt.len() == 36);
    assert(capt != "dev"@ && capt != "relay"@);
    assert(capt.take(5)[0] == 'c' && capt.take(7)[0] == 'c' && capt.take(4)[0] == 'c');
    assert(capt.take(4) =~= "cap="@);
}

/// A share link opens as what it was made of: its fragment starts right after the first `#`,
/// and reading that fragment gives the ticket, the capability and the `dev` flag back, with no
/// error and no other flag.
#[verifier::spinoff_prover]
#[verifier::rlimit(40)]
pub proof fn lemma_link_roundtrip(base_url: Seq<char>, dev: bool, t: Seq<char>, cap: Seq<u8>)
    requires
        ticket_shaped(t),
        ticket_parses(t),
        cap.len() == 16,
    ensures
        first_pos(link_text(base_url, dev, t, cap), '#') == before_hash(base_url).len(),
        link_text(base_url, dev, t, cap).skip(before_hash(base_url).len() as int + 1)
            == link_fragment(dev, t, cap),
        fragment_spec(link_fragment(dev, t, cap)) == opened_link(dev, cap),
{
    reveal_strlit("dev");
    lemma_link_position(base_url, dev, t, cap);
    lemma_link_tokens(dev, t, cap);
    let tokens = link_tokens(dev, t, cap);
    let m0 = empty_model();
    let capt = cap_token(cap);
    assert(capt.len() > 0);
    assert(t.len() > 0);
    if dev {
        let m1 = fragment_step(m0, "dev"@);
        assert(m1 == FragmentModel { dev: true, ..m0 });
        lemma_ticket_step(m1, t);
        let m2 = fragment_step(m1, t);
        lemma_cap_step(m2, cap);
        assert(tokens.drop_last().drop_last().drop_last() =~= Seq::<Seq<char>>::empty());
        assert(tokens.drop_last().drop_last() =~= seq!["dev"@]);
        assert(tokens.drop_last() =~= seq!["dev"@, t]);
        assert(fragment_fold(m0, tokens.drop_last().drop_last().drop_last()) == m0);
        assert(fragment_fold(m0, tokens.drop_last().drop_last()) == m1);
        assert(fragment_fold(m0, tokens.drop_last()) == m2);
        assert(fragment_fold(m0, tokens) == opened_link(dev, cap));
    } else {
        lemma_ticket_step(m0, t);
        let m2 = fragment_step(m0, t);
        lemma_cap_step(m2, cap);
        assert(tokens.drop_last().drop_last() =~= Seq::<Seq<char>>::empty());
        assert(tokens.drop_last() =~= seq![t]);
        assert(fragment_fold(m0, tokens.drop_last().drop_last()) == m0);
        assert(fragment_fold(m0, tokens.drop_last()) == m2);
        assert(fragment_fold(m0, tokens) == opened_link(dev, cap));
    }
}

/// How long a peer whose session finished stays listed, in milliseconds.
pub const PEER_LINGER_MS: u64 = 30000;

/// What a snapshot of the peers does with one entry: whether it stays listed, and when its
/// session was first seen finished.
#[derive(Clone, Copy, Debug, PartialEq, Eq)]
pub struct PeerFate {
    pub keep: bool,
    pub terminal_at: Option<u64>,
}

/// One entry of a peer snapshot taken at `now_ms` (milliseconds of a monotonic clock): an
/// entry whose session is gone (`closed`) is dropped at once; a finished one (`terminal`) is
/// stamped the first time it is seen so, and dropped once that stamp is more than
/// [`PEER_LINGER_MS`] old; any other entry stays.
pub fn peer_fate(closed: bool, terminal: bool, terminal_at: Option<u64>, now_ms: u64) -> (r: PeerFate)
    ensures
        closed ==> !r.keep && r.terminal_at == terminal_at,
        !closed && !terminal ==> r.keep && r.terminal_at == terminal_at,
        !closed && terminal ==> ({
            let stamp = match terminal_at {
                Some(t) => t,
                None => now_ms,
            };
            &&& r.terminal_at == Some(stamp)
            &&& r.keep == !(now_ms >= stamp && now_ms - stamp > PEER_LINGER_MS)
        }),
{
    if closed {
        return PeerFate { keep: false, terminal_at };
    }
    if !terminal {
        return PeerFate { keep: true, terminal_at };
    }
    let stamp = match terminal_at {
        Some(t) => t,
        None => now_ms,
    };
    let expired = now_ms >= stamp && now_ms - stamp > PEER_LINGER_MS;
    PeerFate { keep: !expired, terminal_at: Some(stamp) }
}

} // verus!
