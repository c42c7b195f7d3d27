//! What the user interface decides without drawing anything: the build's identity, themes,
//! the one-Save-at-a-time rule, when the screen must stay awake, and the words for phases
//! and paths.

use vstd::prelude::*;
use crate::node::{FragmentParams, SinkPref};
use crate::text::{
    char_range, chars_of, decimal, decimal_string, find_char, first_pos, push_char, push_str,
    split_chars, split_on, string_of,
};
use crate::transfer::{Path, Phase};
use std::sync::Arc;
use std::sync::atomic::AtomicBool;

verus! {

/// The source revision this build was made from; `unknown` where no revision was recorded.
pub const BUILD_REVISION: &'static str = "unknown";
/// The commit date and time of [`BUILD_REVISION`]; `unknown` where none was recorded.
pub const BUILD_COMMITTED_AT: &'static str = "unknown";
/// The build's visible identity: `v{version} · {revision}`.
pub const BUILD_LABEL: &'static str = "v0.1.0 · unknown";

/// A display preference, independent of light and dark mode.
#[derive(Clone, Copy, Debug, PartialEq, Eq, Structural)]
pub enum Theme {
    Rusty,
    Clean,
}

impl Default for Theme {
    /// The clean theme, unless the user chose another.
    fn default() -> (r: Theme)
        ensures
            r == Theme::Clean,
    {
        Theme::Clean
    }
}

/// The text stored for a theme.
pub open spec fn theme_text(t: Theme) -> Seq<char> {
    match t {
        Theme::Rusty => "rusty"@,
        Theme::Clean => "clean"@,
    }
}

/// The theme a stored text names, if any.
pub open spec fn theme_named(s: Seq<char>) -> Option<Theme> {
    if s == "rusty"@ {
        Some(Theme::Rusty)
    } else if s == "clean"@ {
        Some(Theme::Clean)
    } else {
        None
    }
}

/// A stored theme reads back as itself.
pub proof fn lemma_theme_roundtrip(t: Theme)
    ensures
        theme_named(theme_text(t)) == Some(t),
{
    reveal_strlit("rusty");
    reveal_strlit("clean");
    assert("rusty"@[0] != "clean"@[0]);
}

impl Theme {
    /// The value stored for the theme.
    pub fn storage_value(self) -> (r: &'static str)
        ensures
            r@ == theme_text(self),
    {
        match self {
            Theme::Rusty => "rusty",
            Theme::Clean => "clean",
        }
    }

    /// The theme a stored value names, if any.
    pub fn from_storage_value(value: &str) -> (r: Option<Theme>)
        ensures
            r == theme_named(value@),
    {
        proof {
            reveal_strlit("rusty");
            reveal_strlit("clean");
            assert("rusty"@[0] != "clean"@[0]);
        }
        let v = value.to_owned();
        if v == "rusty".to_owned() {
            Some(Theme::Rusty)
        } else if v == "clean".to_owned() {
            Some(Theme::Clean)
        } else {
            None
        }
    }
}

/// One file this node received and saved, as the interface lists it.
#[derive(Clone, Debug)]
pub struct ReceivedFile {
    pub name: String,
    pub size: u64,
    pub location: String,
    pub when: String,
    pub path: Path,
}

/// `AtomicBool::swap(true, AcqRel)`: marks the flag set and returns whether it already was.
/// Another thread may change the flag at any time, so nothing is stated of the result.
#[verifier::external_body]
fn claim_flag(flag: &Arc<AtomicBool>) -> (was_set: bool) {
    flag.swap(true, std::sync::atomic::Ordering::AcqRel)
}

/// `AtomicBool::store(false, Release)`, which cannot fail.
#[verifier::external_body]
fn clear_flag(flag: &Arc<AtomicBool>)
    opens_invariants none
    no_unwind
{
    flag.store(false, std::sync::atomic::Ordering::Release)
}

/// One choice of destinations per receive session. Dropping an attempt that was not
/// submitted (the picker failed or was dismissed) allows a retry; a submitted one keeps the
/// session's flag set until the engine moves on.
pub struct SaveAttempt {
    pending: Arc<AtomicBool>,
    submitted: bool,
}

impl SaveAttempt {
    pub closed spec fn is_submitted(&self) -> bool {
        self.submitted
    }

    pub closed spec fn flag(&self) -> Arc<AtomicBool> {
        self.pending
    }

    /// Starts an attempt on the session's `pending` flag, or `None` while another attempt
    /// holds it.
    pub fn begin(pending: &Arc<AtomicBool>) -> (r: Option<SaveAttempt>)
        ensures
            r matches Some(a) ==> !a.is_submitted() && a.flag() == *pending,
    {
        if claim_flag(pending) {
            return None;
        }
        Some(SaveAttempt { pending: pending.clone(), submitted: false })
    }

    /// The destinations were handed to the engine: the flag stays set.
    pub fn submitted(self) {
        let mut a = self;
        a.submitted = true;
    }
}

impl Drop for SaveAttempt {
    fn drop(&mut self)
        opens_invariants none
        no_unwind
    {
        if !self.submitted {
            clear_flag(&self.pending);
        }
    }
}

/// Whether a receive keeps the screen awake: while its link is being opened, or while its
/// session runs, except while it merely waits at the Save prompt with no Save in progress.
pub open spec fn wake_lock_spec(opening: bool, save_pending: bool, phase: Option<Phase>) -> bool {
    opening || match phase {
        Some(p) => !(p is Complete || p is Failed || p is Cancelled) && (save_pending
            || !(p is AwaitingSave)),
        None => false,
    }
}

pub fn receive_needs_wake_lock(opening: bool, save_pending: bool, phase: Option<&Phase>) -> (r: bool)
    ensures
        r == wake_lock_spec(opening, save_pending, match phase {
            Some(p) => Some(*p),
            None => None,
        }),
{
    if opening {
        return true;
    }
    match phase {
        Some(p) => {
            let waiting = match p {
                Phase::AwaitingSave { .. } => true,
                _ => false,
            };
            !p.is_terminal() && (save_pending || !waiting)
        },
        None => false,
    }
}

/// The words for a path.
pub fn transfer_path_text(path: Path) -> (r: &'static str)
    ensures
        path == Path::Direct ==> r@ == "Direct connection"@,
        path == Path::Relayed ==> r@ == "Encrypted via a helper server"@,
        path == Path::Unknown ==> r@ == "Connecting"@,
{
    match path {
        Path::Direct => "Direct connection",
        Path::Relayed => "Encrypted via a helper server",
        Path::Unknown => "Connecting",
    }
}

/// The badge of a transfer: while reconnecting or signalling it never names the old path.
pub fn path_badge(phase: &Phase, path: Path) -> (r: &'static str)
    ensures
        *phase is Reconnecting ==> r@ == "Connecting again"@,
        *phase is Signaling ==> r@ == "Finding a connection"@,
        !(*phase is Reconnecting) && !(*phase is Signaling) ==> r@ == transfer_path_text_spec(
            path,
        ),
{
    match phase {
        Phase::Reconnecting { .. } => "Connecting again",
        Phase::Signaling => "Finding a connection",
        _ => transfer_path_text(path),
    }
}

pub open spec fn transfer_path_text_spec(path: Path) -> Seq<char> {
    match path {
        Path::Direct => "Direct connection"@,
        Path::Relayed => "Encrypted via a helper server"@,
        Path::Unknown => "Connecting"@,
    }
}

/// The words for a phase.
pub fn phase_text(phase: &Phase) -> (r: &'static str)
    ensures
        r@ == match *phase {
            Phase::Connecting => "Connecting…"@,
            Phase::Reconnecting { .. } => "Connecting again…"@,
            Phase::Handshake => "Checking the link…"@,
            Phase::AwaitingSave { .. } => "Ready: choose where to save"@,
            Phase::Signaling => "Finding a connection…"@,
            Phase::Transferring => "Transfer in progress…"@,
            Phase::Switching => "Trying another connection…"@,
            Phase::Verifying => "Checking the file…"@,
            Phase::Complete { .. } => "Transfer complete and checked"@,
            Phase::Failed => "Failed"@,
            Phase::Cancelled => "Cancelled"@,
        },
{
    match phase {
        Phase::Connecting => "Connecting…",
        Phase::Reconnecting { .. } => "Connecting again…",
        Phase::Handshake => "Checking the link…",
        Phase::AwaitingSave { .. } => "Ready: choose where to save",
        Phase::Signaling => "Finding a connection…",
        Phase::Transferring => "Transfer in progress…",
        Phase::Switching => "Trying another connection…",
        Phase::Verifying => "Checking the file…",
        Phase::Complete { .. } => "Transfer complete and checked",
        Phase::Failed => "Failed",
        Phase::Cancelled => "Cancelled",
    }
}

/// Whether `needle` occurs in `hay`.
pub open spec fn contains_text(hay: Seq<char>, needle: Seq<char>) -> bool {
    exists|i: int| 0 <= i <= hay.len() - needle.len() && #[trigger] hay.subrange(i, i + needle.len()) == needle
}

/// Whether `needle` occurs in `hay`, as `str::contains` answers.
pub fn contains(hay: &str, needle: &str) -> (r: bool)
    ensures
        r == contains_text(hay@, needle@),
{
    let h = chars_of(hay);
    let n = chars_of(needle);
    if n.len() > h.len() {
        return false;
    }
    let mut i: usize = 0;
    while i <= h.len() - n.len()
        invariant
            h@ == hay@,
            n@ == needle@,
            n@.len() <= h@.len(),
            i <= h@.len() - n@.len() + 1,
            forall|k: int| 0 <= k < i ==> #[trigger] h@.subrange(k, k + n@.len()) != n@,
        decreases h@.len() - n@.len() + 1 - i,
    {
        let mut j: usize = 0;
        let mut same = true;
        while j < n.len()
            invariant
                h@ == hay@,
                n@ == needle@,
                i + n@.len() <= h@.len(),
                h@.len() <= usize::MAX,
                j <= n@.len(),
                same == (forall|m: int| 0 <= m < j ==> h@[i + m] == n@[m]),
            decreases n@.len() - j,
        {
            if h[i + j] != n[j] {
                same = false;
            }
            j = j + 1;
        }
        if same {
            assert(h@.subrange(i as int, i + n@.len()) =~= n@);
            return true;
        }
        assert(h@.subrange(i as int, i + n@.len())[j - 1] != n@[j - 1] || exists|m: int|
            0 <= m < n@.len() && h@[i + m] != n@[m]);
        proof {
            let m = choose|m: int| 0 <= m < n@.len() && h@[i + m] != n@[m];
            assert(h@.subrange(i as int, i + n@.len())[m] != n@[m]);
        }
        i = i + 1;
    }
    proof {
        assert forall|k: int| 0 <= k <= hay@.len() - needle@.len() implies #[trigger] hay@.subrange(
            k,
            k + needle@.len(),
        ) != needle@ by {
            assert(h@.subrange(k, k + n@.len()) != n@);
        }
    }
    false
}

/// What a receiver is told when the link carries no access code.
pub open spec fn missing_cap_text() -> Seq<char> {
    "this link is missing its access code; ask the sender for the full link"@
}

/// What a receiver is told when the sender rejected the access code.
pub open spec fn cap_rejected_text() -> Seq<char> {
    "this link is not valid for these files. Ask the sender for a fresh link — the old one stops working when they restart sharing."@
}

/// An engine error in words a user can act on: anything about a missing access code, or
/// about the access code at all, gets the sentence for that case.
pub fn humanize(error: &str) -> (r: String)
    ensures
        contains_text(error@, "access code is missing"@) ==> r@ == missing_cap_text(),
        !contains_text(error@, "access code is missing"@) && contains_text(error@, "access code"@)
            ==> r@ == cap_rejected_text(),
        !contains_text(error@, "access code"@) && !contains_text(error@, "access code is missing"@)
            ==> r@ == error@,
{
    if contains(error, "access code is missing") {
        "this link is missing its access code; ask the sender for the full link".to_owned()
    } else if contains(error, "access code") {
        "this link is not valid for these files. Ask the sender for a fresh link — the old one stops working when they restart sharing.".to_owned()
    } else {
        error.to_owned()
    }
}

/// The test flags a receive runs with, joined by ` · `; empty for a plain run.
pub fn flag_summary(params: &FragmentParams) -> (r: String)
    ensures
        ({
            let parts = flag_parts(params.force_relay, params.sink_pref, params.kill_dc_after, params.window);
            r@ == join_parts(parts)
        }),
{
    let mut parts: Vec<String> = Vec::new();
    if params.force_relay {
        parts.push("relay forced".to_owned());
    }
    match params.sink_pref {
        SinkPref::Auto => {},
        SinkPref::Fsa => parts.push("sink=fsa".to_owned()),
        SinkPref::Sw => parts.push("sink=sw".to_owned()),
        SinkPref::Mem => parts.push("sink=mem".to_owned()),
    }
    if let Some(n) = params.kill_dc_after {
        let mut s = "killdc=".to_owned();
        let d = decimal_string(n);
        push_str(&mut s, d.as_str());
        parts.push(s);
    }
    if let Some(bytes) = params.window {
        let mut s = "win=".to_owned();
        let d = decimal_string(bytes / 1048576);
        push_str(&mut s, d.as_str());
        push_str(&mut s, " MiB");
        parts.push(s);
    }
    let ghost want = flag_parts(params.force_relay, params.sink_pref, params.kill_dc_after, params.window);
    assert(parts@.len() == want.len());
    assert(forall|i: int| 0 <= i < parts@.len() ==> (#[trigger] parts@[i])@ == want[i]);
    let mut out = String::new();
    let mut i: usize = 0;
    while i < parts.len()
        invariant
            i <= parts@.len(),
            parts@.len() == want.len(),
            forall|k: int| 0 <= k < parts@.len() ==> (#[trigger] parts@[k])@ == want[k],
            out@ == join_parts(want.take(i as int)),
        decreases parts@.len() - i,
    {
        if i > 0 {
            push_str(&mut out, " · ");
        }
        push_str(&mut out, parts[i].as_str());
        proof {
            assert(want.take(i + 1).drop_last() =~= want.take(i as int));
        }
        i = i + 1;
    }
    assert(want.take(i as int) =~= want);
    out
}

/// The flags, in order: the forced relay, the sink, the channel kill point, the window.
pub open spec fn flag_parts(force_relay: bool, sink: SinkPref, kill: Option<u64>, window: Option<u64>) -> Seq<Seq<char>> {
    let a = if force_relay { seq!["relay forced"@] } else { seq![] };
    let b = match sink {
        SinkPref::Auto => seq![],
        SinkPref::Fsa => seq!["sink=fsa"@],
        SinkPref::Sw => seq!["sink=sw"@],
        SinkPref::Mem => seq!["sink=mem"@],
    };
    let c = match kill {
        Some(n) => seq!["killdc="@ + decimal(n as nat)],
        None => seq![],
    };
    let d = match window {
        Some(w) => seq!["win="@ + decimal((w / 1048576) as nat) + " MiB"@],
        None => seq![],
    };
    a + b + c + d
}

/// `parts` joined by ` · `.
pub open spec fn join_parts(parts: Seq<Seq<char>>) -> Seq<char>
    decreases parts.len(),
{
    if parts.len() == 0 {
        seq![]
    } else if parts.len() == 1 {
        parts[0]
    } else {
        join_parts(parts.drop_last()) + " · "@ + parts.last()
    }
}


/// What `url::form_urlencoded::parse` gives as the names of the pairs of `input`, decoded.
pub uninterp spec fn form_decoded_keys(input: Seq<char>) -> Seq<Seq<char>>;

/// `url::form_urlencoded::parse` of `part`, keeping each pair's decoded name. The names are
/// not written out: `+` becomes a space, `%xx` escapes are decoded, and invalid UTF-8 is
/// replaced.
#[verifier::external_body]
fn form_keys(part: &str) -> (r: Vec<String>)
    ensures
        r@.map_values(|k: String| k@) == form_decoded_keys(part@),
{
    url::form_urlencoded::parse(part.as_bytes()).map(|(k, _)| k.into_owned()).collect()
}

/// The query parameter of the sender's frame-size diagnostics, which a share link must not
/// pass on.
pub open spec fn frame_diagnostics_key() -> Seq<char> {
    "dcframe"@
}

/// Whether a query part names the frame-size diagnostics, once decoded.
pub open spec fn names_frame_diagnostics(part: Seq<char>) -> bool {
    form_decoded_keys(part).contains(frame_diagnostics_key())
}

/// `parts` joined by `&`.
pub open spec fn join_amp(parts: Seq<Seq<char>>) -> Seq<char>
    decreases parts.len(),
{
    if parts.len() == 0 {
        seq![]
    } else if parts.len() == 1 {
        parts[0]
    } else {
        join_amp(parts.drop_last()) + seq!['&'] + parts.last()
    }
}

/// The parts of `parts` whose flag in `drop` is not set, in order.
pub open spec fn kept_parts(parts: Seq<Seq<char>>, drop: Seq<bool>) -> Seq<Seq<char>>
    decreases parts.len(),
{
    if parts.len() == 0 {
        seq![]
    } else {
        kept_parts(parts.drop_last(), drop.take(parts.len() - 1)) + if drop[parts.len() - 1] {
            Seq::<Seq<char>>::empty()
        } else {
            seq![parts.last()]
        }
    }
}

/// `path`, then `?` and the kept parts joined by `&`, when any part is kept.
pub open spec fn rebuilt_url(path: Seq<char>, parts: Seq<Seq<char>>, drop: Seq<bool>) -> Seq<char> {
    let kept = kept_parts(parts, drop);
    if kept.len() == 0 {
        path
    } else {
        path + seq!['?'] + join_amp(kept)
    }
}

/// The base of a share link for the page at `href`: the page without its fragment, and
/// without the query parts that name the frame-size diagnostics.
pub open spec fn share_base_spec(href: Seq<char>) -> Seq<char> {
    let page = href.take(first_pos(href, '#'));
    let q = first_pos(page, '?');
    if q == page.len() {
        page
    } else {
        let parts = split_on(page.skip(q + 1), '&');
        rebuilt_url(
            page.take(q),
            parts,
            Seq::new(parts.len(), |i: int| names_frame_diagnostics(parts[i])),
        )
    }
}

/// Puts a URL back together from its path and query parts, leaving out every part whose
/// flag in `drop` is set; with no part left, the URL has no query at all.
pub fn rebuild_url(path: &str, parts: &Vec<String>, drop: &Vec<bool>) -> (r: String)
    requires
        parts@.len() == drop@.len(),
    ensures
        r@ == rebuilt_url(path@, parts@.map_values(|p: String| p@), drop@),
{
    let ghost views = parts@.map_values(|p: String| p@);
    let mut kept: Vec<&String> = Vec::new();
    let mut i: usize = 0;
    while i < parts.len()
        invariant
            parts@.len() == drop@.len(),
            views == parts@.map_values(|p: String| p@),
            i <= parts@.len(),
            kept@.map_values(|p: &String| p@) == kept_parts(views.take(i as int), drop@.take(i as int)),
        decreases parts@.len() - i,
    {
        proof {
            assert(views.take(i + 1).drop_last() =~= views.take(i as int));
            assert(drop@.take(i + 1).take(i as int) =~= drop@.take(i as int));
            assert(views.take(i + 1).last() == parts@[i as int]@);
        }
        if !drop[i] {
            kept.push(&parts[i]);
            assert(kept@.map_values(|p: &String| p@) =~= kept_parts(views.take(i + 1), drop@.take(i + 1)));
        } else {
            assert(kept@.map_values(|p: &String| p@) =~= kept_parts(views.take(i + 1), drop@.take(i + 1)));
        }
        i = i + 1;
    }
    assert(views.take(i as int) =~= views);
    assert(drop@.take(i as int) =~= drop@);
    let ghost want = kept_parts(views, drop@);
    let mut out = path.to_owned();
    if kept.len() == 0 {
        return out;
    }
    push_char(&mut out, '?');
    let ghost head = out@;
    let mut k: usize = 0;
    while k < kept.len()
        invariant
            kept@.len() > 0,
            want == kept@.map_values(|p: &String| p@),
            k <= kept@.len(),
            k == 0 ==> out@ == head,
            k > 0 ==> out@ == head + join_amp(want.take(k as int)),
        decreases kept@.len() - k,
    {
        if k > 0 {
            push_char(&mut out, '&');
        }
        push_str(&mut out, kept[k].as_str());
        proof {
            assert(want.take(k + 1).drop_last() =~= want.take(k as int));
            assert(want.take(k + 1).last() == kept@[k as int]@);
            if k == 0 {
                assert(want.take(1) =~= seq![kept@[0]@]);
            }
        }
        k = k + 1;
    }
    assert(want.take(k as int) =~= want);
    out
}

/// Whether the decoded names of a query part include the frame-size diagnostics.
fn part_names_frame_diagnostics(part: &str) -> (r: bool)
    ensures
        r == names_frame_diagnostics(part@),
{
    let keys = form_keys(part);
    let ghost views = keys@.map_values(|k: String| k@);
    let target = "dcframe".to_owned();
    let mut i: usize = 0;
    while i < keys.len()
        invariant
            views == keys@.map_values(|k: String| k@),
            views == form_decoded_keys(part@),
            target@ == frame_diagnostics_key(),
            i <= keys@.len(),
            forall|j: int| 0 <= j < i ==> views[j] != frame_diagnostics_key(),
        decreases keys@.len() - i,
    {
        if keys[i] == target {
            assert(views[i as int] == frame_diagnostics_key());
            return true;
        }
        i = i + 1;
    }
    proof {
        if views.contains(frame_diagnostics_key()) {
            let j = choose|j: int| 0 <= j < views.len() && views[j] == frame_diagnostics_key();
            assert(views[j] != frame_diagnostics_key());
        }
    }
    false
}

/// The base of a share link for the page at `href`: the page without its fragment, and
/// without the query parts that, once decoded, name the sender's frame-size diagnostics
/// (`dcframe`), so that a receiver never inherits the sender's test setting.
pub fn share_base_url(href: &str) -> (r: String)
    ensures
        r@ == share_base_spec(href@),
{
    let cs = chars_of(href);
    let hash = find_char(cs.as_slice(), '#');
    let page = char_range(cs.as_slice(), 0, hash);
    assert(page@ =~= href@.take(first_pos(href@, '#')));
    let q = find_char(page.as_slice(), '?');
    if q == page.len() {
        return string_of(page.as_slice());
    }
    let path = string_of(char_range(page.as_slice(), 0, q).as_slice());
    let query = char_range(page.as_slice(), q + 1, page.len());
    assert(query@ =~= page@.skip(q + 1));
    let pieces = split_chars(query.as_slice(), '&');
    let ghost split = split_on(page@.skip(q + 1), '&');
    let mut parts: Vec<String> = Vec::new();
    let mut drop: Vec<bool> = Vec::new();
    let mut i: usize = 0;
    while i < pieces.len()
        invariant
            pieces@.len() == split.len(),
            forall|j: int| 0 <= j < pieces@.len() ==> (#[trigger] pieces@[j])@ == split[j],
            i <= pieces@.len(),
            parts@.len() == i,
            drop@.len() == i,
            forall|j: int| 0 <= j < i ==> (#[trigger] parts@[j])@ == split[j],
            forall|j: int| 0 <= j < i ==> #[trigger] drop@[j] == names_frame_diagnostics(split[j]),
        decreases pieces@.len() - i,
    {
        let part = string_of(pieces[i].as_slice());
        let d = part_names_frame_diagnostics(part.as_str());
        parts.push(part);
        drop.push(d);
        i = i + 1;
    }
    let r = rebuild_url(path.as_str(), &parts, &drop);
    proof {
        assert(parts@.map_values(|p: String| p@) =~= split);
        assert(drop@ =~= Seq::new(split.len(), |j: int| names_frame_diagnostics(split[j])));
        assert(path@ =~= page@.take(q as int));
    }
    r
}

} // verus!
