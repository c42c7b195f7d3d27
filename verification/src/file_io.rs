//! Sources and sinks: the checks and names that stand around reading and writing file bytes.

use vstd::prelude::*;
use crate::blob_store::{
    blake3_derive_key, blake3_hash, derive_key, hasher_finalize, hasher_input, hasher_new,
    hasher_regular, hasher_update, BlobHash,
};
use crate::hex::{self, hex_encode_spec};
use crate::node::SinkPref;
use crate::protocol::FileMeta;
use crate::text::{
    append, chars_of, decimal, decimal_string, le_bytes, lemma_decimal_len, pow10, push_char,
    push_str, string_of, u64_le_bytes,
};
use vstd::string::StringSliceAdditionalSpecFns;
use vstd::utf8::encode_utf8;

verus! {

/// Longest name, in UTF-8 bytes, ever handed to a filesystem or a download.
pub const MAX_NAME_BYTES: usize = 255;
/// Upper bound of a single source read.
pub const MAX_SOURCE_READ: usize = 4194304;

/// The number of bytes `c` takes in UTF-8.
pub open spec fn utf8_width(c: char) -> nat {
    if (c as u32) < 0x80 {
        1
    } else if (c as u32) < 0x800 {
        2
    } else if (c as u32) < 0x10000 {
        3
    } else {
        4
    }
}

/// The number of bytes `s` takes in UTF-8.
pub open spec fn utf8_len(s: Seq<char>) -> nat
    decreases s.len(),
{
    if s.len() == 0 {
        0
    } else {
        utf8_len(s.drop_last()) + utf8_width(s.last())
    }
}

fn char_width(c: char) -> (r: usize)
    ensures
        r == utf8_width(c),
{
    let v = c as u32;
    if v < 0x80 {
        1
    } else if v < 0x800 {
        2
    } else if v < 0x10000 {
        3
    } else {
        4
    }
}

/// A path separator of either platform.
pub open spec fn is_separator(c: char) -> bool {
    c == '/' || c == '\\'
}

/// `char::is_control`: the Unicode `Cc` category.
pub open spec fn is_control_char(c: char) -> bool {
    (c as u32) <= 0x1f || (0x7f <= (c as u32) && (c as u32) <= 0x9f)
}

/// Characters that Windows refuses in a file name.
pub open spec fn is_reserved_char(c: char) -> bool {
    c == '<' || c == '>' || c == ':' || c == '"' || c == '|' || c == '?' || c == '*'
}

/// Unicode `White_Space` outside the control characters, as `str::trim` removes it.
pub open spec fn is_white_space(c: char) -> bool {
    let v = c as u32;
    v == 0x20 || v == 0xa0 || v == 0x1680 || (0x2000 <= v && v <= 0x200a) || v == 0x2028 || v
        == 0x2029 || v == 0x202f || v == 0x205f || v == 0x3000 || (0x09 <= v && v <= 0x0d) || v
        == 0x85
}

/// What follows the last separator of `s`.
pub open spec fn base_name(s: Seq<char>) -> Seq<char>
    decreases s.len(),
{
    if s.len() == 0 {
        seq![]
    } else if is_separator(s.last()) {
        seq![]
    } else {
        base_name(s.drop_last()).push(s.last())
    }
}

/// `s` without control characters, with each reserved character replaced by `_`.
pub open spec fn clean_chars(s: Seq<char>) -> Seq<char>
    decreases s.len(),
{
    if s.len() == 0 {
        seq![]
    } else {
        let rest = clean_chars(s.drop_last());
        let c = s.last();
        if is_control_char(c) {
            rest
        } else if is_reserved_char(c) {
            rest.push('_')
        } else {
            rest.push(c)
        }
    }
}

/// `s` without leading white space.
pub open spec fn trim_start_ws(s: Seq<char>) -> Seq<char>
    decreases s.len(),
{
    if s.len() > 0 && is_white_space(s[0]) {
        trim_start_ws(s.drop_first())
    } else {
        s
    }
}

/// `s` without trailing white space, dots or spaces.
pub open spec fn trim_end_name(s: Seq<char>) -> Seq<char>
    decreases s.len(),
{
    if s.len() > 0 && (is_white_space(s.last()) || s.last() == '.') {
        trim_end_name(s.drop_last())
    } else {
        s
    }
}

/// ASCII upper-casing of one character.
pub open spec fn upper_ascii(c: char) -> char {
    if 'a' <= c && c <= 'z' {
        ((c as u32) - 32) as char
    } else {
        c
    }
}

/// The part of a name before its first dot.
pub open spec fn stem(s: Seq<char>) -> Seq<char>
    decreases s.len(),
{
    if s.len() == 0 {
        seq![]
    } else if s[0] == '.' {
        seq![]
    } else {
        seq![s[0]] + stem(s.drop_first())
    }
}

/// Whether `stem` (upper-cased) is a Windows device name: CON, PRN, AUX, NUL, COM1-9, LPT1-9.
pub open spec fn is_device_stem(stem: Seq<char>) -> bool {
    let u = stem.map_values(|c: char| upper_ascii(c));
    u == seq!['C', 'O', 'N'] || u == seq!['P', 'R', 'N'] || u == seq!['A', 'U', 'X'] || u
        == seq!['N', 'U', 'L'] || (u.len() == 4 && ((u[0] == 'C' && u[1] == 'O' && u[2] == 'M')
        || (u[0] == 'L' && u[1] == 'P' && u[2] == 'T')) && '1' <= u[3] && u[3] <= '9')
}

/// The longest prefix of `s` that fits in `budget` UTF-8 bytes.
pub open spec fn take_utf8(s: Seq<char>, budget: nat) -> Seq<char>
    decreases s.len(),
{
    if s.len() == 0 || utf8_width(s[0]) > budget {
        seq![]
    } else {
        seq![s[0]] + take_utf8(s.drop_first(), (budget - utf8_width(s[0])) as nat)
    }
}

/// The fallback name, `file.bin`.
pub open spec fn fallback_name() -> Seq<char> {
    seq!['f', 'i', 'l', 'e', '.', 'b', 'i', 'n']
}

/// The safe name for a peer-supplied `name`.
pub open spec fn sanitized(name: Seq<char>) -> Seq<char> {
    let cleaned = trim_end_name(trim_start_ws(clean_chars(base_name(name))));
    if cleaned.len() == 0 || cleaned == seq!['.'] || cleaned == seq!['.', '.'] || is_device_stem(
        stem(cleaned),
    ) {
        fallback_name()
    } else {
        take_utf8(cleaned, MAX_NAME_BYTES as nat)
    }
}

fn base_name_of(s: &[char]) -> (r: Vec<char>)
    ensures
        r@ == base_name(s@),
{
    let mut out: Vec<char> = Vec::new();
    let mut i: usize = 0;
    while i < s.len()
        invariant
            i <= s@.len(),
            out@ == base_name(s@.take(i as int)),
        decreases s@.len() - i,
    {
        assert(s@.take(i + 1).drop_last() =~= s@.take(i as int));
        let c = s[i];
        if c == '/' || c == '\\' {
            out = Vec::new();
            assert(out@ =~= base_name(s@.take(i + 1)));
        } else {
            out.push(c);
        }
        i = i + 1;
    }
    assert(s@.take(i as int) =~= s@);
    out
}

fn clean(s: &[char]) -> (r: Vec<char>)
    ensures
        r@ == clean_chars(s@),
{
    let mut out: Vec<char> = Vec::new();
    let mut i: usize = 0;
    while i < s.len()
        invariant
            i <= s@.len(),
            out@ == clean_chars(s@.take(i as int)),
        decreases s@.len() - i,
    {
        assert(s@.take(i + 1).drop_last() =~= s@.take(i as int));
        let c = s[i];
        let v = c as u32;
        if v <= 0x1f || (0x7f <= v && v <= 0x9f) {
        } else if c == '<' || c == '>' || c == ':' || c == '"' || c == '|' || c == '?' || c == '*' {
            out.push('_');
        } else {
            out.push(c);
        }
        i = i + 1;
    }
    assert(s@.take(i as int) =~= s@);
    out
}

fn white_space(c: char) -> (r: bool)
    ensures
        r == is_white_space(c),
{
    let v = c as u32;
    v == 0x20 || v == 0xa0 || v == 0x1680 || (0x2000 <= v && v <= 0x200a) || v == 0x2028 || v
        == 0x2029 || v == 0x202f || v == 0x205f || v == 0x3000 || (0x09 <= v && v <= 0x0d) || v
        == 0x85
}

proof fn lemma_trim_start_skip(s: Seq<char>, k: int)
    requires
        0 <= k <= s.len(),
        forall|j: int| 0 <= j < k ==> is_white_space(s[j]),
    ensures
        trim_start_ws(s) == trim_start_ws(s.skip(k)),
    decreases k,
{
    if k > 0 {
        assert(s.drop_first().skip(k - 1) =~= s.skip(k));
        lemma_trim_start_skip(s.drop_first(), k - 1);
    } else {
        assert(s.skip(0) =~= s);
    }
}

proof fn lemma_trim_end_take(s: Seq<char>, k: int)
    requires
        0 <= k <= s.len(),
        forall|j: int| k <= j < s.len() ==> is_white_space(s[j]) || s[j] == '.',
    ensures
        trim_end_name(s) == trim_end_name(s.take(k)),
    decreases s.len() - k,
{
    if k < s.len() {
        assert(s.drop_last().take(k) =~= s.take(k));
        lemma_trim_end_take(s.drop_last(), k);
    } else {
        assert(s.take(k) =~= s);
    }
}

fn trimmed(s: &[char]) -> (r: Vec<char>)
    ensures
        r@ == trim_end_name(trim_start_ws(s@)),
{
    let mut start: usize = 0;
    while start < s.len() && white_space(s[start])
        invariant
            start <= s@.len(),
            forall|j: int| 0 <= j < start ==> is_white_space(s@[j]),
        decreases s@.len() - start,
    {
        start = start + 1;
    }
    proof {
        lemma_trim_start_skip(s@, start as int);
    }
    let ghost t = s@.skip(start as int);
    assert(trim_start_ws(t) == t) by {
        if t.len() > 0 {
            assert(t[0] == s@[start as int]);
        }
    }
    let mut end: usize = s.len();
    while end > start && (white_space(s[end - 1]) || s[end - 1] == '.')
        invariant
            start <= end <= s@.len(),
            t == s@.skip(start as int),
            forall|j: int| end - start <= j < t.len() ==> is_white_space(t[j]) || t[j] == '.',
        decreases end,
    {
        end = end - 1;
    }
    proof {
        lemma_trim_end_take(t, end - start);
        let u = t.take(end - start);
        if u.len() > 0 {
            assert(u.last() == s@[end - 1]);
        }
    }
    let mut out: Vec<char> = Vec::new();
    let mut i = start;
    while i < end
        invariant
            start <= i <= end <= s@.len(),
            out@ == s@.subrange(start as int, i as int),
        decreases end - i,
    {
        out.push(s[i]);
        assert(out@ =~= s@.subrange(start as int, i + 1));
        i = i + 1;
    }
    assert(out@ =~= t.take(end - start));
    out
}

fn upper(c: char) -> (r: char)
    ensures
        r == upper_ascii(c),
{
    if 'a' <= c && c <= 'z' {
        let v = (c as u32) - 32;
        assert(v < 128);
        let b = v as u8;
        b as char
    } else {
        c
    }
}

fn device_name(s: &[char]) -> (r: bool)
    ensures
        r == is_device_stem(stem(s@)),
{
    let mut k: usize = 0;
    let mut u: Vec<char> = Vec::new();
    while k < s.len() && s[k] != '.'
        invariant
            k <= s@.len(),
            forall|j: int| 0 <= j < k ==> s@[j] != '.',
            u@ == s@.take(k as int).map_values(|c: char| upper_ascii(c)),
        decreases s@.len() - k,
    {
        u.push(upper(s[k]));
        assert(u@ =~= s@.take(k + 1).map_values(|c: char| upper_ascii(c)));
        k = k + 1;
    }
    proof {
        lemma_stem(s@, k as int);
    }
    let n = u.len();
    let three = n == 3 && ((u[0] == 'C' && u[1] == 'O' && u[2] == 'N') || (u[0] == 'P' && u[1]
        == 'R' && u[2] == 'N') || (u[0] == 'A' && u[1] == 'U' && u[2] == 'X') || (u[0] == 'N'
        && u[1] == 'U' && u[2] == 'L'));
    let four = n == 4 && ((u[0] == 'C' && u[1] == 'O' && u[2] == 'M') || (u[0] == 'L' && u[1]
        == 'P' && u[2] == 'T')) && '1' <= u[3] && u[3] <= '9';
    proof {
        let w = u@;
        if n == 3 {
            if w[0] == 'C' && w[1] == 'O' && w[2] == 'N' {
                assert(w =~= seq!['C', 'O', 'N']);
            }
            if w[0] == 'P' && w[1] == 'R' && w[2] == 'N' {
                assert(w =~= seq!['P', 'R', 'N']);
            }
            if w[0] == 'A' && w[1] == 'U' && w[2] == 'X' {
                assert(w =~= seq!['A', 'U', 'X']);
            }
            if w[0] == 'N' && w[1] == 'U' && w[2] == 'L' {
                assert(w =~= seq!['N', 'U', 'L']);
            }
        }
    }
    three || four
}

proof fn lemma_stem(s: Seq<char>, k: int)
    requires
        0 <= k <= s.len(),
        forall|j: int| 0 <= j < k ==> s[j] != '.',
        k == s.len() || s[k] == '.',
    ensures
        stem(s) == s.take(k),
    decreases k,
{
    if k > 0 {
        lemma_stem(s.drop_first(), k - 1);
        assert(seq![s[0]] + s.drop_first().take(k - 1) =~= s.take(k));
    } else {
        assert(s.take(0) =~= Seq::<char>::empty());
    }
}

proof fn lemma_take_utf8_prefix(s: Seq<char>, k: int, budget: nat)
    requires
        0 <= k <= s.len(),
        utf8_len(s.take(k)) <= budget,
        k == s.len() || utf8_len(s.take(k)) + utf8_width(s[k]) > budget,
    ensures
        take_utf8(s, budget) == s.take(k),
    decreases k,
{
    lemma_utf8_len_front(s.take(k));
    if k > 0 {
        assert(s.drop_first().take(k - 1) =~= s.take(k).drop_first());
        assert(s.take(k)[0] == s[0]);
        if k < s.len() {
            assert(s.drop_first()[k - 1] == s[k]);
        }
        lemma_take_utf8_prefix(s.drop_first(), k - 1, (budget - utf8_width(s[0])) as nat);
        assert(seq![s[0]] + s.drop_first().take(k - 1) =~= s.take(k));
    } else {
        assert(s.take(0) =~= Seq::<char>::empty());
    }
}

proof fn lemma_utf8_len_front(s: Seq<char>)
    ensures
        s.len() > 0 ==> utf8_len(s) == utf8_width(s[0]) + utf8_len(s.drop_first()),
    decreases s.len(),
{
    if s.len() > 1 {
        lemma_utf8_len_front(s.drop_last());
        assert(s.drop_last().drop_first() =~= s.drop_first().drop_last());
        assert(s.drop_first().last() == s.last());
        assert(s.drop_last()[0] == s[0]);
        assert(utf8_len(s.drop_first()) == utf8_len(s.drop_first().drop_last()) + utf8_width(
            s.drop_first().last(),
        ));
        assert(utf8_len(s) == utf8_len(s.drop_last()) + utf8_width(s.last()));
    } else if s.len() == 1 {
        assert(utf8_len(s.drop_first()) == 0);
        assert(utf8_len(s.drop_last()) == 0);
        assert(s.last() == s[0]);
        assert(utf8_len(s) == utf8_len(s.drop_last()) + utf8_width(s.last()));
    }
}

fn truncated(s: &[char], budget: usize) -> (r: Vec<char>)
    ensures
        r@ == take_utf8(s@, budget as nat),
{
    let mut used: usize = 0;
    let mut k: usize = 0;
    while k < s.len() && char_width(s[k]) <= budget - used
        invariant
            k <= s@.len(),
            used <= budget,
            used == utf8_len(s@.take(k as int)),
        decreases s@.len() - k,
    {
        assert(s@.take(k + 1).drop_last() =~= s@.take(k as int));
        used = used + char_width(s[k]);
        k = k + 1;
    }
    proof {
        lemma_take_utf8_prefix(s@, k as int, budget as nat);
    }
    let mut out: Vec<char> = Vec::new();
    let mut i: usize = 0;
    while i < k
        invariant
            i <= k <= s@.len(),
            out@ == s@.take(i as int),
        decreases k - i,
    {
        out.push(s[i]);
        assert(out@ =~= s@.take(i + 1));
        i = i + 1;
    }
    out
}

/// Makes a peer-supplied name safe to hand to a filesystem or a download.
///
/// Keeps what follows the last `/` or `\`, drops control characters, replaces characters
/// that Windows refuses with `_`, trims white space and trailing dots, refuses empty names,
/// `.`, `..` and Windows device names (`file.bin` instead), and caps the result at 255 UTF-8
/// bytes on a character boundary.
pub fn sanitize_name(name: &str) -> (r: String)
    ensures
        r@ == sanitized(name@),
{
    let cs = chars_of(name);
    let base = base_name_of(cs.as_slice());
    let cleaned = clean(base.as_slice());
    let t = trimmed(cleaned.as_slice());
    let n = t.len();
    if n == 0 || (n == 1 && t[0] == '.') || (n == 2 && t[0] == '.' && t[1] == '.')
        || device_name(t.as_slice()) {
        proof {
            if n == 1 && t@[0] == '.' {
                assert(t@ =~= seq!['.']);
            }
            if n == 2 && t@[0] == '.' && t@[1] == '.' {
                assert(t@ =~= seq!['.', '.']);
            }
        }
        let fallback = ['f', 'i', 'l', 'e', '.', 'b', 'i', 'n'];
        assert(fallback@ =~= fallback_name());
        return string_of(&fallback);
    }
    proof {
        if t@ == seq!['.'] {
            assert(t@[0] == '.');
        }
        if t@ == seq!['.', '.'] {
            assert(t@[0] == '.' && t@[1] == '.');
        }
    }
    let cut = truncated(t.as_slice(), MAX_NAME_BYTES);
    string_of(cut.as_slice())
}

/// A character that may stand in a safe name: no separator, no control character, nothing
/// that Windows refuses.
pub open spec fn name_char_ok(c: char) -> bool {
    !is_separator(c) && !is_control_char(c) && !is_reserved_char(c)
}

/// A name that can be joined to a directory without leaving it: not empty, at most 255
/// UTF-8 bytes, neither `.` nor `..`, and made of characters that [`name_char_ok`] accepts.
pub open spec fn safe_name(n: Seq<char>) -> bool {
    &&& n.len() > 0
    &&& utf8_len(n) <= MAX_NAME_BYTES
    &&& n != seq!['.'] && n != seq!['.', '.']
    &&& forall|i: int| 0 <= i < n.len() ==> name_char_ok(#[trigger] n[i])
}

proof fn lemma_base_name_no_separator(s: Seq<char>)
    ensures
        forall|i: int| 0 <= i < base_name(s).len() ==> !is_separator(#[trigger] base_name(s)[i]),
    decreases s.len(),
{
    if s.len() > 0 {
        lemma_base_name_no_separator(s.drop_last());
        if !is_separator(s.last()) {
            let r = base_name(s.drop_last());
            assert forall|i: int| 0 <= i < base_name(s).len() implies !is_separator(
                #[trigger] base_name(s)[i],
            ) by {
                if i < r.len() {
                    assert(base_name(s)[i] == r[i]);
                } else {
                    assert(base_name(s)[i] == s.last());
                }
            }
        }
    }
}

proof fn lemma_clean_chars_ok(s: Seq<char>)
    requires
        forall|i: int| 0 <= i < s.len() ==> !is_separator(#[trigger] s[i]),
    ensures
        forall|i: int| 0 <= i < clean_chars(s).len() ==> name_char_ok(#[trigger] clean_chars(s)[i]),
    decreases s.len(),
{
    if s.len() > 0 {
        let d = s.drop_last();
        assert forall|i: int| 0 <= i < d.len() implies !is_separator(#[trigger] d[i]) by {
            assert(d[i] == s[i]);
        }
        lemma_clean_chars_ok(d);
        let c = s.last();
        assert(!is_separator(s[s.len() - 1]));
        assert(c == s[s.len() - 1]);
        let rest = clean_chars(d);
        if !is_control_char(c) {
            let out = clean_chars(s);
            assert forall|i: int| 0 <= i < out.len() implies name_char_ok(#[trigger] out[i]) by {
                if i < rest.len() {
                    assert(out[i] == rest[i]);
                } else if is_reserved_char(c) {
                    assert(out[i] == '_');
                } else {
                    assert(out[i] == c);
                }
            }
        }
    }
}

proof fn lemma_trim_start_keeps_chars(s: Seq<char>)
    requires
        forall|i: int| 0 <= i < s.len() ==> name_char_ok(#[trigger] s[i]),
    ensures
        forall|i: int| 0 <= i < trim_start_ws(s).len() ==> name_char_ok(#[trigger] trim_start_ws(s)[i]),
    decreases s.len(),
{
    if s.len() > 0 && is_white_space(s[0]) {
        let d = s.drop_first();
        assert forall|i: int| 0 <= i < d.len() implies name_char_ok(#[trigger] d[i]) by {
            assert(d[i] == s[i + 1]);
        }
        lemma_trim_start_keeps_chars(d);
        assert(trim_start_ws(s) == trim_start_ws(d));
    } else {
        assert(trim_start_ws(s) == s);
    }
}

proof fn lemma_trim_end_keeps_chars(s: Seq<char>)
    requires
        forall|i: int| 0 <= i < s.len() ==> name_char_ok(#[trigger] s[i]),
    ensures
        forall|i: int| 0 <= i < trim_end_name(s).len() ==> name_char_ok(#[trigger] trim_end_name(s)[i]),
        trim_end_name(s).len() > 0 ==> trim_end_name(s).last() != '.',
    decreases s.len(),
{
    if s.len() > 0 && (is_white_space(s.last()) || s.last() == '.') {
        let d = s.drop_last();
        assert forall|i: int| 0 <= i < d.len() implies name_char_ok(#[trigger] d[i]) by {
            assert(d[i] == s[i]);
        }
        lemma_trim_end_keeps_chars(d);
    }
}

proof fn lemma_take_utf8_facts(s: Seq<char>, budget: nat)
    ensures
        take_utf8(s, budget).len() <= s.len(),
        forall|i: int| 0 <= i < take_utf8(s, budget).len() ==> take_utf8(s, budget)[i] == s[i],
        utf8_len(take_utf8(s, budget)) <= budget,
    decreases s.len(),
{
    let r = take_utf8(s, budget);
    lemma_utf8_len_front(r);
    if s.len() > 0 && utf8_width(s[0]) <= budget {
        let rest = (budget - utf8_width(s[0])) as nat;
        let t = take_utf8(s.drop_first(), rest);
        lemma_take_utf8_facts(s.drop_first(), rest);
        assert(r == seq![s[0]] + t);
        assert(r.drop_first() =~= t);
        assert forall|i: int| 0 <= i < r.len() implies r[i] == s[i] by {
            if i > 0 {
                assert(r[i] == t[i - 1]);
                assert(t[i - 1] == s.drop_first()[i - 1]);
            }
        }
    }
}

proof fn lemma_take_utf8_keeps(s: Seq<char>, budget: nat, k: nat)
    requires
        k <= s.len(),
        4 * k <= budget,
    ensures
        take_utf8(s, budget).len() >= k,
        4 * s.len() <= budget ==> take_utf8(s, budget) == s,
    decreases s.len(),
{
    if s.len() > 0 {
        assert(utf8_width(s[0]) <= 4);
        let rest = (budget - utf8_width(s[0])) as nat;
        let k2: nat = if k > 0 { (k - 1) as nat } else { 0 };
        lemma_take_utf8_keeps(s.drop_first(), rest, k2);
        if 4 * s.len() <= budget {
            assert(seq![s[0]] + s.drop_first() =~= s);
        }
    }
}

/// Whatever a peer sends as a name, what [`sanitize_name`] makes of it is safe to join to a
/// directory: [`safe_name`] holds of it.
pub proof fn lemma_sanitized_is_safe(name: Seq<char>)
    ensures
        safe_name(sanitized(name)),
{
    let b = base_name(name);
    lemma_base_name_no_separator(name);
    lemma_clean_chars_ok(b);
    let c = clean_chars(b);
    lemma_trim_start_keeps_chars(c);
    let s = trim_start_ws(c);
    lemma_trim_end_keeps_chars(s);
    let cleaned = trim_end_name(s);
    if cleaned.len() == 0 || cleaned == seq!['.'] || cleaned == seq!['.', '.'] || is_device_stem(
        stem(cleaned),
    ) {
        let f = fallback_name();
        assert(utf8_len(f) == 8) by {
            reveal_with_fuel(utf8_len, 9);
        }
    } else {
        let r = take_utf8(cleaned, MAX_NAME_BYTES as nat);
        lemma_take_utf8_facts(cleaned, MAX_NAME_BYTES as nat);
        assert forall|i: int| 0 <= i < r.len() implies name_char_ok(#[trigger] r[i]) by {
            assert(r[i] == cleaned[i]);
        }
        if cleaned.len() >= 3 {
            lemma_take_utf8_keeps(cleaned, MAX_NAME_BYTES as nat, 3);
        } else {
            lemma_take_utf8_keeps(cleaned, MAX_NAME_BYTES as nat, 0);
        }
    }
}

/// Why a read from a source or a write to a sink failed.
#[derive(Debug, Clone, PartialEq, Eq)]
pub enum IoFailure {
    /// A single read asked for more than [`MAX_SOURCE_READ`] bytes.
    ReadTooLarge,
    /// The file changed since it was shared.
    Changed,
    /// The source ended before its declared size.
    SourceEnded,
    /// The source returned more bytes than were asked for.
    SourceOverran,
    /// The in-memory sink is full.
    OverCap,
    /// An earlier write failed or was cancelled; the sink must be aborted.
    NotReady,
    /// The byte count of the sink would overflow.
    CountOverflow,
    /// The download grew past its declared size.
    ExceedsDeclaredSize,
    /// The download ended before its declared size.
    EndedBeforeSize,
    /// Any other failure, with the text the platform gave.
    Other(String),
}

/// How many bytes a read of `len` at `offset` yields from a source of `size` bytes.
pub open spec fn read_length_spec(size: u64, offset: u64, len: usize) -> nat {
    let left: int = if offset <= size { size - offset } else { 0 };
    if left < len { left as nat } else { len as nat }
}

/// How many bytes a read of `len` at `offset` yields from a source of `size` bytes: what is
/// left after `offset`, but never more than `len`. Zero-length reads and offsets at or beyond
/// the end are empty; reads of more than 4 MiB are refused.
pub fn read_length(size: u64, offset: u64, len: usize) -> (r: Result<usize, IoFailure>)
    ensures
        len > MAX_SOURCE_READ ==> r == Err::<usize, IoFailure>(IoFailure::ReadTooLarge),
        len <= MAX_SOURCE_READ ==> r == Ok::<usize, IoFailure>(
            read_length_spec(size, offset, len) as usize,
        ),
{
    if len > MAX_SOURCE_READ {
        return Err(IoFailure::ReadTooLarge);
    }
    let left: u64 = if offset <= size { size - offset } else { 0 };
    let want = len as u64;
    if left < want {
        Ok(left as usize)
    } else {
        Ok(len)
    }
}

/// What a file looked like when it was hashed: its size and, where the filesystem has one,
/// its modification time in milliseconds.
#[derive(Clone, Copy, Debug, PartialEq, Eq)]
pub struct FileSnapshot {
    pub size: u64,
    pub modified_ms: Option<u64>,
}

/// Whether `current` is still the file that `snapshot` was taken of: the sizes agree and,
/// where both have a modification time, so do the times.
pub open spec fn snapshot_matches(snapshot: FileSnapshot, current: FileSnapshot) -> bool {
    snapshot.size == current.size && match (snapshot.modified_ms, current.modified_ms) {
        (Some(a), Some(b)) => a == b,
        _ => true,
    }
}

impl FileSnapshot {
    /// Whether `current` is still the file this snapshot was taken of.
    pub fn matches(&self, current: &FileSnapshot) -> (r: bool)
        ensures
            r == snapshot_matches(*self, *current),
    {
        if self.size != current.size {
            return false;
        }
        match (self.modified_ms, current.modified_ms) {
            (Some(a), Some(b)) => a == b,
            _ => true,
        }
    }
}

/// Refuses a file that changed since it was shared.
pub fn check_snapshot(snapshot: &FileSnapshot, current: &FileSnapshot) -> (r: Result<(), IoFailure>)
    ensures
        r is Ok <==> snapshot_matches(*snapshot, *current),
        r is Err ==> r == Err::<(), IoFailure>(IoFailure::Changed),
{
    if snapshot.matches(current) {
        Ok(())
    } else {
        Err(IoFailure::Changed)
    }
}

/// Where a received file ended up.
#[derive(Clone, Debug, PartialEq, Eq)]
pub struct SavedFile {
    pub name: String,
    pub size: u64,
    pub location: String,
}

/// Why a sink could not be created or could not take more bytes.
#[derive(Debug)]
pub enum SinkError {
    /// The user dismissed a picker. Never a reason to fall back to another sink.
    Cancelled,
    /// This platform cannot offer this sink; the caller may try the next one.
    Unsupported(String),
    /// The browser reported an error.
    Js(String),
    Io(IoFailure),
}

/// What a source holding `content` serves for a read of up to `len` bytes at `offset`: the
/// bytes from `offset` on, cut at `len` and at the end of the content.
pub open spec fn served(content: Seq<u8>, offset: u64, len: usize) -> Seq<u8> {
    let start: int = if offset <= content.len() { offset as int } else { content.len() as int };
    let n: int = if content.len() - start < len { content.len() - start } else { len as int };
    content.subrange(start, start + n)
}

/// A readable source of one file's bytes.
pub trait Source {
    /// The size the source declares.
    spec fn declared(&self) -> u64;

    /// The bytes the source serves; a source that changed since its size was taken serves
    /// more or fewer than it declared.
    spec fn content(&self) -> Seq<u8>;

    /// The size the source declared.
    fn size(&self) -> (r: u64)
        ensures
            r == self.declared(),
    ;

    /// Up to `len` bytes at `offset`: fewer only where the end of the source cuts them. A read
    /// changes neither the declared size nor the content.
    fn read(&mut self, offset: u64, len: usize) -> (r: Result<Vec<u8>, IoFailure>)
        ensures
            final(self).declared() == old(self).declared(),
            final(self).content() == old(self).content(),
            r matches Ok(v) ==> v@ == served(old(self).content(), offset, len),
    ;
}

/// In-memory source: tests, and tiny files.
pub struct MemSource {
    bytes: Vec<u8>,
}

impl View for MemSource {
    type V = Seq<u8>;

    closed spec fn view(&self) -> Seq<u8> {
        self.bytes@
    }
}

impl MemSource {
    pub fn new(bytes: Vec<u8>) -> (r: MemSource)
        ensures
            r@ == bytes@,
    {
        MemSource { bytes }
    }


    /// The bytes at `offset..offset + len`, cut at the end of the source.
    pub fn read_at(&self, offset: u64, len: usize) -> (r: Result<Vec<u8>, IoFailure>)
        ensures
            len > MAX_SOURCE_READ ==> r == Err::<Vec<u8>, IoFailure>(IoFailure::ReadTooLarge),
            len <= MAX_SOURCE_READ ==> r is Ok && (r->Ok_0)@ == {
                let start = if offset <= self@.len() { offset as int } else { self@.len() as int };
                self@.subrange(start, start + read_length_spec(self@.len() as u64, offset, len))
            },
    {
        let blen = self.bytes.len();
        let size = blen as u64;
        let n = read_length(size, offset, len)?;
        let start: usize = if offset <= size { offset as usize } else { self.bytes.len() };
        let mut out: Vec<u8> = Vec::new();
        let mut i: usize = 0;
        while i < n
            invariant
                n == read_length_spec(size, offset, len),
                size == self.bytes@.len(),
                blen == self.bytes@.len(),
                start + n <= self.bytes@.len(),
                i <= n,
                out@ == self.bytes@.subrange(start as int, start + i),
            decreases n - i,
        {
            out.push(self.bytes[start + i]);
            assert(out@ =~= self.bytes@.subrange(start as int, start + i + 1));
            i = i + 1;
        }
        Ok(out)
    }
}

impl Source for MemSource {
    closed spec fn declared(&self) -> u64 {
        self.bytes@.len() as u64
    }

    closed spec fn content(&self) -> Seq<u8> {
        self.bytes@
    }

    fn size(&self) -> (r: u64)
        ensures
            r == self@.len(),
    {
        self.bytes.len() as u64
    }

    fn read(&mut self, offset: u64, len: usize) -> (r: Result<Vec<u8>, IoFailure>)
        ensures
            final(self)@ == old(self)@,
            len > MAX_SOURCE_READ ==> r == Err::<Vec<u8>, IoFailure>(IoFailure::ReadTooLarge),
            len <= MAX_SOURCE_READ ==> r is Ok && (r->Ok_0)@ == {
                let start = if offset <= old(self)@.len() {
                    offset as int
                } else {
                    old(self)@.len() as int
                };
                old(self)@.subrange(
                    start,
                    start + read_length_spec(old(self)@.len() as u64, offset, len),
                )
            },
    {
        proof {
            assert(self.bytes@.len() == self.bytes.len());
        }
        let r = self.read_at(offset, len);
        proof {
            if r is Ok {
                assert(r->Ok_0@ =~= served(old(self).content(), offset, len));
            }
        }
        r
    }
}

/// A sequential, append-only destination for one received file.
pub trait Sink: Sized {
    /// How many bytes the sink has taken.
    fn bytes_written(&self) -> u64;

    /// Appends `data`, or refuses it whole.
    fn write(&mut self, data: &[u8]) -> Result<(), IoFailure>;

    /// Closes the sink and reports where the file went.
    fn finish(self) -> Result<SavedFile, IoFailure>;
}

/// Where a file received into memory ends up, as reported to the user.
pub fn mem_sink_location() -> (r: String)
    ensures
        r@ == "In memory"@,
{
    "In memory".to_owned()
}

/// In-memory sink with a hard cap on the bytes it holds.
pub struct MemSink {
    buf: Vec<u8>,
    cap: usize,
    name: String,
}

impl MemSink {
    #[verifier::type_invariant]
    spec fn within_cap(self) -> bool {
        self.buf@.len() <= self.cap
    }

    /// The bytes taken so far.
    pub closed spec fn held(&self) -> Seq<u8> {
        self.buf@
    }

    /// The most bytes the sink takes.
    pub closed spec fn limit(&self) -> nat {
        self.cap as nat
    }

    /// The name the sink was made with.
    pub closed spec fn file_name(&self) -> Seq<char> {
        self.name@
    }

    /// An empty sink that takes at most `cap` bytes.
    pub fn new(name: String, cap: usize) -> (r: MemSink)
        ensures
            r.held() == Seq::<u8>::empty(),
            r.limit() == cap,
            r.file_name() == name@,
    {
        MemSink { buf: Vec::new(), cap, name }
    }

    /// The bytes received so far.
    pub fn contents(&self) -> (r: &[u8])
        ensures
            r@ == self.held(),
    {
        self.buf.as_slice()
    }

    pub fn name(&self) -> (r: &str)
        ensures
            r@ == self.file_name(),
    {
        self.name.as_str()
    }
}

impl Sink for MemSink {
    fn bytes_written(&self) -> (r: u64)
        ensures
            r == self.held().len(),
    {
        self.buf.len() as u64
    }

    /// Appends `data` when it fits under the cap; a refused write stores nothing.
    fn write(&mut self, data: &[u8]) -> (r: Result<(), IoFailure>)
        ensures
            final(self).limit() == old(self).limit(),
            final(self).file_name() == old(self).file_name(),
            old(self).held().len() + data@.len() <= old(self).limit() ==> r is Ok
                && final(self).held() == old(self).held() + data@,
            old(self).held().len() + data@.len() > old(self).limit()
                ==> r == Err::<(), IoFailure>(IoFailure::OverCap)
                && final(self).held() == old(self).held(),
    {
        proof {
            use_type_invariant(&*self);
        }
        if data.len() <= self.cap - self.buf.len() {
            let mut buf: Vec<u8> = Vec::new();
            std::mem::swap(&mut buf, &mut self.buf);
            let mut i: usize = 0;
            let ghost start = buf@;
            while i < data.len()
                invariant
                    i <= data@.len(),
                    buf@ == start + data@.take(i as int),
                decreases data@.len() - i,
            {
                buf.push(data[i]);
                assert(buf@ =~= start + data@.take(i + 1));
                i = i + 1;
            }
            assert(data@.take(i as int) =~= data@);
            self.buf = buf;
            Ok(())
        } else {
            Err(IoFailure::OverCap)
        }
    }

    fn finish(self) -> (r: Result<SavedFile, IoFailure>)
        ensures
            r is Ok,
            (r->Ok_0).name@ == self.file_name(),
            (r->Ok_0).size == self.held().len(),
            (r->Ok_0).location@ == "In memory"@,
    {
        let size = self.buf.len() as u64;
        Ok(SavedFile { name: self.name, size, location: mem_sink_location() })
    }
}

/// Largest file the memory route accepts: 256 MiB.
pub const MEM_SINK_CAP: usize = 268435456;

/// What the user is told when no route can take a file of this size.
pub open spec fn mem_sink_too_big() -> Seq<char> {
    "this browser cannot stream this download; choose a supported browser or a smaller file"@
}

/// One memory sink per manifest entry, named by the sanitised name and capped at
/// [`MEM_SINK_CAP`]; refused when any file is larger than the cap.
pub fn mem_sinks(manifest: &[FileMeta]) -> (r: Result<Vec<MemSink>, SinkError>)
    ensures
        (exists|i: int| 0 <= i < manifest@.len() && manifest@[i].size > MEM_SINK_CAP) ==> (
        r matches Err(SinkError::Unsupported(m)) && m@ == mem_sink_too_big()),
        (forall|i: int| 0 <= i < manifest@.len() ==> manifest@[i].size <= MEM_SINK_CAP) ==> (
        r matches Ok(sinks) && sinks@.len() == manifest@.len() && forall|i: int|
            0 <= i < sinks@.len() ==> (#[trigger] sinks@[i]).held() == Seq::<u8>::empty()
                && sinks@[i].limit() == MEM_SINK_CAP && sinks@[i].file_name() == sanitized(
                manifest@[i].name@,
            )),
{
    let mut sinks: Vec<MemSink> = Vec::new();
    let mut i: usize = 0;
    while i < manifest.len()
        invariant
            i <= manifest@.len(),
            sinks@.len() == i,
            forall|j: int| 0 <= j < i ==> manifest@[j].size <= MEM_SINK_CAP,
            forall|j: int|
                0 <= j < i ==> (#[trigger] sinks@[j]).held() == Seq::<u8>::empty()
                    && sinks@[j].limit() == MEM_SINK_CAP && sinks@[j].file_name() == sanitized(
                    manifest@[j].name@,
                ),
        decreases manifest@.len() - i,
    {
        if manifest[i].size > MEM_SINK_CAP as u64 {
            return Err(
                SinkError::Unsupported(
                    "this browser cannot stream this download; choose a supported browser or a smaller file".to_owned(),
                ),
            );
        }
        let name = sanitize_name(manifest[i].name.as_str());
        sinks.push(MemSink::new(name, MEM_SINK_CAP));
        i = i + 1;
    }
    Ok(sinks)
}

/// The destination routes of a receive, in the order [`SinkPref::Auto`] tries them.
#[derive(Clone, Copy, Debug, PartialEq, Eq, Structural)]
pub enum SinkRoute {
    /// The File System Access picker.
    Fsa,
    /// A service-worker download.
    Sw,
    /// Memory, then a download.
    Mem,
}

/// What happened when a route was tried.
pub enum RouteOutcome {
    Ready,
    /// The platform cannot offer this route.
    Unsupported,
    /// Any other failure, the user's dismissal included: it ends the choice.
    Failed,
}

/// The route to try first for a preference: the one it names, or the picker for `Auto`.
pub fn first_route(pref: SinkPref) -> (r: SinkRoute)
    ensures
        r == match pref {
            SinkPref::Sw => SinkRoute::Sw,
            SinkPref::Mem => SinkRoute::Mem,
            _ => SinkRoute::Fsa,
        },
{
    match pref {
        SinkPref::Sw => SinkRoute::Sw,
        SinkPref::Mem => SinkRoute::Mem,
        _ => SinkRoute::Fsa,
    }
}

/// The route to try after `tried` came out as `outcome`: only `Auto` falls back, and only
/// past a route the platform does not offer, from the picker to the download and from the
/// download to memory. `None` once the choice is over.
pub fn next_route(pref: SinkPref, tried: SinkRoute, outcome: RouteOutcome) -> (r: Option<SinkRoute>)
    ensures
        r == match (pref, tried, outcome) {
            (SinkPref::Auto, SinkRoute::Fsa, RouteOutcome::Unsupported) => Some(SinkRoute::Sw),
            (SinkPref::Auto, SinkRoute::Sw, RouteOutcome::Unsupported) => Some(SinkRoute::Mem),
            _ => None::<SinkRoute>,
        },
{
    match (pref, tried, outcome) {
        (SinkPref::Auto, SinkRoute::Fsa, RouteOutcome::Unsupported) => Some(SinkRoute::Sw),
        (SinkPref::Auto, SinkRoute::Sw, RouteOutcome::Unsupported) => Some(SinkRoute::Mem),
        _ => None,
    }
}

/// A memory sink that the caller slows down by `delay_ms` on every write, so a test can hold
/// a receive window open.
pub struct SlowSink {
    pub inner: MemSink,
    pub delay_ms: u64,
}

impl SlowSink {
    pub fn new(name: String, cap: usize, delay_ms: u64) -> (r: SlowSink)
        ensures
            r.inner.held() == Seq::<u8>::empty(),
            r.inner.limit() == cap,
            r.inner.file_name() == name@,
            r.delay_ms == delay_ms,
    {
        SlowSink { inner: MemSink::new(name, cap), delay_ms }
    }

    pub fn contents(&self) -> (r: &[u8])
        ensures
            r@ == self.inner.held(),
    {
        self.inner.contents()
    }
}

/// A memory sink whose writes the caller never completes, so a test can show that a write
/// deadline and cancellation are real. It records whether it was aborted.
pub struct StuckSink {
    inner: MemSink,
    aborted: bool,
}

impl StuckSink {
    pub fn new(name: String) -> (r: StuckSink)
        ensures
            r.sink().held() == Seq::<u8>::empty(),
            r.sink().file_name() == name@,
            !r.was_aborted(),
    {
        StuckSink { inner: MemSink::new(name, usize::MAX), aborted: false }
    }

    pub closed spec fn sink(&self) -> MemSink {
        self.inner
    }

    pub closed spec fn was_aborted(&self) -> bool {
        self.aborted
    }

    /// The memory sink inside.
    pub fn inner(&self) -> (r: &MemSink)
        ensures
            *r == self.sink(),
    {
        &self.inner
    }

    /// Marks the sink aborted.
    pub fn abort(&mut self)
        ensures
            final(self).was_aborted(),
            final(self).sink() == old(self).sink(),
    {
        self.aborted = true;
    }

    /// Whether `abort` ran.
    pub fn abort_flag(&self) -> (r: bool)
        ensures
            r == self.was_aborted(),
    {
        self.aborted
    }
}

/// The accounting of a staging sink on disk: bytes committed, and whether the sink may take
/// another write. A write that fails or is cancelled halfway leaves it not ready for good.
pub struct StagingProgress {
    pub written: u64,
    pub ready: bool,
}

impl StagingProgress {
    pub fn new() -> (r: StagingProgress)
        ensures
            r.written == 0,
            r.ready,
    {
        StagingProgress { written: 0, ready: true }
    }

    /// Refuses a sink whose last write failed or was cancelled.
    pub fn check_ready(&self) -> (r: Result<(), IoFailure>)
        ensures
            r is Ok <==> self.ready,
            r is Err ==> r == Err::<(), IoFailure>(IoFailure::NotReady),
    {
        if self.ready {
            Ok(())
        } else {
            Err(IoFailure::NotReady)
        }
    }

    /// Starts a write of `len` bytes: the count it will reach, and the sink is not ready
    /// until [`Self::end_write`] records that the bytes are on disk.
    pub fn begin_write(&mut self, len: usize) -> (r: Result<u64, IoFailure>)
        ensures
            !old(self).ready ==> r == Err::<u64, IoFailure>(IoFailure::NotReady)
                && *final(self) == *old(self),
            old(self).ready && old(self).written + len > u64::MAX ==> r == Err::<u64, IoFailure>(
                IoFailure::CountOverflow,
            ) && *final(self) == *old(self),
            old(self).ready && old(self).written + len <= u64::MAX ==> r == Ok::<u64, IoFailure>(
                (old(self).written + len) as u64,
            ) && final(self).written == old(self).written && !final(self).ready,
    {
        self.check_ready()?;
        let len64 = len as u64;
        if len64 > u64::MAX - self.written {
            return Err(IoFailure::CountOverflow);
        }
        self.ready = false;
        Ok(self.written + len64)
    }

    /// Records a write that reached the disk.
    pub fn end_write(&mut self, written: u64)
        ensures
            final(self).written == written,
            final(self).ready,
    {
        self.written = written;
        self.ready = true;
    }
}

/// The name `name` gets at the `attempt`-th try to publish it: the name itself at first, then
/// the name cut on a character boundary to leave room for ` (attempt)` within 255 bytes.
pub open spec fn final_name_spec(name: Seq<char>, attempt: nat) -> Seq<char> {
    if attempt == 0 {
        name
    } else {
        let suffix = seq![' ', '('] + decimal(attempt) + seq![')'];
        take_utf8(name, (MAX_NAME_BYTES - suffix.len()) as nat) + suffix
    }
}

/// The name to publish a received file under at the `attempt`-th try, after earlier names
/// were taken.
pub fn final_name(name: &str, attempt: u32) -> (r: String)
    ensures
        r@ == final_name_spec(name@, attempt as nat),
{
    if attempt == 0 {
        return name.to_owned();
    }
    let digits = decimal_string(attempt as u64);
    proof {
        lemma_decimal_len(attempt as nat, 10);
        assert(pow10(10) == 10000000000) by {
            reveal_with_fuel(pow10, 11);
        }
    }
    let dchars = chars_of(digits.as_str());
    let suffix_len = dchars.len() + 3;
    let cs = chars_of(name);
    let cut = truncated(cs.as_slice(), MAX_NAME_BYTES - suffix_len);
    let mut out = string_of(cut.as_slice());
    push_char(&mut out, ' ');
    push_char(&mut out, '(');
    push_str(&mut out, digits.as_str());
    push_char(&mut out, ')');
    assert(out@ =~= final_name_spec(name@, attempt as nat));
    out
}

/// Where a file staged for resuming ends up, as reported to the user.
pub fn resumable_location() -> (r: String)
    ensures
        r@ == "Resumable copy in this browser"@,
{
    "Resumable copy in this browser".to_owned()
}

/// A durable staging sink: its identity in the store, the declared size, and the bytes
/// already flushed. The store calls happen around the decisions made here.
pub struct PersistentSink {
    pub id: String,
    pub index: u32,
    pub name: String,
    pub size: u64,
    pub written: u64,
    pub released: bool,
}

impl PersistentSink {
    pub open spec fn committed(&self) -> nat {
        self.written as nat
    }

    pub open spec fn is_released(&self) -> bool {
        self.released
    }

    /// A sink over staged bytes of which `written` have been flushed already.
    pub fn new(id: String, index: u32, name: String, size: u64, written: u64) -> (r:
        PersistentSink)
        ensures
            r.id@ == id@,
            r.index == index,
            r.name@ == name@,
            r.size == size,
            r.committed() == written,
            !r.is_released(),
    {
        PersistentSink { id, index, name, size, written, released: false }
    }

    pub fn bytes_written(&self) -> (r: u64)
        ensures
            r == self.committed(),
    {
        self.written
    }

    /// The count a write of `len` bytes reaches, refused when the download would grow past
    /// its declared size.
    pub fn plan_write(&self, len: usize) -> (r: Result<u64, IoFailure>)
        ensures
            self.committed() + len <= self.size ==> r == Ok::<u64, IoFailure>(
                (self.committed() + len) as u64,
            ),
            self.committed() + len > self.size ==> r == Err::<u64, IoFailure>(
                IoFailure::ExceedsDeclaredSize,
            ),
    {
        let len64 = len as u64;
        if self.written <= self.size && len64 <= self.size - self.written {
            Ok(self.written + len64)
        } else {
            Err(IoFailure::ExceedsDeclaredSize)
        }
    }

    /// Records a write that the store flushed.
    pub fn wrote(&mut self, next: u64)
        ensures
            final(self).committed() == next,
            final(self).is_released() == old(self).is_released(),
            final(self).id == old(self).id,
            final(self).index == old(self).index,
            final(self).name == old(self).name,
            final(self).size == old(self).size,
    {
        self.written = next;
    }

    /// Whether the download is complete, so that the store may publish it.
    pub fn check_finish(&self) -> (r: Result<(), IoFailure>)
        ensures
            r is Ok <==> self.committed() == self.size,
            r is Err ==> r == Err::<(), IoFailure>(IoFailure::EndedBeforeSize),
    {
        if self.written != self.size {
            Err(IoFailure::EndedBeforeSize)
        } else {
            Ok(())
        }
    }

    /// Where the finished file went, once the store has published it; the sink no longer
    /// holds the store's handle.
    pub fn finished(&mut self) -> (r: SavedFile)
        ensures
            final(self).is_released(),
            r.name@ == old(self).name@,
            r.size == old(self).size,
            r.location@ == "Resumable copy in this browser"@,
    {
        self.released = true;
        SavedFile { name: self.name.clone(), size: self.size, location: resumable_location() }
    }

    /// Gives up the store's handle.
    pub fn release(&mut self)
        ensures
            final(self).is_released(),
            final(self).committed() == old(self).committed(),
    {
        self.released = true;
    }

    /// Whether the store's handle is still held, so dropping the sink must release it.
    pub fn holds_handle(&self) -> (r: bool)
        ensures
            r == !self.is_released(),
    {
        !self.released
    }
}

/// One staged transfer as the durable store lists it.
#[derive(Clone)]
pub struct StoredTransfer {
    pub id: String,
    pub files: Vec<StoredFile>,
}

/// One staged file of a [`StoredTransfer`].
#[derive(Clone)]
pub struct StoredFile {
    pub name: String,
    pub size: u64,
    pub written: u64,
    pub verified: bool,
}

/// Read granularity of [`hash_source`].
pub const HASH_READ: usize = 1048576;

/// Streaming BLAKE3 of a source of a declared size, fed one bounded read at a time. The
/// caller performs each read that [`SourceHasher::next_read`] asks for and hands the bytes to
/// [`SourceHasher::feed`], which refuses a source that ends early or returns too much.
pub struct SourceHasher {
    size: u64,
    offset: u64,
    hasher: blake3::Hasher,
}

impl SourceHasher {
    /// The bytes hashed so far.
    pub closed spec fn fed(&self) -> Seq<u8> {
        hasher_input(self.hasher)
    }

    /// The size the source declared.
    pub closed spec fn declared(&self) -> u64 {
        self.size
    }

    pub closed spec fn wf(&self) -> bool {
        &&& self.fed().len() == self.offset
        &&& self.offset <= self.size
        &&& hasher_regular(self.hasher)
    }

    /// A hasher for a source of `size` bytes.
    pub fn new(size: u64) -> (r: SourceHasher)
        ensures
            r.wf(),
            r.declared() == size,
            r.fed() == Seq::<u8>::empty(),
    {
        SourceHasher { size, offset: 0, hasher: hasher_new() }
    }

    /// Where the next read starts: after the bytes hashed so far.
    pub fn offset(&self) -> (r: u64)
        requires
            self.wf(),
        ensures
            r == self.fed().len(),
    {
        self.offset
    }

    /// How many bytes to read next, or `None` once the declared size has been hashed.
    pub fn next_read(&self) -> (r: Option<usize>)
        requires
            self.wf(),
        ensures
            self.fed().len() < self.declared() <==> r is Some,
            r is Some ==> r->0 == read_length_spec(
                self.declared(),
                self.fed().len() as u64,
                HASH_READ,
            ),
            r is Some ==> r->0 > 0,
    {
        if self.offset < self.size {
            match read_length(self.size, self.offset, HASH_READ) {
                Ok(n) => Some(n),
                Err(_) => None,
            }
        } else {
            None
        }
    }

    /// Hashes the bytes a read returned: refused when the source ended before its declared
    /// size or returned more than was asked for.
    pub fn feed(&mut self, chunk: &[u8]) -> (r: Result<(), IoFailure>)
        requires
            old(self).wf(),
            old(self).fed().len() < old(self).declared(),
        ensures
            final(self).wf(),
            final(self).declared() == old(self).declared(),
            chunk@.len() == 0 ==> r == Err::<(), IoFailure>(IoFailure::SourceEnded),
            chunk@.len() > read_length_spec(
                old(self).declared(),
                old(self).fed().len() as u64,
                HASH_READ,
            ) ==> r == Err::<(), IoFailure>(IoFailure::SourceOverran),
            r is Ok <==> 0 < chunk@.len() <= read_length_spec(
                old(self).declared(),
                old(self).fed().len() as u64,
                HASH_READ,
            ),
            r is Ok ==> final(self).fed() == old(self).fed() + chunk@,
            r is Err ==> final(self).fed() == old(self).fed(),
    {
        let want = match read_length(self.size, self.offset, HASH_READ) {
            Ok(n) => n,
            Err(e) => return Err(e),
        };
        if chunk.len() == 0 {
            return Err(IoFailure::SourceEnded);
        }
        if chunk.len() > want {
            return Err(IoFailure::SourceOverran);
        }
        hasher_update(&mut self.hasher, chunk);
        self.offset = self.offset + chunk.len() as u64;
        Ok(())
    }

    /// The hash of the whole source, once every declared byte has been fed.
    pub fn finish(&self) -> (r: BlobHash)
        requires
            self.wf(),
            self.fed().len() == self.declared(),
        ensures
            r.0@ == blake3_hash(self.fed()),
    {
        BlobHash(hasher_finalize(&self.hasher))
    }
}

/// Streaming BLAKE3 of a source, [`HASH_READ`] bytes at a time: the hash of exactly as many
/// bytes as the source declared, or the error of the first read that fails or misbehaves.
pub fn hash_source<S: Source>(src: &mut S) -> (r: Result<BlobHash, IoFailure>)
    ensures
        final(src).declared() == old(src).declared(),
        final(src).content() == old(src).content(),
        r matches Ok(h) ==> old(src).declared() <= old(src).content().len() && h.0@ == blake3_hash(
            old(src).content().take(old(src).declared() as int),
        ),
        old(src).content().len() < old(src).declared() ==> r is Err,
        old(src).declared() == 0 ==> (r matches Ok(h) && h.0@ == blake3_hash(Seq::<u8>::empty())),
{
    let size = src.size();
    let mut h = SourceHasher::new(size);
    loop
        invariant
            h.wf(),
            h.declared() == size,
            size == old(src).declared(),
            src.declared() == old(src).declared(),
            src.content() == old(src).content(),
            h.fed().len() <= src.content().len(),
            h.fed() == src.content().take(h.fed().len() as int),
        decreases size - h.fed().len(),
    {
        match h.next_read() {
            None => {
                proof {
                    if size == 0 {
                        assert(h.fed() =~= Seq::<u8>::empty());
                    }
                }
                return Ok(h.finish());
            },
            Some(want) => {
                let ghost before = h.fed();
                let chunk = src.read(h.offset(), want)?;
                proof {
                    let c = src.content();
                    if chunk@.len() > 0 {
                        assert(before + chunk@ =~= c.take((before.len() + chunk@.len()) as int));
                    }
                }
                h.feed(chunk.as_slice())?;
            },
        }
    }
}

/// The bytes a manifest contributes to its identity: for each file in order, the length of
/// its sanitised name as 8 little-endian bytes, that name in UTF-8, its size as 8
/// little-endian bytes and its 32 hash bytes.
pub open spec fn manifest_material(files: Seq<FileMeta>) -> Seq<u8>
    decreases files.len(),
{
    if files.len() == 0 {
        seq![]
    } else {
        let meta = files.last();
        let name = encode_utf8(sanitized(meta.name@));
        manifest_material(files.drop_last()) + le_bytes(name.len(), 8) + name + le_bytes(
            meta.size as nat,
            8,
        ) + meta.hash.0@
    }
}

/// The key-derivation context of manifest identities.
pub open spec fn manifest_context() -> Seq<char> {
    "oxfer resumable manifest v1"@
}

/// Stable identity for the exact names, sizes, hashes and order of a manifest: 64 hex digits
/// of a BLAKE3 key derived from [`manifest_material`]. It holds no ticket or capability and is
/// safe to persist.
pub fn manifest_id(manifest: &[FileMeta]) -> (r: Result<String, SinkError>)
    ensures
        r is Ok,
        (r->Ok_0)@ == hex_encode_spec(
            blake3_derive_key(manifest_context(), manifest_material(manifest@)),
        ),
{
    let mut material: Vec<u8> = Vec::new();
    let mut i: usize = 0;
    while i < manifest.len()
        invariant
            i <= manifest@.len(),
            material@ == manifest_material(manifest@.take(i as int)),
        decreases manifest@.len() - i,
    {
        let meta = &manifest[i];
        let name = sanitize_name(meta.name.as_str());
        let bytes = name.as_str().as_bytes();
        let len_bytes = u64_le_bytes(bytes.len() as u64);
        let size_bytes = u64_le_bytes(meta.size);
        let ghost before = material@;
        append(&mut material, len_bytes.as_slice());
        append(&mut material, bytes);
        append(&mut material, size_bytes.as_slice());
        append(&mut material, &meta.hash.0);
        proof {
            assert(manifest@.take(i + 1).drop_last() =~= manifest@.take(i as int));
            assert(manifest@.take(i + 1).last() == manifest@[i as int]);
        }
        i = i + 1;
    }
    assert(manifest@.take(i as int) =~= manifest@);
    let key = derive_key("oxfer resumable manifest v1", material.as_slice());
    Ok(hex::encode(&key))
}


} // verus!
