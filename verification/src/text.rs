//! Small text and byte helpers shared by the modules of this crate.

use vstd::prelude::*;
use vstd::std_specs::iter::IteratorSpec;

verus! {

/// Appends one character to a `String` (`String::push`).
#[verifier::external_body]
pub(crate) fn push_char(s: &mut String, c: char)
    ensures
        final(s)@ == old(s)@.push(c),
{
    s.push(c)
}

/// Appends a string slice to a `String` (`String::push_str`).
#[verifier::external_body]
pub(crate) fn push_str(s: &mut String, t: &str)
    ensures
        final(s)@ == old(s)@ + t@,
{
    s.push_str(t)
}

/// The characters of `s`, in order.
pub fn chars_of(s: &str) -> (r: Vec<char>)
    ensures
        r@ == s@,
{
    broadcast use vstd::string::axiom_spec_iter, vstd::string::next_postcondition;

    let mut out: Vec<char> = Vec::new();
    let mut it = s.chars();
    assert(it.remaining() == s@);
    loop
        invariant
            it.obeys_prophetic_iter_laws(),
            out@ + it.remaining() == s@,
            it.decrease() is Some,
        decreases it.decrease()->0,
    {
        let ghost before = it.remaining();
        match it.next() {
            Some(c) => {
                out.push(c);
                assert(out@ + it.remaining() =~= s@);
            },
            None => {
                assert(out@ =~= s@);
                return out;
            },
        }
    }
}

/// A `String` holding exactly the characters `cs`.
pub fn string_of(cs: &[char]) -> (r: String)
    ensures
        r@ == cs@,
{
    let mut out = String::new();
    let mut i: usize = 0;
    while i < cs.len()
        invariant
            i <= cs@.len(),
            out@ == cs@.take(i as int),
        decreases cs@.len() - i,
    {
        push_char(&mut out, cs[i]);
        assert(out@ =~= cs@.take(i + 1));
        i = i + 1;
    }
    assert(cs@.take(i as int) =~= cs@);
    out
}

/// The pieces of `s` between occurrences of `sep` (`str::split` with one separator char).
pub open spec fn split_on(s: Seq<char>, sep: char) -> Seq<Seq<char>>
    decreases s.len(),
{
    if s.len() == 0 {
        seq![Seq::<char>::empty()]
    } else {
        let rest = split_on(s.drop_last(), sep);
        if s.last() == sep {
            rest.push(Seq::<char>::empty())
        } else {
            rest.update(rest.len() - 1, rest.last().push(s.last()))
        }
    }
}

pub proof fn lemma_split_on_nonempty(s: Seq<char>, sep: char)
    ensures
        split_on(s, sep).len() >= 1,
    decreases s.len(),
{
    if s.len() > 0 {
        lemma_split_on_nonempty(s.drop_last(), sep);
    }
}

/// Text without `sep` is one piece.
pub proof fn lemma_split_on_plain(s: Seq<char>, sep: char)
    requires
        !s.contains(sep),
    ensures
        split_on(s, sep) == seq![s],
    decreases s.len(),
{
    if s.len() > 0 {
        assert(!s.drop_last().contains(sep)) by {
            if s.drop_last().contains(sep) {
                let j = choose|j: int| 0 <= j < s.drop_last().len() && s.drop_last()[j] == sep;
                assert(s[j] == sep);
            }
        }
        lemma_split_on_plain(s.drop_last(), sep);
        assert(s.last() != sep) by {
            assert(s[s.len() - 1] == s.last());
        }
        assert(s.drop_last().push(s.last()) =~= s);
    } else {
        assert(s =~= Seq::<char>::empty());
    }
}

/// A piece without `sep`, then `sep`, then the rest: the piece comes first, then the pieces
/// of the rest.
pub proof fn lemma_split_on_join(a: Seq<char>, sep: char, b: Seq<char>)
    requires
        !a.contains(sep),
    ensures
        split_on(a + seq![sep] + b, sep) == seq![a] + split_on(b, sep),
    decreases b.len(),
{
    let s = a + seq![sep] + b;
    if b.len() == 0 {
        assert(s.drop_last() =~= a);
        assert(s.last() == sep);
        lemma_split_on_plain(a, sep);
        assert(split_on(b, sep) == seq![Seq::<char>::empty()]);
        assert(split_on(s, sep) =~= seq![a] + split_on(b, sep));
    } else {
        assert(s.drop_last() =~= a + seq![sep] + b.drop_last());
        assert(s.last() == b.last());
        lemma_split_on_join(a, sep, b.drop_last());
        let rest = split_on(b.drop_last(), sep);
        lemma_split_on_nonempty(b.drop_last(), sep);
        if b.last() == sep {
            assert(split_on(s, sep) =~= seq![a] + split_on(b, sep));
        } else {
            let whole = seq![a] + rest;
            assert(whole.update(whole.len() - 1, whole.last().push(b.last())) =~= seq![a]
                + rest.update(rest.len() - 1, rest.last().push(b.last())));
            assert(split_on(s, sep) =~= seq![a] + split_on(b, sep));
        }
    }
}

/// Text, then `sep`, then a piece without `sep`: the pieces of the text, then that piece.
pub proof fn lemma_split_on_append(a: Seq<char>, sep: char, b: Seq<char>)
    requires
        !b.contains(sep),
    ensures
        split_on(a + seq![sep] + b, sep) == split_on(a, sep).push(b),
    decreases b.len(),
{
    let s = a + seq![sep] + b;
    if b.len() == 0 {
        assert(s.drop_last() =~= a);
        assert(s.last() == sep);
        assert(b =~= Seq::<char>::empty());
    } else {
        let d = b.drop_last();
        assert(!d.contains(sep)) by {
            if d.contains(sep) {
                let j = choose|j: int| 0 <= j < d.len() && d[j] == sep;
                assert(b[j] == sep);
            }
        }
        assert(s.drop_last() =~= a + seq![sep] + d);
        assert(s.last() == b.last());
        assert(b.last() != sep) by {
            assert(b[b.len() - 1] == b.last());
        }
        lemma_split_on_append(a, sep, d);
        let rest = split_on(a, sep).push(d);
        assert(rest.update(rest.len() - 1, rest.last().push(b.last())) =~= split_on(a, sep).push(b)) by {
            assert(d.push(b.last()) =~= b);
        }
    }
}

/// Splits `cs` at every `sep`, as `str::split` does.
pub fn split_chars(cs: &[char], sep: char) -> (r: Vec<Vec<char>>)
    ensures
        r@.len() == split_on(cs@, sep).len(),
        forall|i: int| 0 <= i < r@.len() ==> (#[trigger] r@[i])@ == split_on(cs@, sep)[i],
{
    let mut parts: Vec<Vec<char>> = Vec::new();
    let mut cur: Vec<char> = Vec::new();
    let mut i: usize = 0;
    assert(cs@.take(0) =~= Seq::<char>::empty());
    while i < cs.len()
        invariant
            i <= cs@.len(),
            parts@.len() + 1 == split_on(cs@.take(i as int), sep).len(),
            forall|j: int|
                0 <= j < parts@.len() ==> (#[trigger] parts@[j])@ == split_on(
                    cs@.take(i as int),
                    sep,
                )[j],
            cur@ == split_on(cs@.take(i as int), sep).last(),
        decreases cs@.len() - i,
    {
        proof {
            lemma_split_on_nonempty(cs@.take(i as int), sep);
            assert(cs@.take(i + 1).drop_last() =~= cs@.take(i as int));
            assert(cs@.take(i + 1).last() == cs@[i as int]);
        }
        let c = cs[i];
        if c == sep {
            let done = cur;
            parts.push(done);
            cur = Vec::new();
        } else {
            cur.push(c);
        }
        i = i + 1;
    }
    parts.push(cur);
    assert(cs@.take(i as int) =~= cs@);
    parts
}

/// Whether `k` is where the first `c` stands in `s`, or `s.len()` when there is none.
pub open spec fn is_first_pos(s: Seq<char>, c: char, k: int) -> bool {
    0 <= k <= s.len() && (forall|j: int| 0 <= j < k ==> s[j] != c) && (k == s.len() || s[k] == c)
}

/// Where the first `c` stands in `s`, or `s.len()` when there is none.
pub open spec fn first_pos(s: Seq<char>, c: char) -> int {
    choose|k: int| #[trigger] is_first_pos(s, c, k)
}

pub proof fn lemma_first_pos(s: Seq<char>, c: char, k: int)
    requires
        0 <= k <= s.len(),
        forall|j: int| 0 <= j < k ==> s[j] != c,
        k == s.len() || s[k] == c,
    ensures
        first_pos(s, c) == k,
{
    assert(is_first_pos(s, c, k));
    let p = first_pos(s, c);
    assert(is_first_pos(s, c, p));
    if p < k {
        assert(s[p] != c);
    }
    if k < p {
        assert(s[k] != c);
    }
}

/// [`first_pos`] is where the first `c` stands, or the length when there is none.
pub proof fn lemma_first_pos_found(s: Seq<char>, c: char)
    ensures
        is_first_pos(s, c, first_pos(s, c)),
{
    lemma_first_pos_from(s, c, 0);
}

proof fn lemma_first_pos_from(s: Seq<char>, c: char, k: int)
    requires
        0 <= k <= s.len(),
        forall|j: int| 0 <= j < k ==> s[j] != c,
    ensures
        is_first_pos(s, c, first_pos(s, c)),
    decreases s.len() - k,
{
    if k == s.len() || s[k] == c {
        lemma_first_pos(s, c, k);
    } else {
        lemma_first_pos_from(s, c, k + 1);
    }
}

/// The position of the first `c` in `cs`, or its length.
pub fn find_char(cs: &[char], c: char) -> (r: usize)
    ensures
        r == first_pos(cs@, c),
        r <= cs@.len(),
        r < cs@.len() ==> cs@[r as int] == c,
        forall|j: int| 0 <= j < r ==> cs@[j] != c,
{
    let mut k: usize = 0;
    while k < cs.len()
        invariant
            k <= cs@.len(),
            forall|j: int| 0 <= j < k ==> cs@[j] != c,
        decreases cs@.len() - k,
    {
        if cs[k] == c {
            proof {
                lemma_first_pos(cs@, c, k as int);
            }
            return k;
        }
        k = k + 1;
    }
    proof {
        lemma_first_pos(cs@, c, k as int);
    }
    k
}

/// The characters `cs[start..end]`.
pub fn char_range(cs: &[char], start: usize, end: usize) -> (r: Vec<char>)
    requires
        start <= end <= cs@.len(),
    ensures
        r@ == cs@.subrange(start as int, end as int),
{
    let mut out: Vec<char> = Vec::new();
    let mut i = start;
    while i < end
        invariant
            start <= i <= end,
            end <= cs@.len(),
            out@ == cs@.subrange(start as int, i as int),
        decreases end - i,
    {
        out.push(cs[i]);
        assert(out@ =~= cs@.subrange(start as int, i + 1));
        i = i + 1;
    }
    out
}

/// The decimal digit for `d < 10`.
pub open spec fn digit_char(d: nat) -> char {
    ((d + 48) as u32) as char
}

/// The decimal digits of `n`, most significant first, with no leading zero.
pub open spec fn decimal(n: nat) -> Seq<char>
    decreases n,
{
    if n < 10 {
        seq![digit_char(n)]
    } else {
        decimal(n / 10).push(digit_char(n % 10))
    }
}

/// `10` to the power `k`.
pub open spec fn pow10(k: nat) -> nat
    decreases k,
{
    if k == 0 {
        1
    } else {
        10 * pow10((k - 1) as nat)
    }
}

/// A number below `10^k`, for `k >= 1`, has at most `k` digits; every number has one at least.
pub proof fn lemma_decimal_len(n: nat, k: nat)
    ensures
        decimal(n).len() >= 1,
        k >= 1 && n < pow10(k) ==> decimal(n).len() <= k,
    decreases n,
{
    if n >= 10 {
        if k >= 2 && n < pow10(k) {
            let p = pow10((k - 1) as nat);
            assert(n / 10 < p) by (nonlinear_arith)
                requires
                    n < 10 * p,
            ;
            lemma_decimal_len(n / 10, (k - 1) as nat);
        } else {
            lemma_decimal_len(n / 10, 1);
            if k == 1 {
                assert(pow10(1) == 10) by {
                    reveal_with_fuel(pow10, 2);
                }
            }
        }
    }
}

fn digit(d: u64) -> (c: char)
    requires
        d < 10,
    ensures
        c == digit_char(d as nat),
{
    let b: u8 = (d as u8) + 48;
    b as char
}

/// The decimal text of `n`, as `format!("{n}")` writes it.
pub fn decimal_string(n: u64) -> (r: String)
    ensures
        r@ == decimal(n as nat),
    decreases n,
{
    if n < 10 {
        let cs = [digit(n)];
        assert(cs@ =~= seq![digit_char(n as nat)]);
        string_of(&cs)
    } else {
        let mut s = decimal_string(n / 10);
        push_char(&mut s, digit(n % 10));
        s
    }
}

/// `v` as `n` little-endian bytes.
pub open spec fn le_bytes(v: nat, n: nat) -> Seq<u8>
    decreases n,
{
    if n == 0 {
        seq![]
    } else {
        seq![(v % 256) as u8] + le_bytes(v / 256, (n - 1) as nat)
    }
}

/// `u64::to_le_bytes`.
pub fn u64_le_bytes(v: u64) -> (r: Vec<u8>)
    ensures
        r@ == le_bytes(v as nat, 8),
{
    let mut out: Vec<u8> = Vec::new();
    let mut x = v;
    let mut i: usize = 0;
    while i < 8
        invariant
            i <= 8,
            out@ + le_bytes(x as nat, (8 - i) as nat) == le_bytes(v as nat, 8),
        decreases 8 - i,
    {
        let ghost before = x;
        out.push((x % 256) as u8);
        x = x / 256;
        proof {
            assert(le_bytes(before as nat, (8 - i) as nat) == seq![(before % 256) as u8]
                + le_bytes(x as nat, (8 - i - 1) as nat));
        }
        assert(out@ + le_bytes(x as nat, (8 - i - 1) as nat) =~= le_bytes(v as nat, 8));
        i = i + 1;
    }
    assert(out@ =~= out@ + le_bytes(x as nat, 0));
    out
}

/// Appends `data` to `out`.
pub fn append(out: &mut Vec<u8>, data: &[u8])
    ensures
        final(out)@ == old(out)@ + data@,
{
    let mut i: usize = 0;
    let ghost start = out@;
    while i < data.len()
        invariant
            i <= data@.len(),
            out@ == start + data@.take(i as int),
        decreases data@.len() - i,
    {
        out.push(data[i]);
        assert(out@ =~= start + data@.take(i + 1));
        i = i + 1;
    }
    assert(data@.take(i as int) =~= data@);
}

/// The number a little-endian byte string stands for.
pub open spec fn le_value(b: Seq<u8>) -> nat
    decreases b.len(),
{
    if b.len() == 0 {
        0
    } else {
        b[0] as nat + 256 * le_value(b.drop_first())
    }
}

/// `256` to the power `n`.
pub open spec fn pow256(n: nat) -> nat
    decreases n,
{
    if n == 0 {
        1
    } else {
        256 * pow256((n - 1) as nat)
    }
}

/// Reading back `n` little-endian bytes of `v` gives `v`, when `v` fits in them.
pub proof fn lemma_le_roundtrip(v: nat, n: nat)
    requires
        v < pow256(n),
    ensures
        le_bytes(v, n).len() == n,
        le_value(le_bytes(v, n)) == v,
    decreases n,
{
    if n > 0 {
        let p = pow256((n - 1) as nat);
        assert(v / 256 < p) by (nonlinear_arith)
            requires
                v < 256 * p,
        ;
        lemma_le_roundtrip(v / 256, (n - 1) as nat);
        let b = le_bytes(v, n);
        assert(b.drop_first() =~= le_bytes(v / 256, (n - 1) as nat));
        assert(v == (v % 256) + 256 * (v / 256)) by (nonlinear_arith);
    } else {
        assert(v == 0);
    }
}

/// `u32::to_le_bytes`.
pub fn u32_le_bytes(v: u32) -> (r: Vec<u8>)
    ensures
        r@ == le_bytes(v as nat, 4),
{
    let mut out: Vec<u8> = Vec::new();
    let mut x = v;
    let mut i: usize = 0;
    while i < 4
        invariant
            i <= 4,
            out@ + le_bytes(x as nat, (4 - i) as nat) == le_bytes(v as nat, 4),
        decreases 4 - i,
    {
        let ghost before = x;
        out.push((x % 256) as u8);
        x = x / 256;
        proof {
            assert(le_bytes(before as nat, (4 - i) as nat) == seq![(before % 256) as u8]
                + le_bytes(x as nat, (4 - i - 1) as nat));
        }
        assert(out@ + le_bytes(x as nat, (4 - i - 1) as nat) =~= le_bytes(v as nat, 4));
        i = i + 1;
    }
    assert(out@ =~= out@ + le_bytes(x as nat, 0));
    out
}

/// `u32::from_le_bytes` of the first four bytes of `b`.
pub fn u32_from_le(b: &[u8]) -> (r: u32)
    requires
        b@.len() >= 4,
    ensures
        r == le_value(b@.take(4)),
{
    let v: u32 = (b[0] as u32) + 256 * ((b[1] as u32) + 256 * ((b[2] as u32) + 256 * (b[3]
        as u32)));
    proof {
        let s = b@.take(4);
        let s3 = s.drop_first().drop_first().drop_first();
        assert(s3.drop_first().len() == 0);
        assert(le_value(s3.drop_first()) == 0);
        assert(s3[0] == b@[3]);
        assert(s.drop_first().drop_first()[0] == b@[2]);
        assert(s.drop_first()[0] == b@[1]);
        assert(le_value(s.drop_first().drop_first().drop_first()) == b@[3] as nat);
        assert(le_value(s.drop_first().drop_first()) == b@[2] + 256 * (b@[3] as nat));
        assert(le_value(s.drop_first()) == b@[1] + 256 * (b@[2] + 256 * (b@[3] as nat)));
    }
    v
}

} // verus!
