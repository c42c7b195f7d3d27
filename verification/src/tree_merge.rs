//! Merging file trees: the changes git reports between runs, how they are merged one way,
//! and what applying each one to a destination tree does.

use vstd::prelude::*;
use crate::text::{char_range, chars_of, find_char, first_pos, push_char, push_str, string_of};
use crate::transfer::sum_sizes;
use crate::hex::hex_encode_spec;

verus! {

/// The directory, inside a repository, that mirrors a file tree.
pub const TREE_DIR: &'static str = "tree";

/// One change to a path.
#[derive(Debug, Clone, PartialEq, Eq)]
pub enum Change {
    Add,
    Modify,
    Delete,
    /// Renamed from the path it carries.
    Rename(String),
    /// Copied from the path it carries.
    Copy(String),
}

/// The short form of a change, as the tool prints it.
pub open spec fn change_text(c: Change) -> Seq<char> {
    match c {
        Change::Add => "A"@,
        Change::Modify => "M"@,
        Change::Delete => "D"@,
        Change::Rename(name) => "R '"@ + name@ + "' ->"@,
        Change::Copy(name) => "C '"@ + name@ + "' ->"@,
    }
}

impl Change {
    /// The short form of the change: `A`, `M`, `D`, `R '<old>' ->` or `C '<old>' ->`.
    pub fn to_text(&self) -> (r: String)
        ensures
            r@ == change_text(*self),
    {
        match self {
            Change::Add => "A".to_owned(),
            Change::Modify => "M".to_owned(),
            Change::Delete => "D".to_owned(),
            Change::Rename(name) => {
                let mut s = "R '".to_owned();
                push_str(&mut s, name.as_str());
                push_str(&mut s, "' ->");
                s
            },
            Change::Copy(name) => {
                let mut s = "C '".to_owned();
                push_str(&mut s, name.as_str());
                push_str(&mut s, "' ->");
                s
            },
        }
    }
}

/// How changes are carried between trees.
#[derive(Debug, Clone, Copy, PartialEq, Eq, Structural)]
pub enum MergeStrategy {
    Copy,
    Move,
    OneWay,
    TwoWay,
}

/// Which hash compares file contents.
#[derive(Debug, Clone, Copy, PartialEq, Eq, Structural)]
pub enum HashKind {
    Md5,
    Sha1,
    Sha256,
}

/// `s` without the quotes git puts around a path with unusual characters: an escaped pair
/// `\"..\"` or a plain pair `".."`. `None` when the opening quote has no closing one.
pub open spec fn unquote_spec(s: Seq<char>) -> Option<Seq<char>> {
    let esc = seq!['\\', '"'];
    if s.len() >= 2 && s.take(2) == esc {
        let rest = s.skip(2);
        if rest.len() >= 2 && rest.skip(rest.len() - 2) == esc {
            Some(rest.take(rest.len() - 2))
        } else {
            None
        }
    } else if s.len() >= 1 && s[0] == '"' {
        let rest = s.skip(1);
        if rest.len() >= 1 && rest.last() == '"' {
            Some(rest.drop_last())
        } else {
            None
        }
    } else {
        Some(s)
    }
}

fn unquote(s: &[char]) -> (r: Option<Vec<char>>)
    ensures
        match unquote_spec(s@) {
            Some(v) => r matches Some(w) && w@ == v,
            None => r is None,
        },
{
    let n = s.len();
    if n >= 2 && s[0] == '\\' && s[1] == '"' {
        proof {
            assert(s@.take(2) =~= seq!['\\', '"']);
        }
        if n >= 4 && s[n - 2] == '\\' && s[n - 1] == '"' {
            proof {
                assert(s@.skip(2).skip(s@.skip(2).len() - 2) =~= seq!['\\', '"']);
            }
            let v = crate::text::char_range(s, 2, n - 2);
            assert(v@ =~= s@.skip(2).take(s@.skip(2).len() - 2));
            Some(v)
        } else {
            proof {
                let rest = s@.skip(2);
                if rest.len() >= 2 {
                    assert(rest.skip(rest.len() - 2)[0] == s@[n - 2]);
                    assert(rest.skip(rest.len() - 2)[1] == s@[n - 1]);
                }
            }
            None
        }
    } else if n >= 1 && s[0] == '"' {
        proof {
            if n >= 2 && s@[0] == '\\' {
            }
            if n >= 2 {
                assert(s@.take(2)[0] == s@[0]);
            }
        }
        if n >= 2 && s[n - 1] == '"' {
            let v = crate::text::char_range(s, 1, n - 1);
            assert(v@ =~= s@.skip(1).drop_last());
            Some(v)
        } else {
            None
        }
    } else {
        proof {
            if n >= 2 {
                assert(s@.take(2)[0] == s@[0]);
            }
        }
        let v = crate::text::char_range(s, 0, n);
        assert(v@ =~= s@);
        Some(v)
    }
}

/// The plain values of a [`Change`].
pub enum ChangeModel {
    Add,
    Modify,
    Delete,
    Rename(Seq<char>),
    Copy(Seq<char>),
}

pub open spec fn change_model(c: Change) -> ChangeModel {
    match c {
        Change::Add => ChangeModel::Add,
        Change::Modify => ChangeModel::Modify,
        Change::Delete => ChangeModel::Delete,
        Change::Rename(n) => ChangeModel::Rename(n@),
        Change::Copy(n) => ChangeModel::Copy(n@),
    }
}

/// Whether ` -> ` stands at `i` in `s`.
pub open spec fn arrow_at(s: Seq<char>, i: int) -> bool {
    0 <= i && i + 4 <= s.len() && s[i] == ' ' && s[i + 1] == '-' && s[i + 2] == '>' && s[i + 3]
        == ' '
}

/// Where ` -> ` first stands in `s` at or after `from`, or `s.len()`.
pub open spec fn first_arrow(s: Seq<char>, from: int) -> int
    decreases s.len() - from,
{
    if from < 0 || from + 4 > s.len() {
        s.len() as int
    } else if arrow_at(s, from) {
        from
    } else {
        first_arrow(s, from + 1)
    }
}

proof fn lemma_first_arrow_skip(s: Seq<char>, from: int, i: int)
    requires
        0 <= from <= i,
        i + 4 <= s.len() + 4,
        forall|j: int| from <= j < i ==> !arrow_at(s, j),
    ensures
        first_arrow(s, from) == first_arrow(s, i),
    decreases i - from,
{
    if from < i {
        if from + 4 > s.len() {
            if i + 4 > s.len() {
            } else {
                assert(false);
            }
        } else {
            lemma_first_arrow_skip(s, from + 1, i);
        }
    }
}

/// What one line of `git status -s` reports: the change from its first character, and the
/// path from the fourth on. A rename or copy reads `old -> new`; quoted paths lose their
/// quotes. `None` for a line the tool does not understand: an unknown change, a rename or
/// copy without ` -> `, or a quote that is not closed.
pub open spec fn status_line_spec(line: Seq<char>) -> Option<(ChangeModel, Seq<char>)> {
    if line.len() == 0 {
        None
    } else {
        let code = line[0];
        let rest = if line.len() > 3 { line.skip(3) } else { Seq::<char>::empty() };
        if code == 'M' || code == 'A' || code == 'D' {
            match unquote_spec(rest) {
                Some(p) => Some((
                    if code == 'M' {
                        ChangeModel::Modify
                    } else if code == 'A' {
                        ChangeModel::Add
                    } else {
                        ChangeModel::Delete
                    },
                    p,
                )),
                None => None,
            }
        } else if code == 'R' || code == 'C' {
            let k = first_arrow(rest, 0);
            if k >= rest.len() {
                None
            } else {
                let end = first_arrow(rest, k + 4);
                match (unquote_spec(rest.take(k)), unquote_spec(rest.subrange(k + 4, end))) {
                    (Some(old), Some(new)) => Some((
                        if code == 'R' {
                            ChangeModel::Rename(old)
                        } else {
                            ChangeModel::Copy(old)
                        },
                        new,
                    )),
                    _ => None,
                }
            }
        } else {
            None
        }
    }
}

/// `p` between double quotes, as git writes a path with unusual characters.
pub open spec fn quoted(p: Seq<char>) -> Seq<char> {
    seq!['"'] + p + seq!['"']
}

/// Whether ` -> ` stands nowhere in `p`.
pub open spec fn arrow_free(p: Seq<char>) -> bool {
    forall|i: int| !#[trigger] arrow_at(p, i)
}

proof fn lemma_no_arrow_in_quoted(s: Seq<char>, off: int, p: Seq<char>)
    requires
        0 <= off,
        off + p.len() + 2 <= s.len(),
        s.subrange(off, off + p.len() + 2) == quoted(p),
        arrow_free(p),
    ensures
        forall|j: int| off <= j < off + p.len() + 2 ==> !#[trigger] arrow_at(s, j),
{
    let q = quoted(p);
    let c = off + p.len() + 1;
    assert(s[off] == q[0]);
    assert(s[c] == q[p.len() + 1int]);
    assert forall|j: int| off <= j < off + p.len() + 2 implies !#[trigger] arrow_at(s, j) by {
        if arrow_at(s, j) {
            if j == off {
                assert(s[off] == '"');
            } else if j + 3 >= c {
                assert(s[c] == '"');
                assert(c == j || c == j + 1 || c == j + 2 || c == j + 3);
            } else {
                let i = j - off - 1;
                assert(0 <= i && i + 4 <= p.len());
                let w = s.subrange(off, off + p.len() + 2);
                assert(w[j - off] == s[j] && q[j - off] == p[i]);
                assert(w[j + 1 - off] == s[j + 1] && q[j + 1 - off] == p[i + 1]);
                assert(w[j + 2 - off] == s[j + 2] && q[j + 2 - off] == p[i + 2]);
                assert(w[j + 3 - off] == s[j + 3] && q[j + 3 - off] == p[i + 3]);
                assert(s[j] == p[i] && s[j + 1] == p[i + 1] && s[j + 2] == p[i + 2] && s[j + 3] == p[i + 3]);
                assert(arrow_at(p, i));
            }
        }
    }
}

/// A rename or copy line of `git status -s` whose two paths git quoted reads as the change
/// from the old path to the new one, both without their quotes, whatever the paths hold
/// besides an arrow.
pub proof fn lemma_quoted_rename_line(code: char, old: Seq<char>, new: Seq<char>)
    requires
        code == 'R' || code == 'C',
        arrow_free(old),
        arrow_free(new),
    ensures
        status_line_spec(seq![code, ' ', ' '] + quoted(old) + " -> "@ + quoted(new)) == Some((
            if code == 'R' {
                ChangeModel::Rename(old)
            } else {
                ChangeModel::Copy(old)
            },
            new,
        )),
{
    reveal_strlit(" -> ");
    let arrow = " -> "@;
    let line = seq![code, ' ', ' '] + quoted(old) + arrow + quoted(new);
    let rest = line.skip(3);
    let a: int = old.len() + 2int;
    let n = rest.len() as int;
    assert(rest =~= quoted(old) + arrow + quoted(new));
    assert(n == a + 4 + new.len() + 2);
    assert(rest.subrange(0, a) =~= quoted(old));
    assert(rest.subrange(a + 4, n) =~= quoted(new));
    lemma_no_arrow_in_quoted(rest, 0, old);
    lemma_no_arrow_in_quoted(rest, a + 4, new);
    assert(arrow_at(rest, a)) by {
        assert(rest[a] == arrow[0] && rest[a + 1] == arrow[1] && rest[a + 2] == arrow[2] && rest[a + 3]
            == arrow[3]);
    }
    lemma_first_arrow_skip(rest, 0, a);
    assert(first_arrow(rest, 0) == a);
    assert forall|j: int| a + 4 <= j < n implies !arrow_at(rest, j) by {
        assert(a + 4 <= j < a + 4 + new.len() + 2);
    }
    lemma_first_arrow_skip(rest, a + 4, n);
    assert(first_arrow(rest, a + 4) == n);
    assert(rest.take(a) =~= quoted(old));
    let qo = quoted(old);
    assert(qo[0] == '"');
    assert(qo.take(2) != seq!['\\', '"']) by {
        assert(qo.take(2)[0] == '"');
    }
    assert(qo.skip(1).drop_last() =~= old);
    assert(unquote_spec(qo) == Some(old));
    let qn = quoted(new);
    assert(qn[0] == '"');
    assert(qn.take(2) != seq!['\\', '"']) by {
        assert(qn.take(2)[0] == '"');
    }
    assert(qn.skip(1).drop_last() =~= new);
    assert(unquote_spec(qn) == Some(new));
    assert(line[0] == code);
}

/// An addition, modification or deletion line reads as that change of its path, without the
/// quotes git put around it, or as it stands when it is plain.
pub proof fn lemma_single_path_line(code: char, p: Seq<char>, was_quoted: bool)
    requires
        code == 'M' || code == 'A' || code == 'D',
        !was_quoted ==> p.len() > 0 && p[0] != '"' && p[0] != '\\',
    ensures
        status_line_spec(seq![code, ' ', ' '] + if was_quoted { quoted(p) } else { p }) == Some((
            if code == 'M' {
                ChangeModel::Modify
            } else if code == 'A' {
                ChangeModel::Add
            } else {
                ChangeModel::Delete
            },
            p,
        )),
{
    let body = if was_quoted { quoted(p) } else { p };
    let line = seq![code, ' ', ' '] + body;
    assert(line.skip(3) =~= body);
    assert(line[0] == code);
    if was_quoted {
        let qp = quoted(p);
        assert(qp[0] == '"');
        assert(qp.take(2) != seq!['\\', '"']) by {
            assert(qp.take(2)[0] == '"');
        }
        assert(qp.skip(1).drop_last() =~= p);
    } else {
        if p.len() >= 2 {
            assert(p.take(2) != seq!['\\', '"']) by {
                assert(p.take(2)[0] == p[0]);
            }
        }
    }
}

/// Reads one line of `git status -s`.
pub fn parse_status_line(line: &str) -> (r: Option<(Change, String)>)
    ensures
        match status_line_spec(line@) {
            None => r is None,
            Some((c, p)) => r matches Some((rc, rp)) && change_model(rc) == c && rp@ == p,
        },
{
    let cs = chars_of(line);
    if cs.len() == 0 {
        return None;
    }
    let code = cs[0];
    let rest: Vec<char> = if cs.len() > 3 {
        crate::text::char_range(cs.as_slice(), 3, cs.len())
    } else {
        Vec::new()
    };
    assert(rest@ =~= if cs@.len() > 3 { cs@.skip(3) } else { Seq::<char>::empty() });
    if code == 'M' || code == 'A' || code == 'D' {
        let path = match unquote(rest.as_slice()) {
            Some(p) => p,
            None => return None,
        };
        let change = if code == 'M' {
            Change::Modify
        } else if code == 'A' {
            Change::Add
        } else {
            Change::Delete
        };
        return Some((change, string_of(path.as_slice())));
    }
    if code == 'R' || code == 'C' {
        let k = find_arrow_from(rest.as_slice(), 0);
        if k >= rest.len() {
            return None;
        }
        let old_raw = crate::text::char_range(rest.as_slice(), 0, k);
        let end = find_arrow_from(rest.as_slice(), k + 4);
        let new_raw = crate::text::char_range(rest.as_slice(), k + 4, end);
        assert(old_raw@ =~= rest@.take(k as int));
        let old = match unquote(old_raw.as_slice()) {
            Some(p) => p,
            None => return None,
        };
        let new = match unquote(new_raw.as_slice()) {
            Some(p) => p,
            None => return None,
        };
        let old_s = string_of(old.as_slice());
        let change = if code == 'R' {
            Change::Rename(old_s)
        } else {
            Change::Copy(old_s)
        };
        return Some((change, string_of(new.as_slice())));
    }
    None
}

/// Where ` -> ` first stands in `s` at or after `from`, or `s.len()`.
fn find_arrow_from(s: &[char], from: usize) -> (r: usize)
    requires
        from <= s@.len(),
    ensures
        r == first_arrow(s@, from as int),
        from <= r <= s@.len(),
        r < s@.len() ==> r + 4 <= s@.len(),
{
    let mut i = from;
    let n = s.len();
    while i < n && n - i >= 4
        invariant
            from <= i,
            i <= s@.len(),
            n == s@.len(),
            forall|j: int| from <= j < i ==> !arrow_at(s@, j),
        decreases s@.len() - i,
    {
        if s[i] == ' ' && s[i + 1] == '-' && s[i + 2] == '>' && s[i + 3] == ' ' {
            proof {
                lemma_first_arrow_skip(s@, from as int, i as int);
            }
            return i;
        }
        i = i + 1;
    }
    proof {
        lemma_first_arrow_skip(s@, from as int, i as int);
    }
    s.len()
}

/// One `git` invocation in a repository: its arguments, and whether its failure is an error
/// (`false` for a step whose failure is ignored).
pub struct GitCommand {
    pub args: Vec<String>,
    pub must_succeed: bool,
}

/// The arguments of a command, as plain text.
pub open spec fn args_of(c: GitCommand) -> Seq<Seq<char>> {
    c.args@.map_values(|a: String| a@)
}

fn strings(parts: &[&str]) -> (r: Vec<String>)
    ensures
        r@.len() == parts@.len(),
        forall|i: int| 0 <= i < parts@.len() ==> (#[trigger] r@[i])@ == parts@[i]@,
{
    let mut out: Vec<String> = Vec::new();
    let mut i: usize = 0;
    while i < parts.len()
        invariant
            i <= parts@.len(),
            out@.len() == i,
            forall|j: int| 0 <= j < i ==> (#[trigger] out@[j])@ == parts@[j]@,
        decreases parts@.len() - i,
    {
        out.push(parts[i].to_owned());
        i = i + 1;
    }
    out
}

fn command(parts: &[&str], must_succeed: bool) -> (r: GitCommand)
    ensures
        args_of(r) == parts@.map_values(|p: &str| p@),
        r.must_succeed == must_succeed,
{
    let args = strings(parts);
    let r = GitCommand { args, must_succeed };
    assert(args_of(r) =~= parts@.map_values(|p: &str| p@));
    r
}

/// `git status -s`: the short status, whose lines [`parse_status_line`] reads.
pub fn git_status() -> (r: GitCommand)
    ensures
        args_of(r) == seq!["status"@, "-s"@],
        r.must_succeed,
{
    let r = command(&["status", "-s"], true);
    assert(args_of(r) =~= seq!["status"@, "-s"@]);
    r
}

/// `git add <path_specs>`.
pub fn git_add(path_specs: &str) -> (r: GitCommand)
    ensures
        args_of(r) == seq!["add"@, path_specs@],
        r.must_succeed,
{
    let r = command(&["add", path_specs], true);
    assert(args_of(r) =~= seq!["add"@, path_specs@]);
    r
}

/// Unstages `path_specs`: removes them from the index, then restores the index; a failure of
/// the second step is ignored.
pub fn git_restore_staged(path_specs: &str) -> (r: Vec<GitCommand>)
    ensures
        r@.len() == 2,
        args_of(r@[0]) == seq!["rm"@, "--cached"@, "--ignore-unmatch"@, "-r"@, path_specs@],
        r@[0].must_succeed,
        args_of(r@[1]) == seq!["restore"@, "--staged"@, path_specs@],
        !r@[1].must_succeed,
{
    let a = command(&["rm", "--cached", "--ignore-unmatch", "-r", path_specs], true);
    let b = command(&["restore", "--staged", path_specs], false);
    assert(args_of(a) =~= seq!["rm"@, "--cached"@, "--ignore-unmatch"@, "-r"@, path_specs@]);
    assert(args_of(b) =~= seq!["restore"@, "--staged"@, path_specs@]);
    let mut r: Vec<GitCommand> = Vec::new();
    r.push(a);
    r.push(b);
    r
}

/// `git commit --allow-empty -m "changes"`, with the quotes in the message.
pub fn git_commit() -> (r: GitCommand)
    ensures
        args_of(r) == seq!["commit"@, "--allow-empty"@, "-m"@, "\"changes\""@],
        r.must_succeed,
{
    let r = command(&["commit", "--allow-empty", "-m", "\"changes\""], true);
    assert(args_of(r) =~= seq!["commit"@, "--allow-empty"@, "-m"@, "\"changes\""@]);
    r
}

/// Replaces the history with one commit of the current tree: an orphan branch, everything
/// added and committed, the old `master` deleted and the new branch renamed to it.
pub fn git_delete_history() -> (r: Vec<GitCommand>)
    ensures
        r@.len() == 5,
        forall|i: int| 0 <= i < 5 ==> (#[trigger] r@[i]).must_succeed,
        args_of(r@[0]) == seq!["checkout"@, "--orphan"@, "latest_branch"@],
        args_of(r@[1]) == seq!["add"@, "-A"@],
        args_of(r@[2]) == seq!["commit"@, "--allow-empty"@, "-m"@, "\"changes\""@],
        args_of(r@[3]) == seq!["branch"@, "-D"@, "master"@],
        args_of(r@[4]) == seq!["branch"@, "-m"@, "master"@],
{
    let a = command(&["checkout", "--orphan", "latest_branch"], true);
    assert(args_of(a) =~= seq!["checkout"@, "--orphan"@, "latest_branch"@]);
    let b = git_add("-A");
    let c = git_commit();
    let d = command(&["branch", "-D", "master"], true);
    assert(args_of(d) =~= seq!["branch"@, "-D"@, "master"@]);
    let e = command(&["branch", "-m", "master"], true);
    assert(args_of(e) =~= seq!["branch"@, "-m"@, "master"@]);
    let mut r: Vec<GitCommand> = Vec::new();
    r.push(a);
    r.push(b);
    r.push(c);
    r.push(d);
    r.push(e);
    r
}

/// Why a merge could not be planned.
#[derive(Debug, Clone, Copy, PartialEq, Eq, Structural)]
pub enum MergeError {
    /// Fewer than two trees were given.
    TooFewPaths,
}

/// A one-way merge of `n_paths` trees: the first tree is the source of every change. The
/// first entry is empty; each other tree receives a copy of the first tree's changes.
pub fn merge(first_changes: &Vec<(Change, String)>, n_paths: usize, strategy: MergeStrategy) -> (r: Result<Vec<Vec<(Change, String)>>, MergeError>)
    requires
        n_paths >= 2 ==> strategy == MergeStrategy::OneWay,
    ensures
        n_paths < 2 ==> r == Err::<Vec<Vec<(Change, String)>>, MergeError>(MergeError::TooFewPaths),
        n_paths >= 2 ==> (r matches Ok(m) && m@.len() == n_paths && m@[0]@.len() == 0
            && forall|k: int| 1 <= k < n_paths ==> (#[trigger] m@[k])@.len() == first_changes@.len()
                && forall|j: int| 0 <= j < first_changes@.len() ==> change_model(m@[k]@[j].0)
                    == change_model(first_changes@[j].0) && m@[k]@[j].1@ == first_changes@[j].1@),
{
    if n_paths < 2 {
        return Err(MergeError::TooFewPaths);
    }
    let mut out: Vec<Vec<(Change, String)>> = Vec::new();
    out.push(Vec::new());
    let mut k: usize = 1;
    while k < n_paths
        invariant
            1 <= k <= n_paths,
            out@.len() == k,
            out@[0]@.len() == 0,
            forall|q: int| 1 <= q < k ==> (#[trigger] out@[q])@.len() == first_changes@.len()
                && forall|j: int| 0 <= j < first_changes@.len() ==> change_model(out@[q]@[j].0)
                    == change_model(first_changes@[j].0) && out@[q]@[j].1@ == first_changes@[j].1@,
        decreases n_paths - k,
    {
        let copy = copy_changes(first_changes);
        out.push(copy);
        k = k + 1;
    }
    Ok(out)
}

fn copy_change(c: &Change) -> (r: Change)
    ensures
        change_model(r) == change_model(*c),
{
    match c {
        Change::Add => Change::Add,
        Change::Modify => Change::Modify,
        Change::Delete => Change::Delete,
        Change::Rename(n) => Change::Rename(n.clone()),
        Change::Copy(n) => Change::Copy(n.clone()),
    }
}

fn copy_changes(cs: &Vec<(Change, String)>) -> (r: Vec<(Change, String)>)
    ensures
        r@.len() == cs@.len(),
        forall|j: int| 0 <= j < cs@.len() ==> change_model((#[trigger] r@[j]).0) == change_model(
            cs@[j].0,
        ) && r@[j].1@ == cs@[j].1@,
{
    let mut out: Vec<(Change, String)> = Vec::new();
    let mut i: usize = 0;
    while i < cs.len()
        invariant
            i <= cs@.len(),
            out@.len() == i,
            forall|j: int| 0 <= j < i ==> change_model((#[trigger] out@[j]).0) == change_model(
                cs@[j].0,
            ) && out@[j].1@ == cs@[j].1@,
        decreases cs@.len() - i,
    {
        out.push((copy_change(&cs[i].0), cs[i].1.clone()));
        i = i + 1;
    }
    out
}

/// What one file looks like for comparing contents: its size and modification time.
#[derive(Debug, Clone, Copy, PartialEq, Eq, Structural)]
pub struct ItemStamp {
    pub size: u64,
    pub mtime_secs: u64,
    pub mtime_nanos: u32,
}

/// Whether two files are taken to hold the same content: the same size and modification
/// time, and, when checksums are asked for, the same hashes.
pub fn items_content_eq(a: ItemStamp, b: ItemStamp, checksum: bool, hashes: Option<(&str, &str)>) -> (r: bool)
    requires
        checksum && a == b ==> hashes is Some,
    ensures
        r == (a == b && (!checksum || match hashes {
            Some((h1, h2)) => h1@ == h2@,
            None => false,
        })),
{
    if a.size == b.size && a.mtime_secs == b.mtime_secs && a.mtime_nanos == b.mtime_nanos {
        if checksum {
            match hashes {
                Some((h1, h2)) => h1.to_owned() == h2.to_owned(),
                None => false,
            }
        } else {
            true
        }
    } else {
        false
    }
}

/// Whether a content comparison needs the files' hashes.
pub fn needs_hashes(a: ItemStamp, b: ItemStamp, checksum: bool) -> (r: bool)
    ensures
        r == (checksum && a == b),
{
    checksum && a.size == b.size && a.mtime_secs == b.mtime_secs && a.mtime_nanos == b.mtime_nanos
}

/// What applying one change to the destination tree does.
#[derive(Debug, Clone, Copy, PartialEq, Eq, Structural)]
pub enum ApplyStep {
    /// Nothing to write: the destination already matches, or the run is dry.
    Skip,
    /// Copy the source file over the destination, then check its CRC when asked.
    CopyFromSource { check_crc: bool },
    /// Copy the destination's old file to the new name.
    CopyWithinDestination { check_crc: bool },
    /// Rename the destination's old file to the new name.
    RenameWithinDestination,
    /// Remove the destination file.
    Remove,
}

/// What one change does, and whether it counts as synced. `dst_same` says whether the
/// destination already holds the same content (for an addition or a modification),
/// `dst_exists` whether the destination path exists (for a deletion), and `old_exists`
/// whether the old path of a rename or copy exists in the destination.
pub open spec fn apply_spec(change: ChangeModel, dst_same: bool, dst_exists: bool, old_exists: bool, dry_run: bool, crc: bool) -> (ApplyStep, bool) {
    match change {
        ChangeModel::Add | ChangeModel::Modify => if dst_same {
            (ApplyStep::Skip, false)
        } else if dry_run {
            (ApplyStep::Skip, false)
        } else {
            (ApplyStep::CopyFromSource { check_crc: crc }, true)
        },
        ChangeModel::Delete => if dst_exists && dry_run {
            (ApplyStep::Skip, false)
        } else if dst_exists {
            (ApplyStep::Remove, true)
        } else {
            (ApplyStep::Skip, true)
        },
        ChangeModel::Rename(_) => if dry_run {
            (ApplyStep::Skip, false)
        } else if old_exists {
            (ApplyStep::RenameWithinDestination, true)
        } else {
            (ApplyStep::CopyFromSource { check_crc: crc }, true)
        },
        ChangeModel::Copy(_) => if dry_run {
            (ApplyStep::Skip, false)
        } else if old_exists {
            (ApplyStep::CopyWithinDestination { check_crc: crc }, true)
        } else {
            (ApplyStep::CopyFromSource { check_crc: crc }, true)
        },
    }
}

/// What applying changes may do, over every input: a dry run never touches the destination;
/// a file is removed exactly when a deletion meets an existing destination outside a dry
/// run; an addition or modification copies from the source exactly when the destination
/// differs and the run is real; and whatever is done counts as synced.
pub proof fn lemma_apply_plan(change: ChangeModel, dst_same: bool, dst_exists: bool, old_exists: bool, dry_run: bool, crc: bool)
    ensures
        ({
            let (step, synced) = apply_spec(change, dst_same, dst_exists, old_exists, dry_run, crc);
            &&& dry_run ==> step == ApplyStep::Skip
            &&& (step == ApplyStep::Remove) <==> (change is Delete && dst_exists && !dry_run)
            &&& (change is Add || change is Modify) ==> ((step == ApplyStep::CopyFromSource {
                check_crc: crc,
            }) <==> (!dst_same && !dry_run))
            &&& step != ApplyStep::Skip ==> synced
            &&& (change is Rename && !dry_run) ==> step == (if old_exists {
                ApplyStep::RenameWithinDestination
            } else {
                ApplyStep::CopyFromSource { check_crc: crc }
            })
            &&& (change is Copy && !dry_run) ==> step == (if old_exists {
                ApplyStep::CopyWithinDestination { check_crc: crc }
            } else {
                ApplyStep::CopyFromSource { check_crc: crc }
            })
        }),
{
}

/// Decides what one change does to the destination tree.
pub fn plan_apply(change: &Change, dst_same: bool, dst_exists: bool, old_exists: bool, dry_run: bool, crc: bool) -> (r: (ApplyStep, bool))
    ensures
        r == apply_spec(change_model(*change), dst_same, dst_exists, old_exists, dry_run, crc),
{
    match change {
        Change::Add | Change::Modify => {
            if dst_same || dry_run {
                (ApplyStep::Skip, false)
            } else {
                (ApplyStep::CopyFromSource { check_crc: crc }, true)
            }
        },
        Change::Delete => {
            if dst_exists && dry_run {
                (ApplyStep::Skip, false)
            } else if dst_exists {
                (ApplyStep::Remove, true)
            } else {
                (ApplyStep::Skip, true)
            }
        },
        Change::Rename(_) => {
            if dry_run {
                (ApplyStep::Skip, false)
            } else if old_exists {
                (ApplyStep::RenameWithinDestination, true)
            } else {
                (ApplyStep::CopyFromSource { check_crc: crc }, true)
            }
        },
        Change::Copy(_) => {
            if dry_run {
                (ApplyStep::Skip, false)
            } else if old_exists {
                (ApplyStep::CopyWithinDestination { check_crc: crc }, true)
            } else {
                (ApplyStep::CopyFromSource { check_crc: crc }, true)
            }
        },
    }
}

/// Whether the `count`-th change is printed: every `batch`-th one, or all of them.
pub fn should_print(count: u64, batch: u64, print_all: bool) -> (r: bool)
    requires
        batch > 0,
    ensures
        r == (count % batch == 0 || print_all),
{
    count % batch == 0 || print_all
}

/// The error for a copy whose CRC differs after the transfer.
pub fn crc_failure(path: &str) -> (r: String)
    ensures
        r@ == "CRC check failed for `"@ + path@ + "` after transfer"@,
{
    let mut s = "CRC check failed for `".to_owned();
    push_str(&mut s, path);
    push_str(&mut s, "` after transfer");
    s
}

/// How long to wait before retry number `retries`: `2^retries` seconds, or `None` once
/// `count` retries have been spent.
pub fn retry_delay(retries: u32, count: u32) -> (r: Option<u64>)
    requires
        count < 64,
    ensures
        retries > count ==> r is None,
        retries <= count ==> r == Some(vstd::arithmetic::power2::pow2(retries as nat) as u64),
{
    if retries > count {
        return None;
    }
    let mut d: u64 = 1;
    let mut i: u32 = 0;
    proof {
        vstd::arithmetic::power2::lemma2_to64();
    }
    while i < retries
        invariant
            i <= retries <= count < 64,
            d == vstd::arithmetic::power2::pow2(i as nat),
        decreases retries - i,
    {
        proof {
            vstd::arithmetic::power2::lemma_pow2_unfold((i + 1) as nat);
            vstd::arithmetic::power2::lemma_pow2_strictly_increases((i + 1) as nat, 64);
            vstd::arithmetic::power2::lemma2_to64();
        }
        d = d * 2;
        i = i + 1;
    }
    Some(d)
}

/// `v` as `n` big-endian bytes.
pub open spec fn be_bytes(v: nat, n: nat) -> Seq<u8>
    decreases n,
{
    if n == 0 {
        seq![]
    } else {
        be_bytes(v / 256, (n - 1) as nat).push((v % 256) as u8)
    }
}

fn be_encode(v: u64, n: usize) -> (r: Vec<u8>)
    requires
        n <= 8,
    ensures
        r@ == be_bytes(v as nat, n as nat),
    decreases n,
{
    if n == 0 {
        return Vec::new();
    }
    let mut head = be_encode(v / 256, n - 1);
    head.push((v % 256) as u8);
    head
}

/// A modification time as 12 bytes: the seconds since the epoch as a big-endian `u64`, then
/// the nanoseconds as a big-endian `u32`.
pub fn time_bytes(secs: u64, nanos: u32) -> (r: Vec<u8>)
    ensures
        r@ == be_bytes(secs as nat, 8) + be_bytes(nanos as nat, 4),
{
    let mut out = be_encode(secs, 8);
    let tail = be_encode(nanos as u64, 4);
    crate::text::append(&mut out, tail.as_slice());
    out
}

/// A file tree to walk, known to exist.
pub struct PathWalker {
    pub path: String,
}

impl PathWalker {
    /// A walker over `path`, refused when the path does not exist.
    pub fn new(path: String, exists: bool) -> (r: Result<PathWalker, String>)
        ensures
            exists ==> (r matches Ok(w) && w.path@ == path@),
            !exists ==> (r matches Err(m) && m@ == "Path '"@ + path@ + "' does not exist"@),
    {
        if exists {
            Ok(PathWalker { path })
        } else {
            let mut m = "Path '".to_owned();
            push_str(&mut m, path.as_str());
            push_str(&mut m, "' does not exist");
            Err(m)
        }
    }
}

#[verifier::external_type_specification]
#[verifier::external_body]
pub struct ExCrcHasher(crc32fast::Hasher);

/// The bytes fed so far to a CRC32 hasher.
pub uninterp spec fn crc_input(h: crc32fast::Hasher) -> Seq<u8>;

/// What `crc32fast::hash` returns for `data`: its CRC32 (IEEE) checksum.
pub uninterp spec fn crc32_of(data: Seq<u8>) -> u32;

/// `crc32fast::Hasher::new`: a CRC32 computation over nothing yet.
#[verifier::external_body]
fn crc_new() -> (r: crc32fast::Hasher)
    ensures
        crc_input(r) == Seq::<u8>::empty(),
{
    crc32fast::Hasher::new()
}

/// `crc32fast::Hasher::update`: feeds `data` after what was fed before.
#[verifier::external_body]
fn crc_update(h: &mut crc32fast::Hasher, data: &[u8])
    ensures
        crc_input(*final(h)) == crc_input(*old(h)) + data@,
{
    h.update(data)
}

/// `crc32fast::Hasher::finalize`: the checksum of everything fed, the same as
/// `crc32fast::hash` of those bytes at once.
#[verifier::external_body]
fn crc_finalize(h: crc32fast::Hasher) -> (r: u32)
    ensures
        r == crc32_of(crc_input(h)),
{
    h.finalize()
}

/// A CRC32 of a file, fed in the chunks it is read in.
pub struct FileCrc {
    hasher: crc32fast::Hasher,
}

impl FileCrc {
    pub closed spec fn fed(&self) -> Seq<u8> {
        crc_input(self.hasher)
    }

    pub fn new() -> (r: FileCrc)
        ensures
            r.fed() == Seq::<u8>::empty(),
    {
        FileCrc { hasher: crc_new() }
    }

    /// Feeds the next bytes of the file.
    pub fn update(&mut self, data: &[u8])
        ensures
            final(self).fed() == old(self).fed() + data@,
    {
        crc_update(&mut self.hasher, data);
    }

    /// The checksum of everything fed.
    pub fn finish(self) -> (r: u32)
        ensures
            r == crc32_of(self.fed()),
    {
        crc_finalize(self.hasher)
    }
}

/// What `chksum_md5::hash` returns for `data`: its 16-byte MD5 digest.
pub uninterp spec fn md5_of(data: Seq<u8>) -> [u8; 16];

/// `chksum_md5::hash(data).into_inner()`: the MD5 digest of `data`. The contract claims only
/// that it is the MD5 digest of those bytes; the digest itself is not stated.
#[verifier::external_body]
fn md5_digest(data: &[u8]) -> (r: [u8; 16])
    ensures
        r == md5_of(data@),
{
    chksum_md5::hash(data).into_inner()
}

/// The MD5 digest of a file's bytes, as lowercase hex: what the tool compares when asked to
/// check contents by checksum.
pub fn file_digest_hex(data: &[u8]) -> (r: String)
    ensures
        r@ == hex_encode_spec(md5_of(data@)@),
{
    let d = md5_digest(data);
    crate::hex::encode(&d)
}

/// Whether two files have the same CRC32: the source before a transfer and its copy after.
pub fn crc_eq(src: FileCrc, dst: FileCrc) -> (r: bool)
    ensures
        r == (crc32_of(src.fed()) == crc32_of(dst.fed())),
{
    let a = src.finish();
    let b = dst.finish();
    a == b
}

/// One node of a change tree: a path, and the change git reported for it, if any.
pub struct ChangeNode {
    pub path: String,
    pub change: Option<Change>,
    pub children: Vec<usize>,
}

/// The plain values of a [`ChangeNode`].
pub struct NodeModel {
    pub path: Seq<char>,
    pub change: Option<ChangeModel>,
    pub children: Seq<usize>,
}

/// The plain values of a change tree: its nodes, node 0 the root, and the node each indexed
/// path names.
pub struct TreeModel {
    pub nodes: Seq<NodeModel>,
    pub idx: Map<Seq<char>, usize>,
}

pub open spec fn opt_change_model(c: Option<Change>) -> Option<ChangeModel> {
    match c {
        Some(ch) => Some(change_model(ch)),
        None => None,
    }
}

pub open spec fn node_model(n: ChangeNode) -> NodeModel {
    NodeModel { path: n.path@, change: opt_change_model(n.change), children: n.children@ }
}

/// The map a list of `(path, node)` index entries stands for.
pub open spec fn index_map(entries: Seq<(String, usize)>) -> Map<Seq<char>, usize>
    decreases entries.len(),
{
    if entries.len() == 0 {
        Map::empty()
    } else {
        index_map(entries.drop_last()).insert(entries.last().0@, entries.last().1)
    }
}

/// Whether no path has two index entries.
pub open spec fn keys_unique(entries: Seq<(String, usize)>) -> bool {
    forall|k: int, j: int| 0 <= k < j < entries.len() ==> (#[trigger] entries[k]).0@ != (#[trigger] entries[j]).0@
}

proof fn lemma_index_map(entries: Seq<(String, usize)>)
    requires
        keys_unique(entries),
    ensures
        forall|key: Seq<char>| #[trigger] index_map(entries).contains_key(key) <==> exists|k: int|
            0 <= k < entries.len() && (#[trigger] entries[k]).0@ == key,
        forall|k: int| 0 <= k < entries.len() ==> index_map(entries)[(#[trigger] entries[k]).0@] == entries[k].1,
    decreases entries.len(),
{
    if entries.len() > 0 {
        let d = entries.drop_last();
        let n = entries.len() - 1;
        assert forall|k: int, j: int| 0 <= k < j < d.len() implies (#[trigger] d[k]).0@ != (#[trigger] d[j]).0@ by {
            assert(d[k] == entries[k] && d[j] == entries[j]);
        }
        lemma_index_map(d);
        assert forall|key: Seq<char>| #[trigger] index_map(entries).contains_key(key) <==> exists|k: int|
            0 <= k < entries.len() && (#[trigger] entries[k]).0@ == key by {
            if index_map(entries).contains_key(key) {
                if key == entries[n].0@ {
                    assert(entries[n].0@ == key);
                } else {
                    assert(index_map(d).contains_key(key));
                    let k = choose|k: int| 0 <= k < d.len() && (#[trigger] d[k]).0@ == key;
                    assert(d[k] == entries[k]);
                    assert(entries[k].0@ == key);
                }
            }
            if exists|k: int| 0 <= k < entries.len() && (#[trigger] entries[k]).0@ == key {
                let k = choose|k: int| 0 <= k < entries.len() && (#[trigger] entries[k]).0@ == key;
                if k < n {
                    assert(d[k] == entries[k]);
                    assert(index_map(d).contains_key(key));
                }
            }
        }
        assert forall|k: int| 0 <= k < entries.len() implies index_map(entries)[(#[trigger] entries[k]).0@]
            == entries[k].1 by {
            if k < n {
                assert(d[k] == entries[k]);
                assert(entries[k].0@ != entries[n].0@);
            }
        }
    }
}

/// The tree `t` with a new node for `path` carrying `change`, made the last child of `parent`.
pub open spec fn tree_append(t: TreeModel, parent: usize, path: Seq<char>, change: Option<ChangeModel>) -> TreeModel {
    TreeModel {
        nodes: t.nodes.update(
            parent as int,
            NodeModel { children: t.nodes[parent as int].children.push(t.nodes.len() as usize), ..t.nodes[parent as int] },
        ).push(NodeModel { path, change, children: seq![] }),
        idx: t.idx,
    }
}

/// The node a change of `p` hangs under, and the tree once that node is settled: the root,
/// unless the part of `p` before its first `|` is indexed, in which case the node indexed for
/// it. When that part is not indexed, a node for it is made under the root and `p` itself is
/// indexed to that node; the change still hangs under the root.
pub open spec fn parent_step(t: TreeModel, p: Seq<char>) -> (TreeModel, usize) {
    let k = first_pos(p, path_separator());
    if k >= p.len() || k == 0 {
        (t, 0)
    } else if t.idx.contains_key(p.take(k)) {
        (t, t.idx[p.take(k)])
    } else {
        let t1 = tree_append(t, 0, p.take(k), None);
        (TreeModel { idx: t1.idx.insert(p, t.nodes.len() as usize), ..t1 }, 0)
    }
}

/// The tree after git reported the change `c` for `p`: the change goes on the node indexed
/// for `p`, or else on a new node for `p`, made the last child of `p`'s parent and indexed for
/// `p`.
pub open spec fn record_step(t: TreeModel, c: ChangeModel, p: Seq<char>) -> TreeModel {
    let t1 = parent_step(t, p).0;
    if t1.idx.contains_key(p) {
        let id = t1.idx[p] as int;
        TreeModel { nodes: t1.nodes.update(id, NodeModel { change: Some(c), ..t1.nodes[id] }), idx: t1.idx }
    } else {
        let t2 = tree_append(t1, parent_step(t, p).1, p, Some(c));
        TreeModel { idx: t2.idx.insert(p, t1.nodes.len() as usize), ..t2 }
    }
}

/// The tree built from the changes `cs`, reported in that order.
pub open spec fn tree_of(cs: Seq<(ChangeModel, Seq<char>)>) -> TreeModel
    decreases cs.len(),
{
    if cs.len() == 0 {
        root_tree()
    } else {
        record_step(tree_of(cs.drop_last()), cs.last().0, cs.last().1)
    }
}

/// A tree holding only its root, indexed under the empty path.
pub open spec fn root_tree() -> TreeModel {
    TreeModel {
        nodes: seq![NodeModel { path: seq![], change: None, children: seq![] }],
        idx: Map::<Seq<char>, usize>::empty().insert(seq![], 0),
    }
}

/// The changes of one tree since the last run, arranged by parent path. Node 0 is the root;
/// every other node hangs under a node made before it.
pub struct ChangeTree {
    new_repo: bool,
    nodes: Vec<ChangeNode>,
    idx: Vec<(String, usize)>,
}

/// The separator of nested paths in a change tree.
pub open spec fn path_separator() -> char {
    '|'
}

/// Whether some path of `m` has a nested part.
pub open spec fn flat(paths: Seq<Seq<char>>) -> bool {
    forall|i: int| 0 <= i < paths.len() ==> !(#[trigger] paths[i]).contains(path_separator())
}

/// The entries the tree lists for the changes `cs`, in order, when no path is nested: each
/// path once, where it first appeared, with the last change reported for it.
pub open spec fn flat_entries(cs: Seq<(ChangeModel, Seq<char>)>) -> Seq<(ChangeModel, Seq<char>)>
    decreases cs.len(),
{
    if cs.len() == 0 {
        seq![]
    } else {
        flat_step(flat_entries(cs.drop_last()), cs.last().0, cs.last().1)
    }
}

/// The changes the lines report, in order.
pub open spec fn parsed_lines(lines: Seq<String>) -> Seq<(ChangeModel, Seq<char>)> {
    lines.map_values(|l: String| status_line_spec(l@)->0)
}

impl ChangeTree {
    /// Whether the repository behind the tree was made on this run.
    pub closed spec fn is_new_repo(&self) -> bool {
        self.new_repo
    }

    pub fn new_repo(&self) -> (r: bool)
        ensures
            r == self.is_new_repo(),
    {
        self.new_repo
    }

    pub closed spec fn wf(&self) -> bool {
        &&& self.nodes@.len() >= 1
        &&& forall|i: int, k: int| 0 <= i < self.nodes@.len() && 0 <= k < self.nodes@[i].children@.len()
            ==> i < #[trigger] self.nodes@[i].children@[k] < self.nodes@.len()
        &&& forall|k: int| 0 <= k < self.idx@.len() ==> (#[trigger] self.idx@[k]).1 < self.nodes@.len()
        &&& keys_unique(self.idx@)
    }

    /// The plain values of the tree.
    pub closed spec fn model(&self) -> TreeModel {
        TreeModel { nodes: self.nodes@.map_values(|n: ChangeNode| node_model(n)), idx: index_map(self.idx@) }
    }

    /// A tree with only its root.
    pub fn new(new_repo: bool) -> (r: ChangeTree)
        ensures
            r.wf(),
            r.is_new_repo() == new_repo,
            r.model() == root_tree(),
    {
        let mut nodes: Vec<ChangeNode> = Vec::new();
        nodes.push(ChangeNode { path: String::new(), change: None, children: Vec::new() });
        let mut idx: Vec<(String, usize)> = Vec::new();
        idx.push((String::new(), 0));
        let r = ChangeTree { new_repo, nodes, idx };
        assert(r.model().nodes =~= root_tree().nodes);
        assert(index_map(r.idx@.drop_last()) == Map::<Seq<char>, usize>::empty());
        assert(r.idx@.last().0@ == Seq::<char>::empty());
        assert(r.model().idx =~= root_tree().idx);
        r
    }

    /// The place in the index of the first entry for `path`.
    fn find(&self, path: &str) -> (r: Option<usize>)
        requires
            self.wf(),
        ensures
            r matches Some(k) ==> k < self.idx@.len() && self.idx@[k as int].0@ == path@,
            r is None ==> forall|k: int| 0 <= k < self.idx@.len() ==> (#[trigger] self.idx@[k]).0@
                != path@,
    {
        let target = path.to_owned();
        let mut k: usize = 0;
        while k < self.idx.len()
            invariant
                target@ == path@,
                k <= self.idx@.len(),
                forall|j: int| 0 <= j < k ==> (#[trigger] self.idx@[j]).0@ != path@,
            decreases self.idx@.len() - k,
        {
            if self.idx[k].0 == target {
                return Some(k);
            }
            k = k + 1;
        }
        None
    }

    /// Appends a node under `parent`: the new node's id.
    fn append(&mut self, parent: usize, path: String, change: Option<Change>) -> (r: usize)
        requires
            old(self).wf(),
            parent < old(self).nodes@.len(),
        ensures
            final(self).wf(),
            r == old(self).nodes@.len(),
            final(self).nodes@.len() == old(self).nodes@.len() + 1,
            final(self).idx@ == old(self).idx@,
            final(self).is_new_repo() == old(self).is_new_repo(),
            final(self).nodes@[r as int].path@ == path@,
            final(self).nodes@[r as int].change == change,
            final(self).nodes@[r as int].children@.len() == 0,
            final(self).nodes@[parent as int].children@ == old(self).nodes@[parent as int].children@.push(r),
            forall|i: int| 0 <= i < old(self).nodes@.len() && i != parent ==> #[trigger] final(self).nodes@[i] == old(self).nodes@[i],
            final(self).nodes@[parent as int].path == old(self).nodes@[parent as int].path,
            final(self).nodes@[parent as int].change == old(self).nodes@[parent as int].change,
            final(self).model() == tree_append(old(self).model(), parent, path@, opt_change_model(change)),
    {
        let ghost path_view = path@;
        let id = self.nodes.len();
        self.nodes.push(ChangeNode { path, change, children: Vec::new() });
        let mut slot = ChangeNode { path: String::new(), change: None, children: Vec::new() };
        std::mem::swap(&mut slot, &mut self.nodes[parent]);
        slot.children.push(id);
        std::mem::swap(&mut slot, &mut self.nodes[parent]);
        assert(self.model().nodes =~= tree_append(old(self).model(), parent, path_view, opt_change_model(change)).nodes);
        id
    }
}

/// The list a flat tree shows after one more change `(c, p)`: the entry for `p` takes the new
/// change where `p` is listed already, else the change goes at the end.
pub open spec fn flat_step(list: Seq<(ChangeModel, Seq<char>)>, c: ChangeModel, p: Seq<char>) -> Seq<(ChangeModel, Seq<char>)> {
    if exists|k: int| 0 <= k < list.len() && (#[trigger] list[k]).1 == p {
        let k = choose|k: int| 0 <= k < list.len() && (#[trigger] list[k]).1 == p;
        list.update(k, (c, p))
    } else {
        list.push((c, p))
    }
}

impl ChangeTree {
    /// Points the index entry for `path` at `id`, adding the entry when there is none.
    fn idx_set(&mut self, path: &str, id: usize)
        requires
            old(self).wf(),
            id < old(self).nodes@.len(),
        ensures
            final(self).wf(),
            final(self).nodes == old(self).nodes,
            final(self).is_new_repo() == old(self).is_new_repo(),
            final(self).model().idx == old(self).model().idx.insert(path@, id),
    {
        proof {
            lemma_index_map(self.idx@);
        }
        match self.find(path) {
            Some(k) => {
                let name = self.idx[k].0.clone();
                self.idx.set(k, (name, id));
                proof {
                    lemma_index_map(self.idx@);
                    let e0 = old(self).idx@;
                    let e1 = self.idx@;
                    assert forall|key: Seq<char>| #[trigger] index_map(e1).contains_key(key)
                        == old(self).model().idx.insert(path@, id).contains_key(key) by {
                        if index_map(e1).contains_key(key) {
                            let j = choose|j: int| 0 <= j < e1.len() && (#[trigger] e1[j]).0@ == key;
                            assert(e0[j].0@ == key);
                        }
                        if index_map(e0).contains_key(key) {
                            let j = choose|j: int| 0 <= j < e0.len() && (#[trigger] e0[j]).0@ == key;
                            assert(e1[j].0@ == key);
                        }
                    }
                    assert forall|key: Seq<char>| #[trigger] index_map(e1).contains_key(key) implies index_map(e1)[key]
                        == old(self).model().idx.insert(path@, id)[key] by {
                        let j = choose|j: int| 0 <= j < e1.len() && (#[trigger] e1[j]).0@ == key;
                        assert(e0[j].0@ == key);
                    }
                    assert(self.model().idx =~= old(self).model().idx.insert(path@, id));
                }
            },
            None => {
                self.idx.push((path.to_owned(), id));
                proof {
                    assert(self.idx@.drop_last() =~= old(self).idx@);
                }
            },
        }
    }

    /// The node a change of `path` hangs under: the root, unless the part of `path` before
    /// its first `|` names a node. When it names none, a node for that part is made under the
    /// root, the index entry of `path` is pointed at it, and the root is the answer.
    fn parent_of(&mut self, path: &str) -> (r: usize)
        requires
            old(self).wf(),
        ensures
            final(self).wf(),
            r < final(self).nodes@.len(),
            final(self).is_new_repo() == old(self).is_new_repo(),
            !path@.contains(path_separator()) ==> r == 0 && final(self).nodes == old(self).nodes
                && final(self).idx == old(self).idx,
            final(self).model() == parent_step(old(self).model(), path@).0,
            r == parent_step(old(self).model(), path@).1,
    {
        proof {
            lemma_index_map(self.idx@);
        }
        let cs = chars_of(path);
        let k = find_char(cs.as_slice(), '|');
        if k == cs.len() {
            proof {
                if path@.contains(path_separator()) {
                    let j = choose|j: int| 0 <= j < path@.len() && path@[j] == path_separator();
                    assert(cs@[j] == '|');
                }
            }
            return 0;
        }
        assert(cs@[k as int] == '|');
        assert(path@.contains(path_separator()));
        if k == 0 {
            return 0;
        }
        let parent = string_of(char_range(cs.as_slice(), 0, k).as_slice());
        assert(parent@ =~= path@.take(k as int));
        match self.find(parent.as_str()) {
            Some(pos) => {
                proof {
                    assert(self.idx@[pos as int].0@ == parent@);
                }
                self.idx[pos].1
            },
            None => {
                let child = self.append(0, parent, None);
                self.idx_set(path, child);
                0
            },
        }
    }
}

/// The plain values of a list of changes.
pub open spec fn changes_model(v: Seq<(Change, String)>) -> Seq<(ChangeModel, Seq<char>)> {
    v.map_values(|e: (Change, String)| (change_model(e.0), e.1@))
}

impl ChangeTree {
    /// Records one change that git reported for `path`: on the node the index names for the
    /// path, or on a new node under the path's parent.
    pub fn record(&mut self, change: Change, path: String)
        requires
            old(self).wf(),
        ensures
            final(self).wf(),
            final(self).is_new_repo() == old(self).is_new_repo(),
            final(self).model() == record_step(old(self).model(), change_model(change), path@),
    {
        let ghost cm = change_model(change);
        let parent = self.parent_of(path.as_str());
        let ghost t1 = self.model();
        proof {
            lemma_index_map(self.idx@);
        }
        match self.find(path.as_str()) {
            Some(k) => {
                let id = self.idx[k].1;
                let mut slot = ChangeNode { path: String::new(), change: None, children: Vec::new() };
                std::mem::swap(&mut slot, &mut self.nodes[id]);
                slot.change = Some(change);
                std::mem::swap(&mut slot, &mut self.nodes[id]);
                proof {
                    assert(self.idx@[k as int].0@ == path@);
                    assert(t1.idx.contains_key(path@) && t1.idx[path@] == id);
                    assert(self.model().nodes =~= t1.nodes.update(id as int, NodeModel { change: Some(cm), ..t1.nodes[id as int] }));
                }
            },
            None => {
                let id = self.append(parent, path.clone(), Some(change));
                let ghost before = self.idx@;
                self.idx.push((path, id));
                proof {
                    assert(self.idx@.drop_last() =~= before);
                }
            },
        }
    }

    /// Emits the changes under node `i`, in pre-order. `false` when a node there carries no
    /// change.
    fn emit(&self, i: usize, out: &mut Vec<(Change, String)>) -> (ok: bool)
        requires
            self.wf(),
            i < self.nodes@.len(),
        ensures
            match preorder_from(self.model().nodes, i as int, 0) {
                Some(l) => ok && changes_model(final(out)@) == changes_model(old(out)@) + l,
                None => !ok,
            },
        decreases self.nodes@.len() - i,
    {
        let n = self.nodes[i].children.len();
        let mut k: usize = 0;
        let ghost nodes = self.model().nodes;
        let ghost start = changes_model(out@);
        while k < n
            invariant
                self.wf(),
                nodes == self.model().nodes,
                i < self.nodes@.len(),
                n == self.nodes@[i as int].children@.len(),
                k <= n,
                preorder_from(nodes, i as int, 0) == prepend(
                    changes_model(out@).skip(start.len() as int),
                    preorder_from(nodes, i as int, k as int),
                ),
                changes_model(out@).len() >= start.len(),
                changes_model(out@).take(start.len() as int) == start,
            decreases n - k,
        {
            let c = self.nodes[i].children[k];
            let ghost before = changes_model(out@);
            proof {
                lemma_preorder_step(nodes, i as int, k as int);
            }
            match &self.nodes[c].change {
                Some(ch) => {
                    out.push((copy_change(ch), self.nodes[c].path.clone()));
                },
                None => {
                    return false;
                },
            }
            let ghost mid = changes_model(out@);
            assert(mid =~= before.push((nodes[c as int].change->0, nodes[c as int].path)));
            if !self.emit(c, out) {
                return false;
            }
            proof {
                let after = changes_model(out@);
                let sub = preorder_from(nodes, c as int, 0)->0;
                assert(after =~= mid + sub);
                assert(after.skip(start.len() as int) =~= before.skip(start.len() as int).push(
                    (nodes[c as int].change->0, nodes[c as int].path),
                ) + sub);
                assert(after.take(start.len() as int) =~= before.take(start.len() as int));
            }
            k = k + 1;
        }
        proof {
            assert(preorder_from(nodes, i as int, k as int) == Some(Seq::<(ChangeModel, Seq<char>)>::empty()));
            assert(changes_model(out@) =~= start + changes_model(out@).skip(start.len() as int));
        }
        true
    }

    /// The tree's changes in pre-order, the root left out; `None` when some node carries no
    /// change.
    pub fn changes(&self) -> (r: Option<Vec<(Change, String)>>)
        requires
            self.wf(),
        ensures
            match tree_preorder(self.model()) {
                Some(l) => r matches Some(v) && changes_model(v@) == l,
                None => r is None,
            },
    {
        let mut out: Vec<(Change, String)> = Vec::new();
        let ok = self.emit(0, &mut out);
        assert(changes_model(Seq::<(Change, String)>::empty()) =~= Seq::<(ChangeModel, Seq<char>)>::empty());
        if ok {
            proof {
                if let Some(l) = tree_preorder(self.model()) {
                    assert(changes_model(out@) =~= l);
                }
            }
            Some(out)
        } else {
            None
        }
    }
}

/// The changes of the nodes under the root of `t`, in pre-order, or `None` when one of them
/// carries no change.
pub open spec fn tree_preorder(t: TreeModel) -> Option<Seq<(ChangeModel, Seq<char>)>> {
    preorder_from(t.nodes, 0, 0)
}

/// `acc` in front of what `rest` lists, or `None` when it lists nothing.
pub open spec fn prepend<T>(acc: Seq<T>, rest: Option<Seq<T>>) -> Option<Seq<T>> {
    match rest {
        Some(l) => Some(acc + l),
        None => None,
    }
}

/// The nodes under children `k..` of node `i`, each followed by the nodes under it, as
/// changes; `None` when one of them carries no change, or a child does not stand after its
/// parent.
pub open spec fn preorder_from(nodes: Seq<NodeModel>, i: int, k: int) -> Option<
    Seq<(ChangeModel, Seq<char>)>,
>
    decreases nodes.len() - i, nodes[i].children.len() - k,
{
    if i < 0 || i >= nodes.len() || k < 0 || k >= nodes[i].children.len() {
        Some(seq![])
    } else {
        let c = nodes[i].children[k] as int;
        if c <= i || c >= nodes.len() {
            None
        } else {
            match nodes[c].change {
                None => None,
                Some(ch) => match preorder_from(nodes, c, 0) {
                    None => None,
                    Some(sub) => prepend(
                        seq![(ch, nodes[c].path)] + sub,
                        preorder_from(nodes, i, k + 1),
                    ),
                },
            }
        }
    }
}

proof fn lemma_preorder_step(nodes: Seq<NodeModel>, i: int, k: int)
    requires
        0 <= i < nodes.len(),
        0 <= k < nodes[i].children.len(),
        i < nodes[i].children[k] < nodes.len(),
    ensures
        ({
            let c = nodes[i].children[k] as int;
            match (nodes[c].change, preorder_from(nodes, c, 0)) {
                (Some(ch), Some(sub)) => preorder_from(nodes, i, k) == prepend(
                    seq![(ch, nodes[c].path)] + sub,
                    preorder_from(nodes, i, k + 1),
                ),
                _ => preorder_from(nodes, i, k) is None,
            }
        }),
{
}

/// Whether every node but the root hangs directly under the root, in the order made, carries
/// a change and is indexed for its path, and nothing but these and the root is indexed.
pub open spec fn flat_tree(t: TreeModel) -> bool {
    &&& 1 <= t.nodes.len() <= usize::MAX
    &&& t.nodes[0].children == Seq::new((t.nodes.len() - 1) as nat, |k: int| (k + 1) as usize)
    &&& forall|i: int| 1 <= i < t.nodes.len() ==> (#[trigger] t.nodes[i]).children.len() == 0
        && t.nodes[i].change is Some
    &&& t.idx.contains_key(Seq::<char>::empty()) && t.idx[Seq::<char>::empty()] == 0
    &&& forall|i: int| 1 <= i < t.nodes.len() ==> t.idx.contains_key((#[trigger] t.nodes[i]).path)
        && t.idx[t.nodes[i].path] == i
    &&& forall|key: Seq<char>| #[trigger] t.idx.contains_key(key) ==> key == Seq::<char>::empty()
        || exists|i: int| 1 <= i < t.nodes.len() && (#[trigger] t.nodes[i]).path == key
}

/// What a flat tree lists: its nodes after the root, in order.
pub open spec fn flat_list(t: TreeModel) -> Seq<(ChangeModel, Seq<char>)> {
    Seq::new((t.nodes.len() - 1) as nat, |k: int| (t.nodes[k + 1].change->0, t.nodes[k + 1].path))
}

proof fn lemma_flat_record(t: TreeModel, c: ChangeModel, p: Seq<char>)
    requires
        flat_tree(t),
        t.nodes.len() < usize::MAX,
        p.len() > 0,
        !p.contains(path_separator()),
    ensures
        flat_tree(record_step(t, c, p)),
        flat_list(record_step(t, c, p)) == flat_step(flat_list(t), c, p),
{
    crate::text::lemma_first_pos(p, path_separator(), p.len() as int);
    assert(parent_step(t, p) == (t, 0usize));
    let list = flat_list(t);
    let r = record_step(t, c, p);
    if t.idx.contains_key(p) {
        let i = choose|i: int| 1 <= i < t.nodes.len() && (#[trigger] t.nodes[i]).path == p;
        assert(t.idx[p] == i);
        assert(list[i - 1].1 == p);
        let kk = choose|kk: int| 0 <= kk < list.len() && (#[trigger] list[kk]).1 == p;
        assert(t.idx[t.nodes[kk + 1].path] == kk + 1);
        assert(kk == i - 1);
        assert(flat_list(r) =~= flat_step(list, c, p));
        assert forall|j: int| 1 <= j < r.nodes.len() implies r.idx.contains_key((#[trigger] r.nodes[j]).path)
            && r.idx[r.nodes[j].path] == j by {
            assert(r.nodes[j].path == t.nodes[j].path);
        }
        assert forall|key: Seq<char>| #[trigger] r.idx.contains_key(key) implies key == Seq::<char>::empty()
            || exists|j: int| 1 <= j < r.nodes.len() && (#[trigger] r.nodes[j]).path == key by {
            if key != Seq::<char>::empty() {
                let j = choose|j: int| 1 <= j < t.nodes.len() && (#[trigger] t.nodes[j]).path == key;
                assert(r.nodes[j].path == key);
            }
        }
    } else {
        let n = t.nodes.len();
        assert forall|kk: int| 0 <= kk < list.len() implies (#[trigger] list[kk]).1 != p by {
            assert(t.idx.contains_key(t.nodes[kk + 1].path));
        }
        assert(r.nodes[0].children =~= Seq::new((r.nodes.len() - 1) as nat, |k: int| (k + 1) as usize));
        assert(flat_list(r) =~= list.push((c, p)));
        assert forall|j: int| 1 <= j < r.nodes.len() implies r.idx.contains_key((#[trigger] r.nodes[j]).path)
            && r.idx[r.nodes[j].path] == j by {
            if j < n {
                assert(r.nodes[j] == t.nodes[j]);
                assert(t.idx.contains_key(t.nodes[j].path));
                assert(t.nodes[j].path != p);
            }
        }
        assert forall|key: Seq<char>| #[trigger] r.idx.contains_key(key) implies key == Seq::<char>::empty()
            || exists|j: int| 1 <= j < r.nodes.len() && (#[trigger] r.nodes[j]).path == key by {
            if key != Seq::<char>::empty() {
                if key == p {
                    assert(r.nodes[n as int].path == key);
                } else {
                    let j = choose|j: int| 1 <= j < t.nodes.len() && (#[trigger] t.nodes[j]).path == key;
                    assert(r.nodes[j].path == key);
                }
            }
        }
    }
}

proof fn lemma_flat_tree_of(cs: Seq<(ChangeModel, Seq<char>)>)
    requires
        cs.len() < usize::MAX,
        forall|i: int| 0 <= i < cs.len() ==> (#[trigger] cs[i]).1.len() > 0 && !cs[i].1.contains(path_separator()),
    ensures
        flat_tree(tree_of(cs)),
        flat_list(tree_of(cs)) == flat_entries(cs),
        tree_of(cs).nodes.len() <= cs.len() + 1,
    decreases cs.len(),
{
    if cs.len() == 0 {
        let t = root_tree();
        assert(t.nodes[0].children =~= Seq::new(0, |k: int| (k + 1) as usize));
        assert(flat_list(t) =~= Seq::<(ChangeModel, Seq<char>)>::empty());
    } else {
        let d = cs.drop_last();
        assert forall|i: int| 0 <= i < d.len() implies (#[trigger] d[i]).1.len() > 0 && !d[i].1.contains(
            path_separator(),
        ) by {
            assert(d[i] == cs[i]);
        }
        lemma_flat_tree_of(d);
        assert(cs.last() == cs[cs.len() - 1]);
        lemma_flat_record(tree_of(d), cs.last().0, cs.last().1);
    }
}

/// The nodes after the root, as a flat tree lists them, from place `k` on.
pub open spec fn flat_nodes(nodes: Seq<NodeModel>, k: int) -> Seq<(ChangeModel, Seq<char>)>
    decreases nodes.len() - 1 - k,
{
    if k < 0 || k >= nodes.len() - 1 {
        seq![]
    } else {
        seq![(nodes[k + 1].change->0, nodes[k + 1].path)] + flat_nodes(nodes, k + 1)
    }
}

proof fn lemma_flat_nodes(nodes: Seq<NodeModel>, k: int)
    requires
        0 <= k <= nodes.len() - 1,
    ensures
        flat_nodes(nodes, k) =~= Seq::new(
            (nodes.len() - 1 - k) as nat,
            |j: int| (nodes[k + j + 1].change->0, nodes[k + j + 1].path),
        ),
    decreases nodes.len() - 1 - k,
{
    if k < nodes.len() - 1 {
        lemma_flat_nodes(nodes, k + 1);
    }
}

proof fn lemma_flat_preorder(nodes: Seq<NodeModel>, k: int)
    requires
        1 <= nodes.len() <= usize::MAX,
        0 <= k <= nodes.len() - 1,
        nodes[0].children == Seq::new((nodes.len() - 1) as nat, |j: int| (j + 1) as usize),
        forall|i: int| 1 <= i < nodes.len() ==> (#[trigger] nodes[i]).children.len() == 0
            && nodes[i].change is Some,
    ensures
        preorder_from(nodes, 0, k) == Some(flat_nodes(nodes, k)),
    decreases nodes.len() - 1 - k,
{
    if k < nodes.len() - 1 {
        lemma_flat_preorder(nodes, k + 1);
        let c = k + 1;
        assert(nodes[0].children[k] == (k + 1) as usize);
        assert(preorder_from(nodes, c, 0) == Some(Seq::<(ChangeModel, Seq<char>)>::empty()));
        assert(seq![(nodes[c].change->0, nodes[c].path)] + Seq::<(ChangeModel, Seq<char>)>::empty()
            =~= seq![(nodes[c].change->0, nodes[c].path)]);
    }
}

/// A tree built from changes to plain, non-nested paths lists each path once, where it first
/// appeared, with the last change reported for it.
pub proof fn lemma_flat_changes(cs: Seq<(ChangeModel, Seq<char>)>)
    requires
        cs.len() < usize::MAX,
        forall|i: int| 0 <= i < cs.len() ==> (#[trigger] cs[i]).1.len() > 0 && !cs[i].1.contains(path_separator()),
    ensures
        tree_preorder(tree_of(cs)) == Some(flat_entries(cs)),
{
    lemma_flat_tree_of(cs);
    let t = tree_of(cs);
    lemma_flat_preorder(t.nodes, 0);
    lemma_flat_nodes(t.nodes, 0);
    assert(flat_list(t) =~= flat_nodes(t.nodes, 0));
}

/// Builds the change tree of the lines of `git status -s`, in order. `None` when a line is
/// not understood.
pub fn build_change_tree(lines: &[String], new_repo: bool) -> (r: Option<ChangeTree>)
    ensures
        (exists|i: int| 0 <= i < lines@.len() && status_line_spec((#[trigger] lines@[i])@) is None)
            <==> r is None,
        r matches Some(t) ==> t.wf() && t.is_new_repo() == new_repo && t.model() == tree_of(
            parsed_lines(lines@),
        ),
{
    let mut tree = ChangeTree::new(new_repo);
    let mut i: usize = 0;
    while i < lines.len()
        invariant
            tree.wf(),
            tree.is_new_repo() == new_repo,
            i <= lines@.len(),
            forall|j: int| 0 <= j < i ==> status_line_spec((#[trigger] lines@[j])@) is Some,
            tree.model() == tree_of(parsed_lines(lines@).take(i as int)),
        decreases lines@.len() - i,
    {
        proof {
            assert(parsed_lines(lines@).take(i + 1).drop_last() =~= parsed_lines(lines@).take(i as int));
        }
        match parse_status_line(lines[i].as_str()) {
            Some((change, path)) => {
                tree.record(change, path);
            },
            None => {
                return None;
            },
        }
        i = i + 1;
    }
    proof {
        assert(parsed_lines(lines@).take(i as int) =~= parsed_lines(lines@));
    }
    Some(tree)
}

} // verus!
