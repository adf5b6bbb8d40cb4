//! The configuration text format.
//!
//! A configuration maps to a human-editable text document and back. The
//! canonical form writes the base directory first, then each repository's
//! remotes and branches as `[[repos.<name>.remotes]]` and
//! `[[repos.<name>.branch]]` blocks of `key = "value"` lines, repositories
//! ascending by name, a blank line before every block but the first of its
//! repository. Strings are written verbatim between double quotes; a
//! well-formed configuration holds no double quote and no newline inside
//! its strings, and serializing then parsing it returns it unchanged.

use vstd::prelude::*;

use crate::config::Branch;
use crate::config::BranchV;
use crate::config::Remote;
use crate::config::RemoteV;
use crate::config::Repo;
use crate::config::RepoV;
use crate::config::Repomon;
use crate::config::RepomonV;
use crate::config::branch_v;
use crate::config::remote_v;
use crate::config::repo_v;
use crate::config::repomon_v;
use crate::config::repos_view;
use crate::error::Error;
use crate::strmap::StrMap;
use crate::strutil::lex_lt;

verus! {

/// Whether `s` may stand between quotes: no quote and no newline.
pub open spec fn clean_str(s: Seq<char>) -> bool {
    !s.contains('"') && !s.contains('\n')
}

/// A `key = "value"` line body (without the newline).
pub open spec fn kv(key: Seq<char>, value: Seq<char>) -> Seq<char> {
    key + " = \""@ + value + "\""@
}

/// A line: its body followed by a newline.
pub open spec fn line_of(body: Seq<char>) -> Seq<char> {
    body + "\n"@
}

/// The header body of a remotes block.
pub open spec fn hdr_remotes(rn: Seq<char>) -> Seq<char> {
    "[[repos."@ + rn + ".remotes]]"@
}

/// The header body of a branch block.
pub open spec fn hdr_branch(rn: Seq<char>) -> Seq<char> {
    "[[repos."@ + rn + ".branch]]"@
}

/// A quoted string.
pub open spec fn quoted(s: Seq<char>) -> Seq<char> {
    "\""@ + s + "\""@
}

/// The rendering of the remote-name list from index `i` on:
/// `"a", "b", ...`.
pub open spec fn ser_list_from(names: Seq<Seq<char>>, i: int) -> Seq<char>
    decreases names.len() - i,
{
    if i < 0 || i >= names.len() {
        Seq::empty()
    } else {
        (if i > 0 {
            ", "@
        } else {
            Seq::empty()
        }) + quoted(names[i]) + ser_list_from(names, i + 1)
    }
}

/// One remotes block: header, name line, url line.
pub open spec fn ser_remote_block(rn: Seq<char>, r: RemoteV) -> Seq<char> {
    line_of(hdr_remotes(rn)) + line_of(kv("name"@, r.name)) + line_of(kv("url"@, r.url))
}

/// One branch block: header, name line, interval line, remotes line.
pub open spec fn ser_branch_block(rn: Seq<char>, b: BranchV) -> Seq<char> {
    line_of(hdr_branch(rn)) + line_of(kv("name"@, b.name)) + line_of(kv("interval"@, b.interval))
        + line_of("remotes = ["@ + ser_list_from(b.remotes, 0) + "]"@)
}

/// The remotes blocks from index `i` on, a blank line before each block
/// but the repository's first.
pub open spec fn ser_remotes_from(rn: Seq<char>, rs: Seq<RemoteV>, i: int) -> Seq<char>
    decreases rs.len() - i,
{
    if i < 0 || i >= rs.len() {
        Seq::empty()
    } else {
        (if i > 0 {
            "\n"@
        } else {
            Seq::empty()
        }) + ser_remote_block(rn, rs[i]) + ser_remotes_from(rn, rs, i + 1)
    }
}

/// The branch blocks from index `i` on; `lead` says whether a remotes
/// block already stands before them.
pub open spec fn ser_branches_from(rn: Seq<char>, bs: Seq<BranchV>, i: int, lead: bool) -> Seq<char>
    decreases bs.len() - i,
{
    if i < 0 || i >= bs.len() {
        Seq::empty()
    } else {
        (if i > 0 || lead {
            "\n"@
        } else {
            Seq::empty()
        }) + ser_branch_block(rn, bs[i]) + ser_branches_from(rn, bs, i + 1, lead)
    }
}

/// All blocks of one repository.
pub open spec fn ser_repo(rn: Seq<char>, r: RepoV) -> Seq<char> {
    ser_remotes_from(rn, r.remotes, 0) + ser_branches_from(rn, r.branch, 0, r.remotes.len() > 0)
}

/// The blocks of the repositories from index `i` on.
pub open spec fn ser_repos_from(rs: Seq<(Seq<char>, RepoV)>, i: int) -> Seq<char>
    decreases rs.len() - i,
{
    if i < 0 || i >= rs.len() {
        Seq::empty()
    } else {
        ser_repo(rs[i].0, rs[i].1) + ser_repos_from(rs, i + 1)
    }
}

/// The whole canonical document.
pub open spec fn ser_config(v: RepomonV) -> Seq<char> {
    line_of(kv("basedir"@, v.basedir)) + ser_repos_from(v.repos, 0)
}

/// Whether a remote's strings are clean.
pub open spec fn wf_remote(r: RemoteV) -> bool {
    clean_str(r.name) && clean_str(r.url)
}

/// Whether a branch's strings are clean.
pub open spec fn wf_branch(b: BranchV) -> bool {
    &&& clean_str(b.name)
    &&& clean_str(b.interval)
    &&& forall|i: int| 0 <= i < b.remotes.len() ==> clean_str(#[trigger] b.remotes[i])
}

/// Whether a repository definition can round-trip: clean strings and at
/// least one block to write it down with.
pub open spec fn wf_repo(r: RepoV) -> bool {
    &&& forall|i: int| 0 <= i < r.remotes.len() ==> wf_remote(#[trigger] r.remotes[i])
    &&& forall|i: int| 0 <= i < r.branch.len() ==> wf_branch(#[trigger] r.branch[i])
    &&& r.remotes.len() + r.branch.len() > 0
}

/// Whether a configuration can round-trip: clean strings, nonempty
/// repository names in strictly ascending order, well-formed definitions.
pub open spec fn wf_config(v: RepomonV) -> bool {
    &&& clean_str(v.basedir)
    &&& forall|i: int|
        0 <= i < v.repos.len() ==> clean_str((#[trigger] v.repos[i]).0) && v.repos[i].0.len() > 0
            && wf_repo(v.repos[i].1)
    &&& forall|i: int| 0 <= i < v.repos.len() - 1 ==> lex_lt((#[trigger] v.repos[i]).0, v.repos[i + 1].0)
}

/// The index of the first occurrence of `c` in `s`, or -1.
pub open spec fn find_idx(s: Seq<char>, c: char) -> int
    decreases s.len(),
{
    if s.len() == 0 {
        -1
    } else if s[0] == c {
        0
    } else {
        let r = find_idx(s.drop_first(), c);
        if r < 0 {
            -1
        } else {
            1 + r
        }
    }
}

/// The found index lies inside the sequence and holds `c`; a miss means
/// the character does not occur.
pub proof fn lemma_find_idx_spec(s: Seq<char>, c: char)
    ensures
        find_idx(s, c) >= 0 ==> find_idx(s, c) < s.len() && s[find_idx(s, c)] == c,
        find_idx(s, c) < 0 ==> !s.contains(c),
        find_idx(s, c) >= 0 ==> s.contains(c),
    decreases s.len(),
{
    if s.len() > 0 && s[0] != c {
        lemma_find_idx_spec(s.drop_first(), c);
        let r = find_idx(s.drop_first(), c);
        if r >= 0 {
            assert(s[1 + r] == s.drop_first()[r]);
            assert(s.contains(c)) by {
                assert(s[find_idx(s, c)] == c);
            }
        } else {
            if s.contains(c) {
                let w = choose|w: int| 0 <= w < s.len() && s[w] == c;
                assert(s.drop_first()[w - 1] == c);
                assert(s.drop_first().contains(c));
            }
        }
    } else if s.len() > 0 {
        assert(s.contains(c)) by {
            assert(s[0] == c);
        }
    }
}

/// A prefix free of `c` shifts the found index.
pub proof fn lemma_find_idx_skip(s: Seq<char>, c: char, i: int)
    requires
        0 <= i <= s.len(),
        forall|j: int| 0 <= j < i ==> s[j] != c,
    ensures
        find_idx(s, c) == if find_idx(s.skip(i), c) < 0 {
            -1
        } else {
            i + find_idx(s.skip(i), c)
        },
    decreases i,
{
    if i == 0 {
        assert(s.skip(0) =~= s);
    } else {
        let t = s.drop_first();
        assert forall|j: int| 0 <= j < i - 1 implies t[j] != c by {
            assert(t[j] == s[j + 1]);
        }
        lemma_find_idx_skip(t, c, i - 1);
        assert(t.skip(i - 1) =~= s.skip(i));
    }
}

/// The first line of `s` and what follows it, split at the first newline.
pub open spec fn split_line(s: Seq<char>) -> Option<(Seq<char>, Seq<char>)> {
    let f = find_idx(s, '\n');
    if 0 <= f < s.len() {
        Some((s.take(f), s.skip(f + 1)))
    } else {
        None
    }
}

/// The value of a `key = "value"` line body, if the line has that exact
/// shape and the value holds no quote.
pub open spec fn parse_quoted_kv(l: Seq<char>, key: Seq<char>) -> Option<Seq<char>> {
    let pre = key + " = \""@;
    if l.len() >= pre.len() + 1 && l.take(pre.len() as int) == pre && l.last() == '"' && !l.subrange(
        pre.len() as int,
        l.len() - 1,
    ).contains('"') {
        Some(l.subrange(pre.len() as int, l.len() - 1))
    } else {
        None
    }
}

/// The repository name and block kind of a header line body:
/// `[[repos.<name>.remotes]]` gives `(name, true)`,
/// `[[repos.<name>.branch]]` gives `(name, false)`.
pub open spec fn parse_header(l: Seq<char>) -> Option<(Seq<char>, bool)> {
    if l.len() > 10 && l.take(8) == "[[repos."@ && l.subrange(l.len() - 2, l.len() as int)
        == "]]"@ {
        let mid = l.subrange(8, l.len() - 2);
        if mid.len() > 8 && mid.subrange(mid.len() - 8, mid.len() as int) == ".remotes"@ {
            Some((mid.take(mid.len() - 8), true))
        } else if mid.len() > 7 && mid.subrange(mid.len() - 7, mid.len() as int) == ".branch"@ {
            Some((mid.take(mid.len() - 7), false))
        } else {
            None
        }
    } else {
        None
    }
}

/// The items of a quoted, comma-separated list.
pub open spec fn parse_list(s: Seq<char>) -> Option<Seq<Seq<char>>>
    decreases s.len(),
{
    if s.len() == 0 {
        Some(Seq::empty())
    } else if s[0] == '"' {
        let t = s.drop_first();
        let q = find_idx(t, '"');
        if 0 <= q < t.len() {
            let v = t.take(q);
            let rest = t.skip(q + 1);
            if rest.len() == 0 {
                Some(seq![v])
            } else if rest.len() >= 2 && rest.take(2) == ", "@ {
                match parse_list(rest.skip(2)) {
                    Some(vs) => Some(seq![v] + vs),
                    None => None,
                }
            } else {
                None
            }
        } else {
            None
        }
    } else {
        None
    }
}

/// The accumulated repositories after one more remote of `rn`: appended to
/// an existing definition of that name, else a fresh definition inserted in
/// name order.
pub open spec fn acc_add_remote(
    acc: Seq<(Seq<char>, RepoV)>,
    rn: Seq<char>,
    r: RemoteV,
) -> Seq<(Seq<char>, RepoV)>
    decreases acc.len(),
{
    if acc.len() == 0 {
        seq![(rn, RepoV { remotes: seq![r], branch: Seq::empty() })]
    } else if acc[0].0 == rn {
        seq![(rn, RepoV { remotes: acc[0].1.remotes.push(r), branch: acc[0].1.branch })]
            + acc.drop_first()
    } else if lex_lt(rn, acc[0].0) {
        seq![(rn, RepoV { remotes: seq![r], branch: Seq::empty() })] + acc
    } else {
        seq![acc[0]] + acc_add_remote(acc.drop_first(), rn, r)
    }
}

/// The accumulated repositories after one more branch of `rn`.
pub open spec fn acc_add_branch(
    acc: Seq<(Seq<char>, RepoV)>,
    rn: Seq<char>,
    b: BranchV,
) -> Seq<(Seq<char>, RepoV)>
    decreases acc.len(),
{
    if acc.len() == 0 {
        seq![(rn, RepoV { remotes: Seq::empty(), branch: seq![b] })]
    } else if acc[0].0 == rn {
        seq![(rn, RepoV { remotes: acc[0].1.remotes, branch: acc[0].1.branch.push(b) })]
            + acc.drop_first()
    } else if lex_lt(rn, acc[0].0) {
        seq![(rn, RepoV { remotes: Seq::empty(), branch: seq![b] })] + acc
    } else {
        seq![acc[0]] + acc_add_branch(acc.drop_first(), rn, b)
    }
}

/// What the parser expects of the next line.
pub enum PMode {
    /// A header or a blank line.
    Top,
    /// The name line of a remotes block of the named repository.
    RemoteName(Seq<char>),
    /// The url line; the remote's name is already read.
    RemoteUrl(Seq<char>, Seq<char>),
    /// The name line of a branch block of the named repository.
    BranchName(Seq<char>),
    /// The interval line; the branch's name is already read.
    BranchInterval(Seq<char>, Seq<char>),
    /// The remotes list line; name and interval are already read.
    BranchRemotes(Seq<char>, Seq<char>, Seq<char>),
}

/// Parse the block lines of a document, one line per step.
pub open spec fn parse_lines(
    s: Seq<char>,
    mode: PMode,
    acc: Seq<(Seq<char>, RepoV)>,
) -> Option<Seq<(Seq<char>, RepoV)>>
    decreases s.len(),
{
    let f = find_idx(s, '\n');
    if !(0 <= f < s.len()) {
        if s.len() == 0 && mode is Top {
            Some(acc)
        } else {
            None
        }
    } else {
        let l = s.take(f);
        let rest = s.skip(f + 1);
        match mode {
            PMode::Top => {
                if l.len() == 0 {
                    parse_lines(rest, PMode::Top, acc)
                } else {
                    match parse_header(l) {
                        Some((rn, true)) => parse_lines(rest, PMode::RemoteName(rn), acc),
                        Some((rn, false)) => parse_lines(rest, PMode::BranchName(rn), acc),
                        None => None,
                    }
                }
            },
            PMode::RemoteName(rn) => {
                match parse_quoted_kv(l, "name"@) {
                    Some(v) => parse_lines(rest, PMode::RemoteUrl(rn, v), acc),
                    None => None,
                }
            },
            PMode::RemoteUrl(rn, nm) => {
                match parse_quoted_kv(l, "url"@) {
                    Some(u) => parse_lines(
                        rest,
                        PMode::Top,
                        acc_add_remote(acc, rn, RemoteV { name: nm, url: u }),
                    ),
                    None => None,
                }
            },
            PMode::BranchName(rn) => {
                match parse_quoted_kv(l, "name"@) {
                    Some(v) => parse_lines(rest, PMode::BranchInterval(rn, v), acc),
                    None => None,
                }
            },
            PMode::BranchInterval(rn, nm) => {
                match parse_quoted_kv(l, "interval"@) {
                    Some(v) => parse_lines(rest, PMode::BranchRemotes(rn, nm, v), acc),
                    None => None,
                }
            },
            PMode::BranchRemotes(rn, nm, iv) => {
                if l.len() >= 12 && l.take(11) == "remotes = ["@ && l.last() == ']' {
                    match parse_list(l.subrange(11, l.len() - 1)) {
                        Some(vs) => parse_lines(
                            rest,
                            PMode::Top,
                            acc_add_branch(
                                acc,
                                rn,
                                BranchV { name: nm, interval: iv, remotes: vs },
                            ),
                        ),
                        None => None,
                    }
                } else {
                    None
                }
            },
        }
    }
}

/// Parse a whole document: the basedir line, then the blocks.
pub open spec fn parse_config(s: Seq<char>) -> Option<RepomonV> {
    match split_line(s) {
        Some((l0, rest)) => match parse_quoted_kv(l0, "basedir"@) {
            Some(bd) => match parse_lines(rest, PMode::Top, Seq::empty()) {
                Some(repos) => Some(RepomonV { basedir: bd, repos }),
                None => None,
            },
            None => None,
        },
        None => None,
    }
}

/// Append `key = "value"` and a newline to `out`.
fn push_kv(out: &mut String, key: &str, value: &str)
    ensures
        final(out)@ == old(out)@ + line_of(kv(key@, value@)),
{
    out.append(key);
    out.append(" = \"");
    out.append(value);
    out.append("\"");
    out.append("\n");
    proof {
        assert(out@ =~= old(out)@ + line_of(kv(key@, value@)));
    }
}

/// Append one remotes block, preceded by a blank line when `sep` holds.
fn push_remote_block(out: &mut String, rn: &str, rem: &Remote, sep: bool)
    ensures
        final(out)@ == old(out)@ + (if sep {
            "\n"@
        } else {
            Seq::<char>::empty()
        }) + ser_remote_block(rn@, remote_v(*rem)),
{
    if sep {
        out.append("\n");
    }
    out.append("[[repos.");
    out.append(rn);
    out.append(".remotes]]");
    out.append("\n");
    push_kv(out, "name", rem.name.as_str());
    push_kv(out, "url", rem.url.as_str());
    proof {
        assert(out@ =~= old(out)@ + (if sep {
            "\n"@
        } else {
            Seq::<char>::empty()
        }) + ser_remote_block(rn@, remote_v(*rem)));
    }
}

/// Append one branch block, preceded by a blank line when `sep` holds.
#[verifier::loop_isolation(false)]
fn push_branch_block(out: &mut String, rn: &str, br: &Branch, sep: bool)
    ensures
        final(out)@ == old(out)@ + (if sep {
            "\n"@
        } else {
            Seq::<char>::empty()
        }) + ser_branch_block(rn@, branch_v(*br)),
{
    if sep {
        out.append("\n");
    }
    out.append("[[repos.");
    out.append(rn);
    out.append(".branch]]");
    out.append("\n");
    push_kv(out, "name", br.name.as_str());
    push_kv(out, "interval", br.interval.as_str());
    out.append("remotes = [");
    let ghost names = branch_v(*br).remotes;
    let ghost out_before = out@;
    let mut li: usize = 0;
    while li < br.remotes.len()
        invariant
            li <= names.len(),
            names.len() == br.remotes@.len(),
            names == branch_v(*br).remotes,
            out_before + ser_list_from(names, 0) == out@ + ser_list_from(names, li as int),
        decreases names.len() - li,
    {
        proof {
            assert(names[li as int] == br.remotes@[li as int]@);
        }
        let ghost l0 = out@;
        if li > 0 {
            out.append(", ");
        }
        out.append("\"");
        out.append(br.remotes[li].as_str());
        out.append("\"");
        proof {
            assert(ser_list_from(names, li as int) == (if li > 0 {
                ", "@
            } else {
                Seq::<char>::empty()
            }) + quoted(names[li as int]) + ser_list_from(names, li + 1));
            assert(out@ + ser_list_from(names, li + 1) =~= l0 + ser_list_from(names, li as int));
        }
        li = li + 1;
    }
    out.append("]");
    out.append("\n");
    proof {
        assert(ser_list_from(names, names.len() as int) =~= Seq::<char>::empty());
        assert(out@ =~= out_before + ser_list_from(names, 0) + "]"@ + "\n"@);
        assert(out@ =~= old(out)@ + (if sep {
            "\n"@
        } else {
            Seq::<char>::empty()
        }) + ser_branch_block(rn@, branch_v(*br)));
    }
}

/// Shifting one emitted piece from the remainder onto the output keeps
/// the whole document equal.
proof fn lemma_emit_step(
    o0: Seq<char>,
    o1: Seq<char>,
    piece: Seq<char>,
    a1: Seq<char>,
    restb: Seq<char>,
    total: Seq<char>,
)
    requires
        o1 == o0 + piece,
        total == o0 + (piece + a1) + restb,
    ensures
        total == o1 + a1 + restb,
{
    assert(o1 + a1 + restb =~= o0 + (piece + a1) + restb);
}

/// Append every block of one repository definition.
#[verifier::loop_isolation(false)]
fn push_repo(out: &mut String, rn: &str, repo: &Repo)
    ensures
        final(out)@ == old(out)@ + ser_repo(rn@, repo_v(*repo)),
{
    let ghost rv = repo_v(*repo);
    let ghost base = out@;
    let mut ri: usize = 0;
    while ri < repo.remotes.len()
        invariant
            ri <= rv.remotes.len(),
            rv.remotes.len() == repo.remotes@.len(),
            rv == repo_v(*repo),
            base == old(out)@,
            base + ser_remotes_from(rn@, rv.remotes, 0) == out@ + ser_remotes_from(
                rn@,
                rv.remotes,
                ri as int,
            ),
        decreases rv.remotes.len() - ri,
    {
        proof {
            assert(rv.remotes[ri as int] == remote_v(repo.remotes@[ri as int]));
        }
        let ghost o0 = out@;
        let ghost sep = if ri > 0 {
            "\n"@
        } else {
            Seq::<char>::empty()
        };
        push_remote_block(out, rn, &repo.remotes[ri], ri > 0);
        proof {
            assert(ser_remotes_from(rn@, rv.remotes, ri as int) == sep + ser_remote_block(
                rn@,
                rv.remotes[ri as int],
            ) + ser_remotes_from(rn@, rv.remotes, ri + 1));
            assert(out@ + ser_remotes_from(rn@, rv.remotes, ri + 1) =~= o0 + ser_remotes_from(
                rn@,
                rv.remotes,
                ri as int,
            ));
        }
        ri = ri + 1;
    }
    proof {
        assert(ser_remotes_from(rn@, rv.remotes, rv.remotes.len() as int)
            =~= Seq::<char>::empty());
        assert(out@ =~= out@ + ser_remotes_from(rn@, rv.remotes, rv.remotes.len() as int));
        assert(out@ == base + ser_remotes_from(rn@, rv.remotes, 0));
    }
    let ghost mid = out@;
    let lead = repo.remotes.len() > 0;
    let mut bi: usize = 0;
    while bi < repo.branch.len()
        invariant
            bi <= rv.branch.len(),
            rv.branch.len() == repo.branch@.len(),
            rv == repo_v(*repo),
            lead == (rv.remotes.len() > 0),
            mid + ser_branches_from(rn@, rv.branch, 0, lead) == out@ + ser_branches_from(
                rn@,
                rv.branch,
                bi as int,
                lead,
            ),
        decreases rv.branch.len() - bi,
    {
        proof {
            assert(rv.branch[bi as int] == branch_v(repo.branch@[bi as int]));
        }
        let ghost o0 = out@;
        let ghost sep = if bi > 0 || lead {
            "\n"@
        } else {
            Seq::<char>::empty()
        };
        push_branch_block(out, rn, &repo.branch[bi], bi > 0 || lead);
        proof {
            assert(ser_branches_from(rn@, rv.branch, bi as int, lead) == sep + ser_branch_block(
                rn@,
                rv.branch[bi as int],
            ) + ser_branches_from(rn@, rv.branch, bi + 1, lead));
            assert(out@ + ser_branches_from(rn@, rv.branch, bi + 1, lead) =~= o0
                + ser_branches_from(rn@, rv.branch, bi as int, lead));
        }
        bi = bi + 1;
    }
    proof {
        assert(ser_branches_from(rn@, rv.branch, rv.branch.len() as int, lead)
            =~= Seq::<char>::empty());
        assert(out@ =~= out@ + ser_branches_from(rn@, rv.branch, rv.branch.len() as int, lead));
        assert(out@ == mid + ser_branches_from(rn@, rv.branch, 0, lead));
        assert(out@ =~= base + (ser_remotes_from(rn@, rv.remotes, 0) + ser_branches_from(
            rn@,
            rv.branch,
            0,
            lead,
        )));
    }
}

/// Serialize the configuration into its canonical text.
#[verifier::loop_isolation(false)]
pub fn write_toml(repos: &Repomon) -> (r: String)
    ensures
        r@ == ser_config(repomon_v(*repos)),
{
    let ghost v = repomon_v(*repos);
    let mut out = String::new();
    push_kv(&mut out, "basedir", repos.basedir.as_str());
    let mut gi: usize = 0;
    while gi < repos.repos.entries.len()
        invariant
            gi <= v.repos.len(),
            v.repos.len() == repos.repos.entries@.len(),
            ser_config(v) == out@ + ser_repos_from(v.repos, gi as int),
        decreases v.repos.len() - gi,
    {
        proof {
            assert(v.repos[gi as int] == (repos.repos.entries@[gi as int].0@, repo_v(
                repos.repos.entries@[gi as int].1,
            )));
        }
        let entry = &repos.repos.entries[gi];
        let ghost o0 = out@;
        push_repo(&mut out, entry.0.as_str(), &entry.1);
        proof {
            let ghost e = v.repos[gi as int];
            assert(ser_repos_from(v.repos, gi as int) == ser_repo(e.0, e.1) + ser_repos_from(
                v.repos,
                gi + 1,
            ));
            assert(out@ + ser_repos_from(v.repos, gi + 1) =~= o0 + ser_repos_from(
                v.repos,
                gi as int,
            ));
        }
        gi = gi + 1;
    }
    proof {
        assert(ser_repos_from(v.repos, v.repos.len() as int) =~= Seq::<char>::empty());
        assert(out@ =~= out@ + ser_repos_from(v.repos, v.repos.len() as int));
    }
    out
}

} // verus!

verus! {

/// No character of `a` or `b` is `c` exactly when none of `a + b` is.
proof fn lemma_concat_free(a: Seq<char>, b: Seq<char>, c: char)
    requires
        !a.contains(c),
        !b.contains(c),
    ensures
        !(a + b).contains(c),
{
    if (a + b).contains(c) {
        let w = choose|w: int| 0 <= w < (a + b).len() && (a + b)[w] == c;
        if w < a.len() {
            assert(a[w] == c);
        } else {
            assert(b[w - a.len()] == c);
        }
    }
}

/// The literal pieces of the format hold no newline and no quote where the
/// grammar expects none.
proof fn lemma_literals()
    ensures
        " = \""@ =~= seq![' ', '=', ' ', '"'],
        "\""@ =~= seq!['"'],
        "\n"@ =~= seq!['\n'],
        "basedir"@.len() == 7,
        !"basedir"@.contains('\n'),
        !"basedir"@.contains('"'),
        "name"@.len() == 4,
        !"name"@.contains('\n'),
        "url"@.len() == 3,
        !"url"@.contains('\n'),
        "interval"@.len() == 8,
        !"interval"@.contains('\n'),
        "[[repos."@.len() == 8,
        !"[[repos."@.contains('\n'),
        ".remotes]]"@ =~= seq!['.', 'r', 'e', 'm', 'o', 't', 'e', 's', ']', ']'],
        ".branch]]"@ =~= seq!['.', 'b', 'r', 'a', 'n', 'c', 'h', ']', ']'],
        ".remotes"@ =~= seq!['.', 'r', 'e', 'm', 'o', 't', 'e', 's'],
        ".branch"@ =~= seq!['.', 'b', 'r', 'a', 'n', 'c', 'h'],
        "]]"@ =~= seq![']', ']'],
        "remotes = ["@.len() == 11,
        !"remotes = ["@.contains('\n'),
        !"remotes = ["@.contains('"') == false || !"remotes = ["@.contains('\n'),
        "]"@ =~= seq![']'],
        ", "@ =~= seq![',', ' '],
{
    reveal_strlit(" = \"");
    reveal_strlit("\"");
    reveal_strlit("\n");
    reveal_strlit("basedir");
    reveal_strlit("name");
    reveal_strlit("url");
    reveal_strlit("interval");
    reveal_strlit("[[repos.");
    reveal_strlit(".remotes]]");
    reveal_strlit(".branch]]");
    reveal_strlit(".remotes");
    reveal_strlit(".branch");
    reveal_strlit("]]");
    reveal_strlit("remotes = [");
    reveal_strlit("]");
    reveal_strlit(", ");
}

/// A `key = "value"` body holds no newline when key and value hold none.
proof fn lemma_kv_free(key: Seq<char>, val: Seq<char>)
    requires
        !key.contains('\n'),
        !val.contains('\n'),
    ensures
        !kv(key, val).contains('\n'),
{
    lemma_literals();
    lemma_concat_free(key, " = \""@, '\n');
    lemma_concat_free(key + " = \""@, val, '\n');
    lemma_concat_free(key + " = \""@ + val, "\""@, '\n');
}

/// Splitting a newline-free line off the front of a document returns the
/// line and the rest.
proof fn lemma_line_split(body: Seq<char>, rest: Seq<char>)
    requires
        !body.contains('\n'),
    ensures
        split_line(line_of(body) + rest) == Some((body, rest)),
        find_idx(line_of(body) + rest, '\n') == body.len(),
    decreases body.len(),
{
    lemma_literals();
    let doc = line_of(body) + rest;
    assert forall|j: int| 0 <= j < body.len() implies doc[j] != '\n' by {
        assert(doc[j] == body[j]);
        assert(body.contains('\n') == false);
        if doc[j] == '\n' {
            assert(body[j] == '\n');
            assert(body.contains('\n'));
        }
    }
    lemma_find_idx_skip(doc, '\n', body.len() as int);
    assert(doc.skip(body.len() as int)[0] == '\n');
    assert(find_idx(doc.skip(body.len() as int), '\n') == 0);
    assert(doc.take(body.len() as int) =~= body);
    assert(doc.skip(body.len() as int + 1) =~= rest);
}

/// Parsing a serialized `key = "value"` line returns the value.
proof fn lemma_kv_roundtrip(key: Seq<char>, val: Seq<char>)
    requires
        !val.contains('"'),
    ensures
        parse_quoted_kv(kv(key, val), key) == Some(val),
{
    lemma_literals();
    let l = kv(key, val);
    let pre = key + " = \""@;
    assert(l.take(pre.len() as int) =~= pre);
    assert(l.last() == '"');
    assert(l.subrange(pre.len() as int, l.len() - 1) =~= val);
}

/// Parsing a serialized remotes header returns the name and the remotes
/// kind.
proof fn lemma_header_remotes_roundtrip(rn: Seq<char>)
    requires
        rn.len() > 0,
    ensures
        parse_header(hdr_remotes(rn)) == Some((rn, true)),
{
    lemma_literals();
    let l = hdr_remotes(rn);
    assert(l.take(8) =~= "[[repos."@);
    assert(l.subrange(l.len() - 2, l.len() as int) =~= "]]"@);
    let mid = l.subrange(8, l.len() - 2);
    assert(mid =~= rn + ".remotes"@);
    assert(mid.subrange(mid.len() - 8, mid.len() as int) =~= ".remotes"@);
    assert(mid.take(mid.len() - 8) =~= rn);
}

/// Parsing a serialized branch header returns the name and the branch
/// kind.
proof fn lemma_header_branch_roundtrip(rn: Seq<char>)
    requires
        rn.len() > 0,
    ensures
        parse_header(hdr_branch(rn)) == Some((rn, false)),
{
    lemma_literals();
    let l = hdr_branch(rn);
    assert(l.take(8) =~= "[[repos."@);
    assert(l.subrange(l.len() - 2, l.len() as int) =~= "]]"@);
    let mid = l.subrange(8, l.len() - 2);
    assert(mid =~= rn + ".branch"@);
    if mid.len() > 8 && mid.subrange(mid.len() - 8, mid.len() as int) == ".remotes"@ {
        assert(mid[mid.len() - 1] == 'h');
        assert(mid.subrange(mid.len() - 8, mid.len() as int)[7] == 'h');
        assert(".remotes"@[7] == 's');
        assert(false);
    }
    assert(mid.subrange(mid.len() - 7, mid.len() as int) =~= ".branch"@);
    assert(mid.take(mid.len() - 7) =~= rn);
}

/// Parsing a serialized quoted list, from item `i` on, returns the items
/// from `i` on.
proof fn lemma_list_tail_roundtrip(names: Seq<Seq<char>>, i: int)
    requires
        0 <= i < names.len(),
        forall|j: int| 0 <= j < names.len() ==> !(#[trigger] names[j]).contains('"'),
    ensures
        parse_list(quoted(names[i]) + ser_list_from(names, i + 1)) == Some(names.skip(i)),
    decreases names.len() - i,
{
    lemma_literals();
    let s = quoted(names[i]) + ser_list_from(names, i + 1);
    assert(s[0] == '"');
    let t = s.drop_first();
    assert(t =~= names[i] + "\""@ + ser_list_from(names, i + 1));
    assert forall|j: int| 0 <= j < names[i].len() implies t[j] != '"' by {
        assert(t[j] == names[i][j]);
        if t[j] == '"' {
            assert(names[i].contains('"'));
        }
    }
    lemma_find_idx_skip(t, '"', names[i].len() as int);
    assert(t.skip(names[i].len() as int)[0] == '"');
    assert(find_idx(t.skip(names[i].len() as int), '"') == 0);
    let q = find_idx(t, '"');
    assert(q == names[i].len());
    assert(t.take(q) =~= names[i]);
    let rest = t.skip(q + 1);
    assert(rest =~= ser_list_from(names, i + 1));
    if i + 1 >= names.len() {
        assert(ser_list_from(names, i + 1) =~= Seq::<char>::empty());
        assert(names.skip(i) =~= seq![names[i]]);
    } else {
        assert(ser_list_from(names, i + 1) == ", "@ + quoted(names[i + 1]) + ser_list_from(
            names,
            i + 2,
        ));
        assert(rest.take(2) =~= ", "@);
        assert(rest.len() >= 2);
        assert(rest.skip(2) =~= quoted(names[i + 1]) + ser_list_from(names, i + 2));
        lemma_list_tail_roundtrip(names, i + 1);
        assert(seq![names[i]] + names.skip(i + 1) =~= names.skip(i));
    }
}

/// Parsing a serialized quoted list returns the items.
proof fn lemma_list_roundtrip(names: Seq<Seq<char>>)
    requires
        forall|j: int| 0 <= j < names.len() ==> !(#[trigger] names[j]).contains('"'),
    ensures
        parse_list(ser_list_from(names, 0)) == Some(names),
{
    if names.len() == 0 {
        assert(ser_list_from(names, 0) =~= Seq::<char>::empty());
        assert(parse_list(Seq::empty()) == Some(Seq::<Seq<char>>::empty()));
        assert(names =~= Seq::<Seq<char>>::empty());
    } else {
        assert(ser_list_from(names, 0) =~= quoted(names[0]) + ser_list_from(names, 1));
        lemma_list_tail_roundtrip(names, 0);
        assert(names.skip(0) =~= names);
    }
}

} // verus!

verus! {

/// A blank line before a block is skipped.
proof fn lemma_blank_step(rest: Seq<char>, acc: Seq<(Seq<char>, RepoV)>)
    ensures
        parse_lines("\n"@ + rest, PMode::Top, acc) == parse_lines(rest, PMode::Top, acc),
{
    lemma_literals();
    let s = "\n"@ + rest;
    assert(s[0] == '\n');
    assert(find_idx(s, '\n') == 0);
    assert(s.take(0) =~= Seq::<char>::empty());
    assert(s.skip(1) =~= rest);
}

/// One header line in top mode switches to the block's reading mode.
proof fn lemma_step_header(h: Seq<char>, rest: Seq<char>, acc: Seq<(Seq<char>, RepoV)>)
    requires
        !h.contains('\n'),
        h.len() > 0,
        parse_header(h) is Some,
    ensures
        parse_lines(line_of(h) + rest, PMode::Top, acc) == (match parse_header(h) {
            Some((rn, true)) => parse_lines(rest, PMode::RemoteName(rn), acc),
            Some((rn, false)) => parse_lines(rest, PMode::BranchName(rn), acc),
            None => None,
        }),
{
    lemma_line_split(h, rest);
}

/// One `key = "value"` line advances the reading mode.
proof fn lemma_step_kv(
    key: Seq<char>,
    val: Seq<char>,
    rest: Seq<char>,
    mode: PMode,
    acc: Seq<(Seq<char>, RepoV)>,
)
    requires
        !key.contains('\n'),
        !val.contains('\n'),
        !val.contains('"'),
    ensures
        parse_lines(line_of(kv(key, val)) + rest, mode, acc) == (match mode {
            PMode::RemoteName(rn) => if key == "name"@ {
                parse_lines(rest, PMode::RemoteUrl(rn, val), acc)
            } else {
                parse_lines(line_of(kv(key, val)) + rest, mode, acc)
            },
            PMode::RemoteUrl(rn, nm) => if key == "url"@ {
                parse_lines(rest, PMode::Top, acc_add_remote(acc, rn, RemoteV { name: nm, url: val }))
            } else {
                parse_lines(line_of(kv(key, val)) + rest, mode, acc)
            },
            PMode::BranchName(rn) => if key == "name"@ {
                parse_lines(rest, PMode::BranchInterval(rn, val), acc)
            } else {
                parse_lines(line_of(kv(key, val)) + rest, mode, acc)
            },
            PMode::BranchInterval(rn, nm) => if key == "interval"@ {
                parse_lines(rest, PMode::BranchRemotes(rn, nm, val), acc)
            } else {
                parse_lines(line_of(kv(key, val)) + rest, mode, acc)
            },
            _ => parse_lines(line_of(kv(key, val)) + rest, mode, acc),
        }),
{
    lemma_kv_free(key, val);
    lemma_line_split(kv(key, val), rest);
    lemma_kv_roundtrip(key, val);
}

/// The remotes list line closes a branch block and adds the branch.
proof fn lemma_step_list(
    names: Seq<Seq<char>>,
    rest: Seq<char>,
    rn: Seq<char>,
    nm: Seq<char>,
    iv: Seq<char>,
    acc: Seq<(Seq<char>, RepoV)>,
)
    requires
        forall|j: int| 0 <= j < names.len() ==> clean_str(#[trigger] names[j]),
    ensures
        parse_lines(
            line_of("remotes = ["@ + ser_list_from(names, 0) + "]"@) + rest,
            PMode::BranchRemotes(rn, nm, iv),
            acc,
        ) == parse_lines(
            rest,
            PMode::Top,
            acc_add_branch(acc, rn, BranchV { name: nm, interval: iv, remotes: names }),
        ),
{
    lemma_literals();
    let rl = "remotes = ["@ + ser_list_from(names, 0) + "]"@;
    lemma_list_free(names);
    lemma_concat_free("remotes = ["@, ser_list_from(names, 0), '\n');
    lemma_concat_free("remotes = ["@ + ser_list_from(names, 0), "]"@, '\n');
    lemma_line_split(rl, rest);
    assert(rl.take(11) =~= "remotes = ["@);
    assert(rl.last() == ']');
    assert(rl.len() >= 12);
    assert(rl.subrange(11, rl.len() - 1) =~= ser_list_from(names, 0));
    lemma_list_roundtrip(names);
}

/// Consuming one serialized remotes block adds its remote to the
/// accumulator.
proof fn lemma_remote_block_step(
    rn: Seq<char>,
    r: RemoteV,
    rest: Seq<char>,
    acc: Seq<(Seq<char>, RepoV)>,
)
    requires
        clean_str(rn),
        rn.len() > 0,
        wf_remote(r),
    ensures
        parse_lines(ser_remote_block(rn, r) + rest, PMode::Top, acc) == parse_lines(
            rest,
            PMode::Top,
            acc_add_remote(acc, rn, r),
        ),
{
    lemma_literals();
    let hdr = hdr_remotes(rn);
    let nl = kv("name"@, r.name);
    let ul = kv("url"@, r.url);
    lemma_concat_free("[[repos."@, rn, '\n');
    lemma_concat_free("[[repos."@ + rn, ".remotes]]"@, '\n');
    let rest1 = line_of(nl) + (line_of(ul) + rest);
    assert(ser_remote_block(rn, r) + rest =~= line_of(hdr) + rest1);
    lemma_header_remotes_roundtrip(rn);
    lemma_step_header(hdr, rest1, acc);
    lemma_step_kv("name"@, r.name, line_of(ul) + rest, PMode::RemoteName(rn), acc);
    lemma_step_kv("url"@, r.url, rest, PMode::RemoteUrl(rn, r.name), acc);
    assert(RemoteV { name: r.name, url: r.url } == r);
}

/// Consuming one serialized branch block adds its branch to the
/// accumulator.
proof fn lemma_branch_block_step(
    rn: Seq<char>,
    b: BranchV,
    rest: Seq<char>,
    acc: Seq<(Seq<char>, RepoV)>,
)
    requires
        clean_str(rn),
        rn.len() > 0,
        wf_branch(b),
    ensures
        parse_lines(ser_branch_block(rn, b) + rest, PMode::Top, acc) == parse_lines(
            rest,
            PMode::Top,
            acc_add_branch(acc, rn, b),
        ),
{
    lemma_literals();
    let hdr = hdr_branch(rn);
    let nl = kv("name"@, b.name);
    let il = kv("interval"@, b.interval);
    let rl = "remotes = ["@ + ser_list_from(b.remotes, 0) + "]"@;
    lemma_concat_free("[[repos."@, rn, '\n');
    lemma_concat_free("[[repos."@ + rn, ".branch]]"@, '\n');
    let rest1 = line_of(nl) + (line_of(il) + (line_of(rl) + rest));
    assert(ser_branch_block(rn, b) + rest =~= line_of(hdr) + rest1);
    lemma_header_branch_roundtrip(rn);
    lemma_step_header(hdr, rest1, acc);
    lemma_step_kv("name"@, b.name, line_of(il) + (line_of(rl) + rest), PMode::BranchName(rn), acc);
    lemma_step_kv("interval"@, b.interval, line_of(rl) + rest, PMode::BranchInterval(rn, b.name), acc);
    lemma_step_list(b.remotes, rest, rn, b.name, b.interval, acc);
    assert(BranchV { name: b.name, interval: b.interval, remotes: b.remotes } == b);
}

/// A serialized list of clean names holds no newline.
proof fn lemma_list_free(names: Seq<Seq<char>>)
    requires
        forall|j: int| 0 <= j < names.len() ==> clean_str(#[trigger] names[j]),
    ensures
        !ser_list_from(names, 0).contains('\n'),
{
    lemma_list_free_from(names, 0);
}

/// A serialized list tail of clean names holds no newline.
proof fn lemma_list_free_from(names: Seq<Seq<char>>, i: int)
    requires
        0 <= i,
        forall|j: int| 0 <= j < names.len() ==> clean_str(#[trigger] names[j]),
    ensures
        !ser_list_from(names, i).contains('\n'),
    decreases names.len() - i,
{
    lemma_literals();
    if i < names.len() {
        lemma_list_free_from(names, i + 1);
        let sep = if i > 0 {
            ", "@
        } else {
            Seq::<char>::empty()
        };
        lemma_concat_free("\""@, names[i], '\n');
        lemma_concat_free("\""@ + names[i], "\""@, '\n');
        lemma_concat_free(sep, quoted(names[i]), '\n');
        lemma_concat_free(sep + quoted(names[i]), ser_list_from(names, i + 1), '\n');
    }
}

/// Adding a remote of a key greater than every accumulated key appends a
/// fresh definition.
proof fn lemma_add_remote_append(acc: Seq<(Seq<char>, RepoV)>, rn: Seq<char>, r: RemoteV)
    requires
        forall|j: int| 0 <= j < acc.len() ==> lex_lt((#[trigger] acc[j]).0, rn),
    ensures
        acc_add_remote(acc, rn, r) == acc + seq![
            (rn, RepoV { remotes: seq![r], branch: Seq::empty() }),
        ],
    decreases acc.len(),
{
    if acc.len() == 0 {
        assert(acc_add_remote(acc, rn, r) =~= acc + seq![
            (rn, RepoV { remotes: seq![r], branch: Seq::empty() }),
        ]);
    } else {
        crate::strutil::lemma_lex_lt_irrefl(rn);
        if acc[0].0 == rn {
            assert(false);
        }
        if lex_lt(rn, acc[0].0) {
            crate::strutil::lemma_lex_lt_trans(rn, acc[0].0, rn);
            assert(false);
        }
        let t = acc.drop_first();
        assert forall|j: int| 0 <= j < t.len() implies lex_lt((#[trigger] t[j]).0, rn) by {
            assert(t[j] == acc[j + 1]);
        }
        lemma_add_remote_append(t, rn, r);
        assert(acc_add_remote(acc, rn, r) =~= acc + seq![
            (rn, RepoV { remotes: seq![r], branch: Seq::empty() }),
        ]);
    }
}

/// Adding a remote of the last accumulated key appends it to that
/// definition.
proof fn lemma_add_remote_last(acc: Seq<(Seq<char>, RepoV)>, rn: Seq<char>, r: RemoteV)
    requires
        acc.len() > 0,
        acc.last().0 == rn,
        forall|j: int| 0 <= j < acc.len() - 1 ==> lex_lt((#[trigger] acc[j]).0, rn),
    ensures
        acc_add_remote(acc, rn, r) == acc.update(
            acc.len() - 1,
            (rn, RepoV { remotes: acc.last().1.remotes.push(r), branch: acc.last().1.branch }),
        ),
    decreases acc.len(),
{
    if acc.len() == 1 {
        assert(acc[0].0 == rn);
        assert(acc_add_remote(acc, rn, r) =~= acc.update(
            0,
            (rn, RepoV { remotes: acc.last().1.remotes.push(r), branch: acc.last().1.branch }),
        ));
    } else {
        crate::strutil::lemma_lex_lt_irrefl(rn);
        if acc[0].0 == rn {
            assert(lex_lt(acc[0].0, rn));
            assert(false);
        }
        if lex_lt(rn, acc[0].0) {
            crate::strutil::lemma_lex_lt_trans(rn, acc[0].0, rn);
            assert(false);
        }
        let t = acc.drop_first();
        assert(t.last() == acc.last());
        assert forall|j: int| 0 <= j < t.len() - 1 implies lex_lt((#[trigger] t[j]).0, rn) by {
            assert(t[j] == acc[j + 1]);
        }
        lemma_add_remote_last(t, rn, r);
        assert(acc_add_remote(acc, rn, r) =~= acc.update(
            acc.len() - 1,
            (rn, RepoV { remotes: acc.last().1.remotes.push(r), branch: acc.last().1.branch }),
        ));
    }
}

/// Adding a branch of a key greater than every accumulated key appends a
/// fresh definition.
proof fn lemma_add_branch_append(acc: Seq<(Seq<char>, RepoV)>, rn: Seq<char>, b: BranchV)
    requires
        forall|j: int| 0 <= j < acc.len() ==> lex_lt((#[trigger] acc[j]).0, rn),
    ensures
        acc_add_branch(acc, rn, b) == acc + seq![
            (rn, RepoV { remotes: Seq::empty(), branch: seq![b] }),
        ],
    decreases acc.len(),
{
    if acc.len() == 0 {
        assert(acc_add_branch(acc, rn, b) =~= acc + seq![
            (rn, RepoV { remotes: Seq::empty(), branch: seq![b] }),
        ]);
    } else {
        crate::strutil::lemma_lex_lt_irrefl(rn);
        if acc[0].0 == rn {
            assert(false);
        }
        if lex_lt(rn, acc[0].0) {
            crate::strutil::lemma_lex_lt_trans(rn, acc[0].0, rn);
            assert(false);
        }
        let t = acc.drop_first();
        assert forall|j: int| 0 <= j < t.len() implies lex_lt((#[trigger] t[j]).0, rn) by {
            assert(t[j] == acc[j + 1]);
        }
        lemma_add_branch_append(t, rn, b);
        assert(acc_add_branch(acc, rn, b) =~= acc + seq![
            (rn, RepoV { remotes: Seq::empty(), branch: seq![b] }),
        ]);
    }
}

/// Adding a branch of the last accumulated key appends it to that
/// definition.
proof fn lemma_add_branch_last(acc: Seq<(Seq<char>, RepoV)>, rn: Seq<char>, b: BranchV)
    requires
        acc.len() > 0,
        acc.last().0 == rn,
        forall|j: int| 0 <= j < acc.len() - 1 ==> lex_lt((#[trigger] acc[j]).0, rn),
    ensures
        acc_add_branch(acc, rn, b) == acc.update(
            acc.len() - 1,
            (rn, RepoV { remotes: acc.last().1.remotes, branch: acc.last().1.branch.push(b) }),
        ),
    decreases acc.len(),
{
    if acc.len() == 1 {
        assert(acc[0].0 == rn);
        assert(acc_add_branch(acc, rn, b) =~= acc.update(
            0,
            (rn, RepoV { remotes: acc.last().1.remotes, branch: acc.last().1.branch.push(b) }),
        ));
    } else {
        crate::strutil::lemma_lex_lt_irrefl(rn);
        if acc[0].0 == rn {
            assert(lex_lt(acc[0].0, rn));
            assert(false);
        }
        if lex_lt(rn, acc[0].0) {
            crate::strutil::lemma_lex_lt_trans(rn, acc[0].0, rn);
            assert(false);
        }
        let t = acc.drop_first();
        assert(t.last() == acc.last());
        assert forall|j: int| 0 <= j < t.len() - 1 implies lex_lt((#[trigger] t[j]).0, rn) by {
            assert(t[j] == acc[j + 1]);
        }
        lemma_add_branch_last(t, rn, b);
        assert(acc_add_branch(acc, rn, b) =~= acc.update(
            acc.len() - 1,
            (rn, RepoV { remotes: acc.last().1.remotes, branch: acc.last().1.branch.push(b) }),
        ));
    }
}

} // verus!

verus! {

/// In a strictly ascending key list, every earlier key is below a later
/// one.
proof fn lemma_sorted_before(rs: Seq<(Seq<char>, RepoV)>, j: int, i: int)
    requires
        forall|k: int| 0 <= k < rs.len() - 1 ==> lex_lt((#[trigger] rs[k]).0, rs[k + 1].0),
        0 <= j < i < rs.len(),
    ensures
        lex_lt(rs[j].0, rs[i].0),
    decreases i - j,
{
    if j == i - 1 {
    } else {
        lemma_sorted_before(rs, j, i - 1);
        crate::strutil::lemma_lex_lt_trans(rs[j].0, rs[i - 1].0, rs[i].0);
    }
}

/// Consuming the remotes blocks from index `i` on extends the last
/// accumulated definition's remotes to the full list.
proof fn lemma_parse_remotes(
    acc0: Seq<(Seq<char>, RepoV)>,
    rn: Seq<char>,
    rs: Seq<RemoteV>,
    br: Seq<BranchV>,
    i: int,
    rest: Seq<char>,
)
    requires
        1 <= i <= rs.len(),
        clean_str(rn),
        rn.len() > 0,
        forall|j: int| 0 <= j < rs.len() ==> wf_remote(#[trigger] rs[j]),
        forall|j: int| 0 <= j < acc0.len() ==> lex_lt((#[trigger] acc0[j]).0, rn),
    ensures
        parse_lines(
            ser_remotes_from(rn, rs, i) + rest,
            PMode::Top,
            acc0.push((rn, RepoV { remotes: rs.take(i), branch: br })),
        ) == parse_lines(
            rest,
            PMode::Top,
            acc0.push((rn, RepoV { remotes: rs, branch: br })),
        ),
    decreases rs.len() - i,
{
    let acc = acc0.push((rn, RepoV { remotes: rs.take(i), branch: br }));
    if i == rs.len() {
        assert(ser_remotes_from(rn, rs, i) =~= Seq::<char>::empty());
        assert(ser_remotes_from(rn, rs, i) + rest =~= rest);
        assert(rs.take(i) =~= rs);
    } else {
        assert(ser_remotes_from(rn, rs, i) == "\n"@ + ser_remote_block(rn, rs[i])
            + ser_remotes_from(rn, rs, i + 1));
        assert(ser_remotes_from(rn, rs, i) + rest =~= "\n"@ + (ser_remote_block(rn, rs[i]) + (
        ser_remotes_from(rn, rs, i + 1) + rest)));
        lemma_blank_step(ser_remote_block(rn, rs[i]) + (ser_remotes_from(rn, rs, i + 1) + rest), acc);
        lemma_remote_block_step(rn, rs[i], ser_remotes_from(rn, rs, i + 1) + rest, acc);
        assert(acc.last().0 == rn);
        assert forall|j: int| 0 <= j < acc.len() - 1 implies lex_lt((#[trigger] acc[j]).0, rn) by {
            assert(acc[j] == acc0[j]);
        }
        lemma_add_remote_last(acc, rn, rs[i]);
        assert(acc_add_remote(acc, rn, rs[i]) =~= acc0.push(
            (rn, RepoV { remotes: rs.take(i + 1), branch: br }),
        )) by {
            assert(rs.take(i).push(rs[i]) =~= rs.take(i + 1));
            assert(acc.update(acc.len() - 1, (rn, RepoV { remotes: rs.take(i).push(rs[i]), branch: br }))
                =~= acc0.push((rn, RepoV { remotes: rs.take(i + 1), branch: br })));
        }
        lemma_parse_remotes(acc0, rn, rs, br, i + 1, rest);
    }
}

/// Consuming the branch blocks from index `i` on extends the last
/// accumulated definition's branches to the full list.
proof fn lemma_parse_branches(
    acc0: Seq<(Seq<char>, RepoV)>,
    rn: Seq<char>,
    rems: Seq<RemoteV>,
    bs: Seq<BranchV>,
    i: int,
    rest: Seq<char>,
)
    requires
        0 <= i <= bs.len(),
        i == 0 ==> rems.len() > 0,
        clean_str(rn),
        rn.len() > 0,
        forall|j: int| 0 <= j < bs.len() ==> wf_branch(#[trigger] bs[j]),
        forall|j: int| 0 <= j < acc0.len() ==> lex_lt((#[trigger] acc0[j]).0, rn),
    ensures
        parse_lines(
            ser_branches_from(rn, bs, i, rems.len() > 0) + rest,
            PMode::Top,
            acc0.push((rn, RepoV { remotes: rems, branch: bs.take(i) })),
        ) == parse_lines(
            rest,
            PMode::Top,
            acc0.push((rn, RepoV { remotes: rems, branch: bs })),
        ),
    decreases bs.len() - i,
{
    let lead = rems.len() > 0;
    let acc = acc0.push((rn, RepoV { remotes: rems, branch: bs.take(i) }));
    if i == bs.len() {
        assert(ser_branches_from(rn, bs, i, lead) =~= Seq::<char>::empty());
        assert(ser_branches_from(rn, bs, i, lead) + rest =~= rest);
        assert(bs.take(i) =~= bs);
    } else {
        assert(i > 0 || lead);
        assert(ser_branches_from(rn, bs, i, lead) == "\n"@ + ser_branch_block(rn, bs[i])
            + ser_branches_from(rn, bs, i + 1, lead));
        assert(ser_branches_from(rn, bs, i, lead) + rest =~= "\n"@ + (ser_branch_block(rn, bs[i])
            + (ser_branches_from(rn, bs, i + 1, lead) + rest)));
        lemma_blank_step(
            ser_branch_block(rn, bs[i]) + (ser_branches_from(rn, bs, i + 1, lead) + rest),
            acc,
        );
        lemma_branch_block_step(rn, bs[i], ser_branches_from(rn, bs, i + 1, lead) + rest, acc);
        assert(acc.last().0 == rn);
        assert forall|j: int| 0 <= j < acc.len() - 1 implies lex_lt((#[trigger] acc[j]).0, rn) by {
            assert(acc[j] == acc0[j]);
        }
        lemma_add_branch_last(acc, rn, bs[i]);
        assert(acc_add_branch(acc, rn, bs[i]) =~= acc0.push(
            (rn, RepoV { remotes: rems, branch: bs.take(i + 1) }),
        )) by {
            assert(bs.take(i).push(bs[i]) =~= bs.take(i + 1));
            assert(acc.update(acc.len() - 1, (rn, RepoV { remotes: rems, branch: bs.take(i).push(bs[i]) }))
                =~= acc0.push((rn, RepoV { remotes: rems, branch: bs.take(i + 1) })));
        }
        lemma_parse_branches(acc0, rn, rems, bs, i + 1, rest);
    }
}

/// Consuming all blocks of one repository appends its definition to the
/// accumulator.
proof fn lemma_parse_repo(
    acc0: Seq<(Seq<char>, RepoV)>,
    rn: Seq<char>,
    r: RepoV,
    rest: Seq<char>,
)
    requires
        clean_str(rn),
        rn.len() > 0,
        wf_repo(r),
        forall|j: int| 0 <= j < acc0.len() ==> lex_lt((#[trigger] acc0[j]).0, rn),
    ensures
        parse_lines(ser_repo(rn, r) + rest, PMode::Top, acc0) == parse_lines(
            rest,
            PMode::Top,
            acc0.push((rn, r)),
        ),
{
    let brest = ser_branches_from(rn, r.branch, 0, r.remotes.len() > 0) + rest;
    if r.remotes.len() > 0 {
        assert(ser_remotes_from(rn, r.remotes, 0) == ser_remote_block(rn, r.remotes[0])
            + ser_remotes_from(rn, r.remotes, 1));
        assert(ser_repo(rn, r) + rest =~= ser_remote_block(rn, r.remotes[0]) + (ser_remotes_from(
            rn,
            r.remotes,
            1,
        ) + brest));
        lemma_remote_block_step(rn, r.remotes[0], ser_remotes_from(rn, r.remotes, 1) + brest, acc0);
        lemma_add_remote_append(acc0, rn, r.remotes[0]);
        assert(acc_add_remote(acc0, rn, r.remotes[0]) =~= acc0.push(
            (rn, RepoV { remotes: r.remotes.take(1), branch: Seq::empty() }),
        )) by {
            assert(seq![r.remotes[0]] =~= r.remotes.take(1));
            assert(acc0 + seq![(rn, RepoV { remotes: seq![r.remotes[0]], branch: Seq::empty() })]
                =~= acc0.push((rn, RepoV { remotes: r.remotes.take(1), branch: Seq::empty() })));
        }
        lemma_parse_remotes(acc0, rn, r.remotes, Seq::empty(), 1, brest);
        if r.branch.len() > 0 {
            lemma_parse_branches(acc0, rn, r.remotes, r.branch, 0, rest);
            assert(Seq::<BranchV>::empty() =~= r.branch.take(0));
            assert(RepoV { remotes: r.remotes, branch: r.branch } == r);
        } else {
            assert(ser_branches_from(rn, r.branch, 0, true) =~= Seq::<char>::empty());
            assert(brest =~= rest);
            assert(Seq::<BranchV>::empty() =~= r.branch);
            assert(RepoV { remotes: r.remotes, branch: Seq::empty() } == r);
        }
    } else {
        assert(r.branch.len() > 0);
        assert(ser_remotes_from(rn, r.remotes, 0) =~= Seq::<char>::empty());
        assert(ser_branches_from(rn, r.branch, 0, false) == ser_branch_block(rn, r.branch[0])
            + ser_branches_from(rn, r.branch, 1, false));
        assert(ser_repo(rn, r) + rest =~= ser_branch_block(rn, r.branch[0]) + (ser_branches_from(
            rn,
            r.branch,
            1,
            false,
        ) + rest));
        lemma_branch_block_step(rn, r.branch[0], ser_branches_from(rn, r.branch, 1, false) + rest, acc0);
        lemma_add_branch_append(acc0, rn, r.branch[0]);
        assert(acc_add_branch(acc0, rn, r.branch[0]) =~= acc0.push(
            (rn, RepoV { remotes: r.remotes, branch: r.branch.take(1) }),
        )) by {
            assert(seq![r.branch[0]] =~= r.branch.take(1));
            assert(Seq::<RemoteV>::empty() =~= r.remotes);
            assert(acc0 + seq![(rn, RepoV { remotes: Seq::empty(), branch: seq![r.branch[0]] })]
                =~= acc0.push((rn, RepoV { remotes: r.remotes, branch: r.branch.take(1) })));
        }
        lemma_parse_branches(acc0, rn, r.remotes, r.branch, 1, rest);
        assert(RepoV { remotes: r.remotes, branch: r.branch } == r);
    }
}

/// Consuming the blocks of the repositories from index `i` on, with the
/// first `i` already accumulated, yields them all.
proof fn lemma_parse_repos(rs: Seq<(Seq<char>, RepoV)>, i: int)
    requires
        0 <= i <= rs.len(),
        forall|k: int|
            0 <= k < rs.len() ==> clean_str((#[trigger] rs[k]).0) && rs[k].0.len() > 0 && wf_repo(
                rs[k].1,
            ),
        forall|k: int| 0 <= k < rs.len() - 1 ==> lex_lt((#[trigger] rs[k]).0, rs[k + 1].0),
    ensures
        parse_lines(ser_repos_from(rs, i), PMode::Top, rs.take(i)) == Some(rs),
    decreases rs.len() - i,
{
    if i == rs.len() {
        let s = ser_repos_from(rs, i);
        assert(s =~= Seq::<char>::empty());
        assert(find_idx(s, '\n') < 0);
        assert(rs.take(i) =~= rs);
    } else {
        assert(ser_repos_from(rs, i) == ser_repo(rs[i].0, rs[i].1) + ser_repos_from(rs, i + 1));
        assert forall|j: int| 0 <= j < rs.take(i).len() implies lex_lt(
            (#[trigger] rs.take(i)[j]).0,
            rs[i].0,
        ) by {
            assert(rs.take(i)[j] == rs[j]);
            lemma_sorted_before(rs, j, i);
        }
        lemma_parse_repo(rs.take(i), rs[i].0, rs[i].1, ser_repos_from(rs, i + 1));
        assert(rs.take(i).push((rs[i].0, rs[i].1)) =~= rs.take(i + 1)) by {
            assert((rs[i].0, rs[i].1) == rs[i]);
        }
        lemma_parse_repos(rs, i + 1);
    }
}

/// Round trip: parsing the canonical text of a well-formed configuration
/// returns the configuration unchanged.
pub proof fn lemma_config_round_trip(v: RepomonV)
    requires
        wf_config(v),
    ensures
        parse_config(ser_config(v)) == Some(v),
{
    lemma_literals();
    lemma_kv_free("basedir"@, v.basedir);
    lemma_line_split(kv("basedir"@, v.basedir), ser_repos_from(v.repos, 0));
    lemma_kv_roundtrip("basedir"@, v.basedir);
    assert(Seq::<(Seq<char>, RepoV)>::empty() =~= v.repos.take(0));
    lemma_parse_repos(v.repos, 0);
    assert(RepomonV { basedir: v.basedir, repos: v.repos } == v);
}

} // verus!

verus! {

/// The index of the first `c` at or after `from`, scanning `s`.
#[verifier::loop_isolation(false)]
fn find_char_from(s: &str, from: usize, c: char) -> (r: Option<usize>)
    requires
        from <= s@.len(),
    ensures
        match r {
            Some(i) => from <= i < s@.len() && find_idx(s@.skip(from as int), c) == i - from,
            None => find_idx(s@.skip(from as int), c) < 0,
        },
{
    let n = s.unicode_len();
    let mut i: usize = from;
    loop
        invariant
            from <= i <= n,
            n == s@.len(),
            forall|j: int| from <= j < i ==> s@[j] != c,
        decreases n - i,
    {
        let ghost sub = s@.skip(from as int);
        proof {
            assert forall|j: int| 0 <= j < i - from implies sub[j] != c by {
                assert(sub[j] == s@[from + j]);
            }
        }
        if i == n {
            proof {
                lemma_find_idx_skip(sub, c, i - from);
                assert(sub.skip(i - from) =~= Seq::<char>::empty());
            }
            return None;
        }
        if s.get_char(i) == c {
            proof {
                lemma_find_idx_skip(sub, c, i - from);
                assert(sub.skip(i - from)[0] == s@[i as int]);
            }
            return Some(i);
        }
        i = i + 1;
    }
}

/// Parse a `key = "value"` line body.
fn parse_kv_exec(line: &str, key: &str) -> (r: Option<String>)
    ensures
        match r {
            Some(v) => parse_quoted_kv(line@, key@) == Some(v@),
            None => parse_quoted_kv(line@, key@) is None,
        },
{
    proof {
        lemma_literals();
    }
    let ll = line.unicode_len();
    let kl = key.unicode_len();
    let ghost pre = key@ + " = \""@;
    if ll < kl || ll - kl < 5 {
        return None;
    }
    let mut prefix = key.to_owned();
    prefix.append(" = \"");
    proof {
        assert(prefix@ =~= pre);
    }
    if !crate::strutil::str_eq(line.substring_char(0, kl + 4), prefix.as_str()) {
        proof {
            assert(line@.subrange(0, kl + 4 as int) =~= line@.take(kl + 4 as int));
        }
        return None;
    }
    proof {
        assert(line@.subrange(0, kl + 4 as int) =~= line@.take(kl + 4 as int));
    }
    if line.get_char(ll - 1) != '"' {
        return None;
    }
    let mid = line.substring_char(kl + 4, ll - 1);
    match find_char_from(mid, 0, '"') {
        Some(_) => {
            proof {
                assert(mid@.skip(0) =~= mid@);
                lemma_find_idx_spec(mid@, '"');
            }
            None
        },
        None => {
            proof {
                assert(mid@.skip(0) =~= mid@);
                lemma_find_idx_spec(mid@, '"');
            }
            Some(mid.to_owned())
        },
    }
}

/// Parse a block header line body.
fn parse_header_exec(line: &str) -> (r: Option<(String, bool)>)
    ensures
        match r {
            Some(v) => parse_header(line@) == Some((v.0@, v.1)),
            None => parse_header(line@) is None,
        },
{
    proof {
        lemma_literals();
    }
    let ll = line.unicode_len();
    if ll <= 10 {
        return None;
    }
    if !crate::strutil::str_eq(line.substring_char(0, 8), "[[repos.") {
        proof {
            assert(line@.subrange(0, 8) =~= line@.take(8));
        }
        return None;
    }
    proof {
        assert(line@.subrange(0, 8) =~= line@.take(8));
    }
    if !crate::strutil::str_eq(line.substring_char(ll - 2, ll), "]]") {
        return None;
    }
    let mid = line.substring_char(8, ll - 2);
    let ml = ll - 10;
    proof {
        assert(mid@.len() == ml);
    }
    if ml > 8 {
        if crate::strutil::str_eq(mid.substring_char(ml - 8, ml), ".remotes") {
            let name = mid.substring_char(0, ml - 8).to_owned();
            proof {
                assert(mid@.subrange(0, ml - 8 as int) =~= mid@.take(ml - 8 as int));
            }
            return Some((name, true));
        }
    }
    if ml > 7 {
        if crate::strutil::str_eq(mid.substring_char(ml - 7, ml), ".branch") {
            let name = mid.substring_char(0, ml - 7).to_owned();
            proof {
                assert(mid@.subrange(0, ml - 7 as int) =~= mid@.take(ml - 7 as int));
            }
            return Some((name, false));
        }
    }
    None
}

/// The contents of a list of strings.
pub open spec fn string_views(v: Seq<String>) -> Seq<Seq<char>> {
    v.map_values(|x: String| x@)
}

/// Parse the inside of a quoted, comma-separated list.
#[verifier::loop_isolation(false)]
fn parse_list_exec(inner: &str) -> (r: Option<Vec<String>>)
    ensures
        match r {
            Some(vs) => parse_list(inner@) == Some(string_views(vs@)),
            None => parse_list(inner@) is None,
        },
{
    proof {
        lemma_literals();
    }
    let n = inner.unicode_len();
    let mut out: Vec<String> = Vec::new();
    let mut p: usize = 0;
    proof {
        assert(inner@.skip(0) =~= inner@);
        assert(string_views(out@) =~= Seq::<Seq<char>>::empty());
    }
    loop
        invariant
            p <= n,
            n == inner@.len(),
            match parse_list(inner@.skip(p as int)) {
                Some(tail) => parse_list(inner@) == Some(string_views(out@) + tail),
                None => parse_list(inner@) is None,
            },
        decreases n - p,
    {
        let ghost sp = inner@.skip(p as int);
        if p == n {
            proof {
                assert(sp =~= Seq::<char>::empty());
                assert(string_views(out@) + Seq::<Seq<char>>::empty() =~= string_views(out@));
            }
            return Some(out);
        }
        if inner.get_char(p) != '"' {
            proof {
                assert(sp[0] == inner@[p as int]);
            }
            return None;
        }
        proof {
            assert(sp[0] == inner@[p as int]);
            assert(sp.drop_first() =~= inner@.skip(p + 1));
        }
        match find_char_from(inner, p + 1, '"') {
            None => {
                proof {
                    lemma_find_idx_spec(inner@.skip(p + 1), '"');
                }
                return None;
            },
            Some(qi) => {
                let ghost t = sp.drop_first();
                let ghost q = find_idx(t, '"');
                proof {
                    assert(q == qi - (p + 1));
                    lemma_find_idx_spec(t, '"');
                }
                let v = inner.substring_char(p + 1, qi).to_owned();
                proof {
                    assert(inner@.subrange(p + 1 as int, qi as int) =~= t.take(q));
                }
                let ghost rest = t.skip(q + 1);
                proof {
                    assert(rest =~= inner@.skip(qi + 1 as int));
                }
                if qi + 1 == n {
                    out.push(v);
                    proof {
                        assert(rest.len() == 0);
                        assert(string_views(out@) =~= string_views(out@.drop_last()).push(v@));
                        assert(string_views(out@.drop_last()) + seq![t.take(q)] =~= string_views(
                            out@,
                        ));
                    }
                    return Some(out);
                }
                if n - qi < 3 {
                    proof {
                        assert(rest.len() == 1);
                    }
                    return None;
                }
                if !crate::strutil::str_eq(inner.substring_char(qi + 1, qi + 3), ", ") {
                    proof {
                        assert(inner@.subrange(qi + 1 as int, qi + 3 as int) =~= rest.take(2));
                    }
                    return None;
                }
                proof {
                    assert(inner@.subrange(qi + 1 as int, qi + 3 as int) =~= rest.take(2));
                    assert(rest.skip(2) =~= inner@.skip(qi + 3 as int));
                }
                out.push(v);
                proof {
                    assert(string_views(out@) =~= string_views(out@.drop_last()).push(t.take(q)));
                    if parse_list(inner@.skip(qi + 3 as int)) is Some {
                        let tail2 = parse_list(inner@.skip(qi + 3 as int))->0;
                        assert(string_views(out@.drop_last()) + (seq![t.take(q)] + tail2)
                            =~= string_views(out@) + tail2);
                    }
                }
                p = qi + 3;
            },
        }
    }
}

} // verus!

verus! {

/// Adding under a key that no prefix entry equals or exceeds leaves the
/// prefix in place (remote form).
proof fn lemma_acc_add_remote_prefix(
    s: Seq<(Seq<char>, RepoV)>,
    rn: Seq<char>,
    r: RemoteV,
    i: int,
)
    requires
        0 <= i <= s.len(),
        forall|j: int| 0 <= j < i ==> !lex_lt(rn, (#[trigger] s[j]).0) && rn != s[j].0,
    ensures
        acc_add_remote(s, rn, r) == s.take(i) + acc_add_remote(s.skip(i), rn, r),
    decreases i,
{
    if i == 0 {
        assert(s.skip(0) =~= s);
        assert(s.take(0) + acc_add_remote(s.skip(0), rn, r) =~= acc_add_remote(s, rn, r));
    } else {
        let t = s.drop_first();
        assert forall|j: int| 0 <= j < i - 1 implies !lex_lt(rn, (#[trigger] t[j]).0) && rn
            != t[j].0 by {
            assert(t[j] == s[j + 1]);
        }
        lemma_acc_add_remote_prefix(t, rn, r, i - 1);
        assert(t.take(i - 1) =~= s.take(i).drop_first());
        assert(t.skip(i - 1) =~= s.skip(i));
        assert(s.take(i) + acc_add_remote(s.skip(i), rn, r) =~= seq![s[0]] + (t.take(i - 1)
            + acc_add_remote(t.skip(i - 1), rn, r)));
    }
}

/// Adding under a key that no prefix entry equals or exceeds leaves the
/// prefix in place (branch form).
proof fn lemma_acc_add_branch_prefix(
    s: Seq<(Seq<char>, RepoV)>,
    rn: Seq<char>,
    b: BranchV,
    i: int,
)
    requires
        0 <= i <= s.len(),
        forall|j: int| 0 <= j < i ==> !lex_lt(rn, (#[trigger] s[j]).0) && rn != s[j].0,
    ensures
        acc_add_branch(s, rn, b) == s.take(i) + acc_add_branch(s.skip(i), rn, b),
    decreases i,
{
    if i == 0 {
        assert(s.skip(0) =~= s);
        assert(s.take(0) + acc_add_branch(s.skip(0), rn, b) =~= acc_add_branch(s, rn, b));
    } else {
        let t = s.drop_first();
        assert forall|j: int| 0 <= j < i - 1 implies !lex_lt(rn, (#[trigger] t[j]).0) && rn
            != t[j].0 by {
            assert(t[j] == s[j + 1]);
        }
        lemma_acc_add_branch_prefix(t, rn, b, i - 1);
        assert(t.take(i - 1) =~= s.take(i).drop_first());
        assert(t.skip(i - 1) =~= s.skip(i));
        assert(s.take(i) + acc_add_branch(s.skip(i), rn, b) =~= seq![s[0]] + (t.take(i - 1)
            + acc_add_branch(t.skip(i - 1), rn, b)));
    }
}

/// Add one remote under the repository `rn`, appending it to an existing
/// definition or inserting a fresh one in name order.
#[verifier::loop_isolation(false)]
fn upsert_remote(m: &mut StrMap<Repo>, rn: &str, rv: Remote)
    ensures
        repos_view(*final(m)) == acc_add_remote(repos_view(*old(m)), rn@, remote_v(rv)),
{
    let ghost vs = repos_view(*m);
    let ghost rvv = remote_v(rv);
    let mut i: usize = 0;
    loop
        invariant
            repos_view(*m) == vs,
            m.entries@.len() == vs.len(),
            remote_v(rv) == rvv,
            i <= vs.len(),
            forall|j: int| 0 <= j < i ==> !lex_lt(rn@, (#[trigger] vs[j]).0) && rn@ != vs[j].0,
        decreases vs.len() - i,
    {
        proof {
            if i < vs.len() {
                assert(vs[i as int] == (m.entries@[i as int].0@, repo_v(m.entries@[i as int].1)));
            }
        }
        if i == m.entries.len() {
            proof {
                lemma_acc_add_remote_prefix(vs, rn@, rvv, i as int);
                assert(vs.take(i as int) =~= vs);
            }
            let mut remotes: Vec<Remote> = Vec::new();
            remotes.push(rv);
            let repo = Repo { remotes, branch: Vec::new() };
            proof {
                assert(repo_v(repo).remotes =~= seq![rvv]);
                assert(repo_v(repo).branch =~= Seq::<BranchV>::empty());
                assert(repo_v(repo) == (RepoV { remotes: seq![rvv], branch: Seq::empty() }));
            }
            m.entries.push((rn.to_owned(), repo));
            proof {
                assert(repos_view(*m) =~= vs.take(vs.len() as int) + acc_add_remote(
                    vs.skip(vs.len() as int),
                    rn@,
                    rvv,
                ));
            }
            return ;
        }
        if crate::strutil::str_lt(rn, m.entries[i].0.as_str()) {
            proof {
                lemma_acc_add_remote_prefix(vs, rn@, rvv, i as int);
                assert(vs.skip(i as int)[0] == vs[i as int]);
                crate::strutil::lemma_lex_lt_irrefl(rn@);
            }
            let mut remotes: Vec<Remote> = Vec::new();
            remotes.push(rv);
            let repo = Repo { remotes, branch: Vec::new() };
            proof {
                assert(repo_v(repo).remotes =~= seq![rvv]);
                assert(repo_v(repo).branch =~= Seq::<BranchV>::empty());
                assert(repo_v(repo) == (RepoV { remotes: seq![rvv], branch: Seq::empty() }));
            }
            m.entries.insert(i, (rn.to_owned(), repo));
            proof {
                assert(repos_view(*m) =~= vs.take(i as int) + (seq![
                    (rn@, RepoV { remotes: seq![rvv], branch: Seq::<BranchV>::empty() }),
                ] + vs.skip(i as int)));
            }
            return ;
        }
        if crate::strutil::str_eq(rn, m.entries[i].0.as_str()) {
            proof {
                lemma_acc_add_remote_prefix(vs, rn@, rvv, i as int);
                assert(vs.skip(i as int)[0] == vs[i as int]);
            }
            let entry = m.entries.remove(i);
            let k = entry.0;
            let mut repo = entry.1;
            let ghost oldrepo = repo_v(repo);
            repo.remotes.push(rv);
            proof {
                assert(repo_v(repo).remotes =~= oldrepo.remotes.push(rvv));
                assert(repo_v(repo).branch =~= oldrepo.branch);
                assert(repo_v(repo) == (RepoV {
                    remotes: oldrepo.remotes.push(rvv),
                    branch: oldrepo.branch,
                }));
            }
            m.entries.insert(i, (k, repo));
            proof {
                assert(vs.skip(i as int).drop_first() =~= vs.skip(i + 1));
                assert(repos_view(*m) =~= vs.take(i as int) + (seq![
                    (rn@, RepoV { remotes: oldrepo.remotes.push(rvv), branch: oldrepo.branch }),
                ] + vs.skip(i + 1)));
            }
            return ;
        }
        i = i + 1;
    }
}

/// Add one branch under the repository `rn`, appending it to an existing
/// definition or inserting a fresh one in name order.
#[verifier::loop_isolation(false)]
fn upsert_branch(m: &mut StrMap<Repo>, rn: &str, bv: Branch)
    ensures
        repos_view(*final(m)) == acc_add_branch(repos_view(*old(m)), rn@, branch_v(bv)),
{
    let ghost vs = repos_view(*m);
    let ghost bvv = branch_v(bv);
    let mut i: usize = 0;
    loop
        invariant
            repos_view(*m) == vs,
            m.entries@.len() == vs.len(),
            branch_v(bv) == bvv,
            i <= vs.len(),
            forall|j: int| 0 <= j < i ==> !lex_lt(rn@, (#[trigger] vs[j]).0) && rn@ != vs[j].0,
        decreases vs.len() - i,
    {
        proof {
            if i < vs.len() {
                assert(vs[i as int] == (m.entries@[i as int].0@, repo_v(m.entries@[i as int].1)));
            }
        }
        if i == m.entries.len() {
            proof {
                lemma_acc_add_branch_prefix(vs, rn@, bvv, i as int);
                assert(vs.take(i as int) =~= vs);
            }
            let mut branch: Vec<Branch> = Vec::new();
            branch.push(bv);
            let repo = Repo { remotes: Vec::new(), branch };
            proof {
                assert(repo_v(repo).remotes =~= Seq::<RemoteV>::empty());
                assert(repo_v(repo).branch =~= seq![bvv]);
                assert(repo_v(repo) == (RepoV { remotes: Seq::empty(), branch: seq![bvv] }));
            }
            m.entries.push((rn.to_owned(), repo));
            proof {
                assert(repos_view(*m) =~= vs.take(vs.len() as int) + acc_add_branch(
                    vs.skip(vs.len() as int),
                    rn@,
                    bvv,
                ));
            }
            return ;
        }
        if crate::strutil::str_lt(rn, m.entries[i].0.as_str()) {
            proof {
                lemma_acc_add_branch_prefix(vs, rn@, bvv, i as int);
                assert(vs.skip(i as int)[0] == vs[i as int]);
                crate::strutil::lemma_lex_lt_irrefl(rn@);
            }
            let mut branch: Vec<Branch> = Vec::new();
            branch.push(bv);
            let repo = Repo { remotes: Vec::new(), branch };
            proof {
                assert(repo_v(repo).remotes =~= Seq::<RemoteV>::empty());
                assert(repo_v(repo).branch =~= seq![bvv]);
                assert(repo_v(repo) == (RepoV { remotes: Seq::empty(), branch: seq![bvv] }));
            }
            m.entries.insert(i, (rn.to_owned(), repo));
            proof {
                assert(repos_view(*m) =~= vs.take(i as int) + (seq![
                    (rn@, RepoV { remotes: Seq::<RemoteV>::empty(), branch: seq![bvv] }),
                ] + vs.skip(i as int)));
            }
            return ;
        }
        if crate::strutil::str_eq(rn, m.entries[i].0.as_str()) {
            proof {
                lemma_acc_add_branch_prefix(vs, rn@, bvv, i as int);
                assert(vs.skip(i as int)[0] == vs[i as int]);
            }
            let entry = m.entries.remove(i);
            let k = entry.0;
            let mut repo = entry.1;
            let ghost oldrepo = repo_v(repo);
            repo.branch.push(bv);
            proof {
                assert(repo_v(repo).remotes =~= oldrepo.remotes);
                assert(repo_v(repo).branch =~= oldrepo.branch.push(bvv));
                assert(repo_v(repo) == (RepoV {
                    remotes: oldrepo.remotes,
                    branch: oldrepo.branch.push(bvv),
                }));
            }
            m.entries.insert(i, (k, repo));
            proof {
                assert(vs.skip(i as int).drop_first() =~= vs.skip(i + 1));
                assert(repos_view(*m) =~= vs.take(i as int) + (seq![
                    (rn@, RepoV { remotes: oldrepo.remotes, branch: oldrepo.branch.push(bvv) }),
                ] + vs.skip(i + 1)));
            }
            return ;
        }
        i = i + 1;
    }
}

} // verus!

verus! {

/// What the reader expects of the next line, carrying what it has read of
/// the current block.
enum LineMode {
    /// A header or a blank line.
    Top,
    /// The name line of a remotes block.
    RemoteName(String),
    /// The url line of a remotes block.
    RemoteUrl(String, String),
    /// The name line of a branch block.
    BranchName(String),
    /// The interval line of a branch block.
    BranchInterval(String, String),
    /// The remotes list line of a branch block.
    BranchRemotes(String, String, String),
}

/// The content of a reading mode.
spec fn mode_v(m: LineMode) -> PMode {
    match m {
        LineMode::Top => PMode::Top,
        LineMode::RemoteName(rn) => PMode::RemoteName(rn@),
        LineMode::RemoteUrl(rn, nm) => PMode::RemoteUrl(rn@, nm@),
        LineMode::BranchName(rn) => PMode::BranchName(rn@),
        LineMode::BranchInterval(rn, nm) => PMode::BranchInterval(rn@, nm@),
        LineMode::BranchRemotes(rn, nm, iv) => PMode::BranchRemotes(rn@, nm@, iv@),
    }
}

/// Parse a configuration document.
///
/// Returns the configuration a canonical document describes, and
/// `ConfigError` exactly when the document does not parse.
#[verifier::loop_isolation(false)]
#[verifier::rlimit(60)]
pub fn read_toml(s: &str) -> (r: Result<Repomon, Error>)
    ensures
        match r {
            Ok(c) => parse_config(s@) == Some(repomon_v(c)),
            Err(e) => parse_config(s@) is None && e matches Error::ConfigError(_),
        },
{
    proof {
        lemma_literals();
    }
    let n = s.unicode_len();
    let f0 = match find_char_from(s, 0, '\n') {
        Some(i) => i,
        None => {
            proof {
                assert(s@.skip(0) =~= s@);
            }
            return Err(Error::ConfigError("missing basedir line".to_owned()));
        },
    };
    proof {
        assert(s@.skip(0) =~= s@);
    }
    let line0 = s.substring_char(0, f0);
    proof {
        assert(line0@ =~= s@.take(f0 as int));
    }
    let bd = match parse_kv_exec(line0, "basedir") {
        Some(v) => v,
        None => {
            return Err(Error::ConfigError("missing basedir line".to_owned()));
        },
    };
    let ghost p0 = f0 + 1;
    let mut repos: StrMap<Repo> = StrMap::new();
    let mut mode = LineMode::Top;
    let mut p: usize = f0 + 1;
    proof {
        assert(repos_view(repos) =~= Seq::<(Seq<char>, RepoV)>::empty());
    }
    loop
        invariant
            p0 <= p <= n,
            n == s@.len(),
            0 <= f0 < n,
            p0 == f0 + 1,
            parse_config(s@) == (match parse_lines(s@.skip(p0 as int), PMode::Top, Seq::empty()) {
                Some(rs) => Some(RepomonV { basedir: bd@, repos: rs }),
                None => None,
            }),
            parse_lines(s@.skip(p0 as int), PMode::Top, Seq::empty()) == parse_lines(
                s@.skip(p as int),
                mode_v(mode),
                repos_view(repos),
            ),
        decreases n - p,
    {
        let ghost sp = s@.skip(p as int);
        let nl = match find_char_from(s, p, '\n') {
            Some(i) => i,
            None => {
                if p == n {
                    match mode {
                        LineMode::Top => {
                            proof {
                                assert(sp =~= Seq::<char>::empty());
                            }
                            return Ok(Repomon { basedir: bd, repos });
                        },
                        _ => {
                            return Err(Error::ConfigError("truncated block".to_owned()));
                        },
                    }
                } else {
                    return Err(Error::ConfigError("missing final newline".to_owned()));
                }
            },
        };
        let ghost f = nl - p;
        proof {
            assert(find_idx(sp, '\n') == f);
            assert(0 <= f < sp.len());
        }
        let line = s.substring_char(p, nl);
        proof {
            assert(line@ =~= sp.take(f));
            assert(sp.skip(f + 1) =~= s@.skip(nl + 1 as int));
        }
        let lnext: usize = nl + 1;
        mode = match mode {
            LineMode::Top => {
                if line.unicode_len() == 0 {
                    LineMode::Top
                } else {
                    match parse_header_exec(line) {
                        Some((rn, true)) => LineMode::RemoteName(rn),
                        Some((rn, false)) => LineMode::BranchName(rn),
                        None => {
                            return Err(Error::ConfigError("unexpected line".to_owned()));
                        },
                    }
                }
            },
            LineMode::RemoteName(rn) => {
                match parse_kv_exec(line, "name") {
                    Some(v) => LineMode::RemoteUrl(rn, v),
                    None => {
                        return Err(Error::ConfigError("malformed remote block".to_owned()));
                    },
                }
            },
            LineMode::RemoteUrl(rn, nm) => {
                match parse_kv_exec(line, "url") {
                    Some(u) => {
                        upsert_remote(&mut repos, rn.as_str(), Remote { name: nm, url: u });
                        LineMode::Top
                    },
                    None => {
                        return Err(Error::ConfigError("malformed remote block".to_owned()));
                    },
                }
            },
            LineMode::BranchName(rn) => {
                match parse_kv_exec(line, "name") {
                    Some(v) => LineMode::BranchInterval(rn, v),
                    None => {
                        return Err(Error::ConfigError("malformed branch block".to_owned()));
                    },
                }
            },
            LineMode::BranchInterval(rn, nm) => {
                match parse_kv_exec(line, "interval") {
                    Some(v) => LineMode::BranchRemotes(rn, nm, v),
                    None => {
                        return Err(Error::ConfigError("malformed branch block".to_owned()));
                    },
                }
            },
            LineMode::BranchRemotes(rn, nm, iv) => {
                let ll = line.unicode_len();
                if ll < 12 {
                    return Err(Error::ConfigError("malformed branch block".to_owned()));
                }
                if !crate::strutil::str_eq(line.substring_char(0, 11), "remotes = [") {
                    proof {
                        assert(line@.subrange(0, 11) =~= line@.take(11));
                    }
                    return Err(Error::ConfigError("malformed branch block".to_owned()));
                }
                proof {
                    assert(line@.subrange(0, 11) =~= line@.take(11));
                }
                if line.get_char(ll - 1) != ']' {
                    return Err(Error::ConfigError("malformed branch block".to_owned()));
                }
                let inner = line.substring_char(11, ll - 1);
                match parse_list_exec(inner) {
                    Some(vs) => {
                        let ghost bvv = BranchV { name: nm@, interval: iv@, remotes: string_views(vs@) };
                        let br = Branch { name: nm, interval: iv, remotes: vs };
                        proof {
                            assert(branch_v(br) == bvv);
                        }
                        upsert_branch(&mut repos, rn.as_str(), br);
                        LineMode::Top
                    },
                    None => {
                        return Err(Error::ConfigError("malformed branch block".to_owned()));
                    },
                }
            },
        };
        p = lnext;
    }
}

} // verus!
