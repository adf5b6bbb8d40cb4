//! The divergence engine: ahead/behind counts over a commit graph, the
//! status sentence for a (branch, remote) pair, and the rendering of
//! working-tree status flags.
//!
//! The commit graph is handed in as plain values: one node per commit,
//! children before parents, each node naming its parents by index. The
//! caller extracts this from the repository; the engine computes counts of
//! commits reachable from one tip but not the other.

use vstd::prelude::*;

use crate::strutil::spec_dec;
use crate::strutil::u64_to_dec;

verus! {

/// One commit: its identifier and the indices of its parent commits.
#[derive(Debug, Clone, PartialEq)]
pub struct CommitNode {
    /// The commit identifier (e.g. a 40-digit hex object id).
    pub id: String,
    /// Indices of the parents within the owning graph's node list.
    pub parents: Vec<usize>,
}

/// A commit graph in topological order: every parent stands strictly after
/// its child in the node list.
#[derive(Debug, Clone, PartialEq)]
pub struct CommitGraph {
    /// The commits, children before parents.
    pub nodes: Vec<CommitNode>,
}

/// Whether the graph is topologically ordered: each node's parents have
/// strictly greater indices and lie inside the node list.
pub open spec fn graph_wf(g: CommitGraph) -> bool {
    forall|i: int, k: int|
        0 <= i < g.nodes@.len() && 0 <= k < g.nodes@[i].parents@.len() ==> i < (
        #[trigger] g.nodes@[i].parents@[k]) < g.nodes@.len()
}

/// Whether commit `i` is reachable from commit `from` by following parent
/// edges (every commit reaches itself).
pub open spec fn reachable(g: CommitGraph, from: int, i: int) -> bool
    decreases i,
{
    0 <= i < g.nodes@.len() && (i == from || exists|j: int|
        0 <= j < i && (#[trigger] g.nodes@[j].parents@).contains(i as usize) && reachable(
            g,
            from,
            j,
        ))
}

/// How many of the first `n` commits are reachable from `a` but not from
/// `b`.
pub open spec fn diff_count(g: CommitGraph, a: int, b: int, n: int) -> nat
    decreases n,
{
    if n <= 0 {
        0
    } else {
        diff_count(g, a, b, n - 1) + if reachable(g, a, n - 1) && !reachable(g, b, n - 1) {
            1nat
        } else {
            0nat
        }
    }
}

/// How many commits are reachable from `a` but not from `b`: the "ahead"
/// count of `a` relative to `b`.
pub open spec fn spec_ahead(g: CommitGraph, a: int, b: int) -> nat {
    diff_count(g, a, b, g.nodes@.len() as int)
}

/// A commit is never ahead of itself: comparing any commit with itself
/// yields the counts (0, 0).
pub proof fn lemma_ahead_behind_reflexive(g: CommitGraph, x: int)
    ensures
        spec_ahead(g, x, x) == 0,
{
    lemma_diff_count_self(g, x, g.nodes@.len() as int);
}

/// No prefix holds a commit reachable from `x` but not from `x`.
proof fn lemma_diff_count_self(g: CommitGraph, x: int, n: int)
    ensures
        diff_count(g, x, x, n) == 0,
    decreases n,
{
    if n > 0 {
        lemma_diff_count_self(g, x, n - 1);
    }
}

/// How many commits are reachable from `b` but not from `a`: the "behind"
/// count of `a` relative to `b`.
pub open spec fn spec_behind(g: CommitGraph, a: int, b: int) -> nat {
    diff_count(g, b, a, g.nodes@.len() as int)
}

/// Being behind is being ahead seen from the other side: the behind count
/// of `a` relative to `b` is the ahead count of `b` relative to `a`.
pub proof fn lemma_behind_is_ahead_swapped(g: CommitGraph, a: int, b: int)
    ensures
        spec_behind(g, a, b) == spec_ahead(g, b, a),
{
}

/// Whether `v` holds `x`.
fn vec_contains_usize(v: &Vec<usize>, x: usize) -> (r: bool)
    ensures
        r == v@.contains(x),
{
    let mut i: usize = 0;
    loop
        invariant
            i <= v@.len(),
            forall|k: int| 0 <= k < i ==> v@[k] != x,
        decreases v@.len() - i,
    {
        if i == v.len() {
            return false;
        }
        if v[i] == x {
            return true;
        }
        i = i + 1;
    }
}

/// The marks of the commits reachable from `from`, computed in one forward
/// pass over the topologically ordered node list.
#[verifier::loop_isolation(false)]
fn reach_marks(g: &CommitGraph, from: usize) -> (r: Vec<bool>)
    requires
        graph_wf(*g),
        from < g.nodes@.len(),
    ensures
        r@.len() == g.nodes@.len(),
        forall|i: int| 0 <= i < r@.len() ==> r@[i] == reachable(*g, from as int, i),
{
    let n = g.nodes.len();
    let mut marks: Vec<bool> = Vec::new();
    let mut i: usize = 0;
    while i < n
        invariant
            i <= n,
            marks@.len() == i,
            forall|t: int| 0 <= t < i ==> marks@[t] == reachable(*g, from as int, t),
        decreases n - i,
    {
        let mut hit = i == from;
        let mut j: usize = 0;
        while j < i
            invariant
                j <= i,
                hit == (i == from || exists|t: int|
                    0 <= t < j && (#[trigger] g.nodes@[t].parents@).contains(i) && reachable(
                        *g,
                        from as int,
                        t,
                    )),
            decreases i - j,
        {
            if marks[j] && vec_contains_usize(&g.nodes[j].parents, i) {
                hit = true;
            }
            j = j + 1;
        }
        marks.push(hit);
        i = i + 1;
    }
    marks
}

/// Compute the (ahead, behind) counts between the commits at indices `a`
/// and `b`: commits reachable from `a` but not `b`, and the reverse.
#[verifier::loop_isolation(false)]
pub fn ahead_behind(g: &CommitGraph, a: usize, b: usize) -> (r: (usize, usize))
    requires
        graph_wf(*g),
        a < g.nodes@.len(),
        b < g.nodes@.len(),
    ensures
        r.0 == spec_ahead(*g, a as int, b as int),
        r.1 == spec_behind(*g, a as int, b as int),
{
    let n = g.nodes.len();
    let reach_a = reach_marks(g, a);
    let reach_b = reach_marks(g, b);
    let mut ahead: usize = 0;
    let mut behind: usize = 0;
    let mut i: usize = 0;
    while i < n
        invariant
            i <= n,
            ahead == diff_count(*g, a as int, b as int, i as int),
            behind == diff_count(*g, b as int, a as int, i as int),
            ahead <= i,
            behind <= i,
        decreases n - i,
    {
        if reach_a[i] && !reach_b[i] {
            ahead = ahead + 1;
        }
        if reach_b[i] && !reach_a[i] {
            behind = behind + 1;
        }
        i = i + 1;
    }
    (ahead, behind)
}

/// The quoted comparison target, `'<remote>/<branch>'`.
pub open spec fn spec_target(remote: Seq<char>, branch: Seq<char>) -> Seq<char> {
    "'"@ + remote + "/"@ + branch + "'"@
}

/// The status sentence for a (branch, remote) pair with the given counts:
/// ahead, behind, up to date, or diverged.
pub open spec fn spec_status_sentence(
    remote: Seq<char>,
    branch: Seq<char>,
    ahead: nat,
    behind: nat,
) -> Seq<char> {
    let target = spec_target(remote, branch);
    if ahead > 0 && behind == 0 {
        "Your branch is ahead of "@ + target + " by "@ + spec_dec(ahead) + " commit(s)"@
    } else if behind > 0 && ahead == 0 {
        "Your branch is behind "@ + target + " by "@ + spec_dec(behind) + " commit(s)"@
    } else if ahead == 0 && behind == 0 {
        "Your branch is up to date with "@ + target
    } else {
        "Your branch is ahead of "@ + target + " by "@ + spec_dec(ahead) + " and behind by "@
            + spec_dec(behind) + " commit(s)"@
    }
}

/// Render the status sentence for a (branch, remote) pair.
pub fn render_status(remote: &str, branch: &str, ahead: usize, behind: usize) -> (r: String)
    ensures
        r@ == spec_status_sentence(remote@, branch@, ahead as nat, behind as nat),
{
    let mut target = "'".to_owned();
    target.append(remote);
    target.append("/");
    target.append(branch);
    target.append("'");
    if ahead > 0 && behind == 0 {
        let mut r = "Your branch is ahead of ".to_owned();
        r.append(target.as_str());
        r.append(" by ");
        let d = u64_to_dec(ahead as u64);
        r.append(d.as_str());
        r.append(" commit(s)");
        r
    } else if behind > 0 && ahead == 0 {
        let mut r = "Your branch is behind ".to_owned();
        r.append(target.as_str());
        r.append(" by ");
        let d = u64_to_dec(behind as u64);
        r.append(d.as_str());
        r.append(" commit(s)");
        r
    } else if ahead == 0 && behind == 0 {
        let mut r = "Your branch is up to date with ".to_owned();
        r.append(target.as_str());
        r
    } else {
        let mut r = "Your branch is ahead of ".to_owned();
        r.append(target.as_str());
        r.append(" by ");
        let da = u64_to_dec(ahead as u64);
        r.append(da.as_str());
        r.append(" and behind by ");
        let db = u64_to_dec(behind as u64);
        r.append(db.as_str());
        r.append(" commit(s)");
        r
    }
}

/// The working-tree status flags of one path, index and working tree held
/// apart. A path may carry several flags at once.
#[derive(Debug, Clone, Copy, PartialEq, Eq, Structural, Default)]
pub struct StatusFlags {
    /// Newly added in the index.
    pub idx_new: bool,
    /// Modified in the index.
    pub idx_modified: bool,
    /// Deleted in the index.
    pub idx_deleted: bool,
    /// Type changed in the index.
    pub idx_typechange: bool,
    /// Renamed in the index.
    pub idx_renamed: bool,
    /// Newly added in the working tree.
    pub wt_new: bool,
    /// Modified in the working tree.
    pub wt_modified: bool,
    /// Deleted in the working tree.
    pub wt_deleted: bool,
    /// Type changed in the working tree.
    pub wt_typechange: bool,
    /// Renamed in the working tree.
    pub wt_renamed: bool,
    /// Ignored.
    pub ignored: bool,
    /// In conflict.
    pub conflicted: bool,
}

/// The label sequence `[l]` if `b` holds, else nothing.
pub open spec fn maybe_label(b: bool, l: Seq<char>) -> Seq<Seq<char>> {
    if b {
        seq![l]
    } else {
        Seq::empty()
    }
}

/// The applicable labels of `s`, in the fixed vocabulary order.
pub open spec fn status_labels(s: StatusFlags) -> Seq<Seq<char>> {
    maybe_label(s.idx_new, "idx-new"@) + maybe_label(s.idx_modified, "idx-modified"@)
        + maybe_label(s.idx_deleted, "idx-deleted"@) + maybe_label(
        s.idx_typechange,
        "idx-typechange"@,
    ) + maybe_label(s.idx_renamed, "idx-renamed"@) + maybe_label(s.wt_new, "wt-new"@)
        + maybe_label(s.wt_modified, "wt-modified"@) + maybe_label(s.wt_deleted, "wt-deleted"@)
        + maybe_label(s.wt_typechange, "wt-typechange"@) + maybe_label(s.wt_renamed, "wt-renamed"@)
        + maybe_label(s.ignored, "ignored"@) + maybe_label(s.conflicted, "conflicted"@)
}

/// The parts joined with commas, in order.
pub open spec fn join_comma(parts: Seq<Seq<char>>) -> Seq<char>
    decreases parts.len(),
{
    if parts.len() == 0 {
        Seq::empty()
    } else if parts.len() == 1 {
        parts[0]
    } else {
        join_comma(parts.drop_last()) + ","@ + parts.last()
    }
}

/// The composite status text of `s`: all applicable labels, comma-joined.
pub open spec fn spec_status_out(s: StatusFlags) -> Seq<char> {
    join_comma(status_labels(s))
}

/// The views of the collected label slices.
pub open spec fn label_views(parts: Seq<&str>) -> Seq<Seq<char>> {
    parts.map_values(|p: &str| p@)
}

/// Join the parts with commas.
#[verifier::loop_isolation(false)]
fn join_comma_exec(parts: &Vec<&str>) -> (r: String)
    ensures
        r@ == join_comma(label_views(parts@)),
{
    let mut r = String::new();
    let mut i: usize = 0;
    while i < parts.len()
        invariant
            i <= parts@.len(),
            r@ == join_comma(label_views(parts@).take(i as int)),
        decreases parts@.len() - i,
    {
        if i > 0 {
            r.append(",");
        }
        r.append(parts[i]);
        proof {
            let lv = label_views(parts@);
            assert(lv.take(i + 1).drop_last() =~= lv.take(i as int));
            assert(lv.take(i + 1).last() == lv[i as int]);
            if i == 0 {
                assert(r@ =~= lv.take(1)[0]);
            }
        }
        i = i + 1;
    }
    proof {
        assert(label_views(parts@).take(parts@.len() as int) =~= label_views(parts@));
    }
    r
}

/// Append the label `l` to `parts` if `b` holds.
fn push_label<'a>(parts: &mut Vec<&'a str>, b: bool, l: &'a str)
    ensures
        label_views(final(parts)@) == label_views(old(parts)@) + maybe_label(b, l@),
{
    if b {
        parts.push(l);
    }
    proof {
        assert(label_views(parts@) =~= label_views(old(parts)@) + maybe_label(b, l@));
    }
}

/// Append to `out` the composite text for the flags of one path: every
/// applicable flag label, comma-joined, in the fixed vocabulary order.
pub fn status_out(status: &StatusFlags, out: &mut String)
    ensures
        final(out)@ == old(out)@ + spec_status_out(*status),
{
    let mut parts: Vec<&str> = Vec::new();
    let s = *status;
    proof {
        assert(label_views(parts@) =~= Seq::<Seq<char>>::empty());
    }
    push_label(&mut parts, s.idx_new, "idx-new");
    push_label(&mut parts, s.idx_modified, "idx-modified");
    push_label(&mut parts, s.idx_deleted, "idx-deleted");
    push_label(&mut parts, s.idx_typechange, "idx-typechange");
    push_label(&mut parts, s.idx_renamed, "idx-renamed");
    push_label(&mut parts, s.wt_new, "wt-new");
    push_label(&mut parts, s.wt_modified, "wt-modified");
    push_label(&mut parts, s.wt_deleted, "wt-deleted");
    push_label(&mut parts, s.wt_typechange, "wt-typechange");
    push_label(&mut parts, s.wt_renamed, "wt-renamed");
    push_label(&mut parts, s.ignored, "ignored");
    push_label(&mut parts, s.conflicted, "conflicted");
    proof {
        assert(label_views(parts@) =~= status_labels(s));
    }
    let joined = join_comma_exec(&parts);
    out.append(joined.as_str());
}

} // verus!
