//! Status messages.
//!
//! One message reports, for one repository, the status text of every
//! (branch, remote) pair of a completed check cycle. Messages carry a
//! freshly generated identifier with no meaning beyond de-duplication and
//! tracing; their maps are ordered by name for deterministic display.

use vstd::prelude::*;

use crate::config::Branch;
use crate::config::BranchV;
use crate::config::Remote;
use crate::config::RemoteV;
use crate::config::branch_v;
use crate::config::remote_v;
use crate::divergence::spec_status_sentence;
use crate::error::Error;
use crate::strutil::lex_lt;

verus! {

/// The mathematical content of a `Message`.
pub struct MessageV {
    /// The message identifier.
    pub uuid: Seq<char>,
    /// The repository name.
    pub repo: Seq<char>,
    /// Per branch, the status text of each remote.
    pub messages: Seq<(BranchV, Seq<(RemoteV, Seq<char>)>)>,
}

/// The status texts of one branch's remotes, ascending by remote name.
#[derive(Debug, Clone, PartialEq)]
pub struct RemoteMessages {
    /// The (remote, status text) pairs, ascending by remote name.
    pub entries: Vec<(Remote, String)>,
}

/// The content of a remote-message map.
pub open spec fn rm_view(m: RemoteMessages) -> Seq<(RemoteV, Seq<char>)> {
    m.entries@.map_values(|e: (Remote, String)| (remote_v(e.0), e.1@))
}

/// The entry list after binding `r` to `t`, keyed by remote name:
/// replaces an entry of equal name, otherwise inserts before the first
/// greater name.
pub open spec fn rm_insert(
    s: Seq<(RemoteV, Seq<char>)>,
    r: RemoteV,
    t: Seq<char>,
) -> Seq<(RemoteV, Seq<char>)>
    decreases s.len(),
{
    if s.len() == 0 {
        seq![(r, t)]
    } else if lex_lt(r.name, s[0].0.name) {
        seq![(r, t)] + s
    } else if r.name == s[0].0.name {
        seq![(r, t)] + s.drop_first()
    } else {
        seq![s[0]] + rm_insert(s.drop_first(), r, t)
    }
}

/// Inserting a name that no prefix entry equals or exceeds leaves the
/// prefix in place.
proof fn lemma_rm_insert_prefix(s: Seq<(RemoteV, Seq<char>)>, r: RemoteV, t: Seq<char>, i: int)
    requires
        0 <= i <= s.len(),
        forall|j: int| 0 <= j < i ==> !lex_lt(r.name, (#[trigger] s[j]).0.name) && r.name != s[j].0.name,
    ensures
        rm_insert(s, r, t) == s.take(i) + rm_insert(s.skip(i), r, t),
    decreases i,
{
    if i == 0 {
        assert(s.skip(0) =~= s);
        assert(s.take(0) + rm_insert(s.skip(0), r, t) =~= rm_insert(s, r, t));
    } else {
        let u = s.drop_first();
        assert forall|j: int| 0 <= j < i - 1 implies !lex_lt(r.name, (#[trigger] u[j]).0.name)
            && r.name != u[j].0.name by {
            assert(u[j] == s[j + 1]);
        }
        lemma_rm_insert_prefix(u, r, t, i - 1);
        assert(u.take(i - 1) =~= s.take(i).drop_first());
        assert(u.skip(i - 1) =~= s.skip(i));
        assert(s.take(i) + rm_insert(s.skip(i), r, t) =~= seq![s[0]] + (u.take(i - 1) + rm_insert(
            u.skip(i - 1),
            r,
            t,
        )));
    }
}

impl RemoteMessages {
    /// An empty map.
    pub fn new() -> (r: RemoteMessages)
        ensures
            rm_view(r) =~= Seq::<(RemoteV, Seq<char>)>::empty(),
    {
        let r = RemoteMessages { entries: Vec::new() };
        proof {
            assert(rm_view(r) =~= Seq::<(RemoteV, Seq<char>)>::empty());
        }
        r
    }

    /// The number of entries.
    pub fn len(&self) -> (r: usize)
        ensures
            r == rm_view(*self).len(),
    {
        self.entries.len()
    }

    /// Bind the remote `r` to the status text `t`, keeping the entries
    /// ascending by remote name.
    #[verifier::loop_isolation(false)]
    pub fn insert(&mut self, r: Remote, t: String)
        ensures
            rm_view(*final(self)) == rm_insert(rm_view(*old(self)), remote_v(r), t@),
    {
        let ghost vs = rm_view(*self);
        let ghost rv = remote_v(r);
        let ghost tv = t@;
        let mut i: usize = 0;
        loop
            invariant
                rm_view(*self) == vs,
                self.entries@.len() == vs.len(),
                remote_v(r) == rv,
                t@ == tv,
                i <= vs.len(),
                forall|j: int|
                    0 <= j < i ==> !lex_lt(rv.name, (#[trigger] vs[j]).0.name) && rv.name
                        != vs[j].0.name,
            decreases vs.len() - i,
        {
            proof {
                if i < vs.len() {
                    assert(vs[i as int] == (remote_v(self.entries@[i as int].0),
                    self.entries@[i as int].1@));
                }
            }
            if i == self.entries.len() {
                proof {
                    lemma_rm_insert_prefix(vs, rv, tv, i as int);
                    assert(vs.take(i as int) =~= vs);
                }
                self.entries.push((r, t));
                proof {
                    assert(rm_view(*self) =~= vs.take(vs.len() as int) + rm_insert(
                        vs.skip(vs.len() as int),
                        rv,
                        tv,
                    ));
                }
                return ;
            }
            if crate::strutil::str_lt(r.name.as_str(), self.entries[i].0.name.as_str()) {
                proof {
                    lemma_rm_insert_prefix(vs, rv, tv, i as int);
                }
                self.entries.insert(i, (r, t));
                proof {
                    assert(rm_view(*self) =~= vs.take(i as int) + (seq![(rv, tv)] + vs.skip(
                        i as int,
                    )));
                }
                return ;
            }
            if crate::strutil::str_eq(r.name.as_str(), self.entries[i].0.name.as_str()) {
                proof {
                    lemma_rm_insert_prefix(vs, rv, tv, i as int);
                }
                self.entries.remove(i);
                self.entries.insert(i, (r, t));
                proof {
                    assert(vs.skip(i as int).drop_first() =~= vs.skip(i + 1));
                    assert(rm_view(*self) =~= vs.take(i as int) + (seq![(rv, tv)] + vs.skip(i + 1)));
                }
                return ;
            }
            i = i + 1;
        }
    }
}

/// The per-branch maps of one message, ascending by branch name.
#[derive(Debug, Clone, PartialEq)]
pub struct BranchMessages {
    /// The (branch, remote messages) pairs, ascending by branch name.
    pub entries: Vec<(Branch, RemoteMessages)>,
}

/// The content of a branch-message map.
pub open spec fn bm_view(m: BranchMessages) -> Seq<(BranchV, Seq<(RemoteV, Seq<char>)>)> {
    m.entries@.map_values(|e: (Branch, RemoteMessages)| (branch_v(e.0), rm_view(e.1)))
}

/// The entry list after binding `b` to `rm`, keyed by branch name.
pub open spec fn bm_insert(
    s: Seq<(BranchV, Seq<(RemoteV, Seq<char>)>)>,
    b: BranchV,
    rm: Seq<(RemoteV, Seq<char>)>,
) -> Seq<(BranchV, Seq<(RemoteV, Seq<char>)>)>
    decreases s.len(),
{
    if s.len() == 0 {
        seq![(b, rm)]
    } else if lex_lt(b.name, s[0].0.name) {
        seq![(b, rm)] + s
    } else if b.name == s[0].0.name {
        seq![(b, rm)] + s.drop_first()
    } else {
        seq![s[0]] + bm_insert(s.drop_first(), b, rm)
    }
}

/// Inserting a name that no prefix entry equals or exceeds leaves the
/// prefix in place.
proof fn lemma_bm_insert_prefix(
    s: Seq<(BranchV, Seq<(RemoteV, Seq<char>)>)>,
    b: BranchV,
    rm: Seq<(RemoteV, Seq<char>)>,
    i: int,
)
    requires
        0 <= i <= s.len(),
        forall|j: int| 0 <= j < i ==> !lex_lt(b.name, (#[trigger] s[j]).0.name) && b.name != s[j].0.name,
    ensures
        bm_insert(s, b, rm) == s.take(i) + bm_insert(s.skip(i), b, rm),
    decreases i,
{
    if i == 0 {
        assert(s.skip(0) =~= s);
        assert(s.take(0) + bm_insert(s.skip(0), b, rm) =~= bm_insert(s, b, rm));
    } else {
        let u = s.drop_first();
        assert forall|j: int| 0 <= j < i - 1 implies !lex_lt(b.name, (#[trigger] u[j]).0.name)
            && b.name != u[j].0.name by {
            assert(u[j] == s[j + 1]);
        }
        lemma_bm_insert_prefix(u, b, rm, i - 1);
        assert(u.take(i - 1) =~= s.take(i).drop_first());
        assert(u.skip(i - 1) =~= s.skip(i));
        assert(s.take(i) + bm_insert(s.skip(i), b, rm) =~= seq![s[0]] + (u.take(i - 1) + bm_insert(
            u.skip(i - 1),
            b,
            rm,
        )));
    }
}

impl BranchMessages {
    /// An empty map.
    pub fn new() -> (r: BranchMessages)
        ensures
            bm_view(r) =~= Seq::<(BranchV, Seq<(RemoteV, Seq<char>)>)>::empty(),
    {
        let r = BranchMessages { entries: Vec::new() };
        proof {
            assert(bm_view(r) =~= Seq::<(BranchV, Seq<(RemoteV, Seq<char>)>)>::empty());
        }
        r
    }

    /// The number of entries.
    pub fn len(&self) -> (r: usize)
        ensures
            r == bm_view(*self).len(),
    {
        self.entries.len()
    }

    /// Bind the branch `b` to the remote messages `rm`, keeping the
    /// entries ascending by branch name.
    #[verifier::loop_isolation(false)]
    pub fn insert(&mut self, b: Branch, rm: RemoteMessages)
        ensures
            bm_view(*final(self)) == bm_insert(bm_view(*old(self)), branch_v(b), rm_view(rm)),
    {
        let ghost vs = bm_view(*self);
        let ghost bv = branch_v(b);
        let ghost rv = rm_view(rm);
        let mut i: usize = 0;
        loop
            invariant
                bm_view(*self) == vs,
                self.entries@.len() == vs.len(),
                branch_v(b) == bv,
                rm_view(rm) == rv,
                i <= vs.len(),
                forall|j: int|
                    0 <= j < i ==> !lex_lt(bv.name, (#[trigger] vs[j]).0.name) && bv.name
                        != vs[j].0.name,
            decreases vs.len() - i,
        {
            proof {
                if i < vs.len() {
                    assert(vs[i as int] == (branch_v(self.entries@[i as int].0),
                    rm_view(self.entries@[i as int].1)));
                }
            }
            if i == self.entries.len() {
                proof {
                    lemma_bm_insert_prefix(vs, bv, rv, i as int);
                    assert(vs.take(i as int) =~= vs);
                }
                self.entries.push((b, rm));
                proof {
                    assert(bm_view(*self) =~= vs.take(vs.len() as int) + bm_insert(
                        vs.skip(vs.len() as int),
                        bv,
                        rv,
                    ));
                }
                return ;
            }
            if crate::strutil::str_lt(b.name.as_str(), self.entries[i].0.name.as_str()) {
                proof {
                    lemma_bm_insert_prefix(vs, bv, rv, i as int);
                }
                self.entries.insert(i, (b, rm));
                proof {
                    assert(bm_view(*self) =~= vs.take(i as int) + (seq![(bv, rv)] + vs.skip(
                        i as int,
                    )));
                }
                return ;
            }
            if crate::strutil::str_eq(b.name.as_str(), self.entries[i].0.name.as_str()) {
                proof {
                    lemma_bm_insert_prefix(vs, bv, rv, i as int);
                }
                self.entries.remove(i);
                self.entries.insert(i, (b, rm));
                proof {
                    assert(vs.skip(i as int).drop_first() =~= vs.skip(i + 1));
                    assert(bm_view(*self) =~= vs.take(i as int) + (seq![(bv, rv)] + vs.skip(i + 1)));
                }
                return ;
            }
            i = i + 1;
        }
    }
}

/// A status message: a fresh identifier, the repository name, and one
/// status text per (branch, remote) pair of the check cycle.
#[derive(Debug, Clone, PartialEq)]
pub struct Message {
    /// The unique message identifier.
    pub uuid: String,
    /// The repo name.
    pub repo: String,
    /// The messages per branch/remote combo.
    pub messages: BranchMessages,
}

/// The content of a message.
pub open spec fn msg_view(m: Message) -> MessageV {
    MessageV { uuid: m.uuid@, repo: m.repo@, messages: bm_view(m.messages) }
}

impl Message {
    /// The message identifier.
    pub fn uuid(&self) -> (r: &String)
        ensures
            r@ == self.uuid@,
    {
        &self.uuid
    }

    /// The repository name.
    pub fn repo(&self) -> (r: &String)
        ensures
            r@ == self.repo@,
    {
        &self.repo
    }

    /// The per-branch maps.
    pub fn messages(&self) -> (r: &BranchMessages)
        ensures
            r == self.messages,
    {
        &self.messages
    }

    /// Replace the identifier.
    pub fn set_uuid(&mut self, val: String)
        ensures
            *final(self) == (Message {
                uuid: val,
                repo: old(self).repo,
                messages: old(self).messages,
            }),
    {
        self.uuid = val;
    }

    /// Replace the repository name.
    pub fn set_repo(&mut self, val: String)
        ensures
            *final(self) == (Message {
                uuid: old(self).uuid,
                repo: val,
                messages: old(self).messages,
            }),
    {
        self.repo = val;
    }

    /// Replace the per-branch maps.
    pub fn set_messages(&mut self, val: BranchMessages)
        ensures
            *final(self) == (Message {
                uuid: old(self).uuid,
                repo: old(self).repo,
                messages: val,
            }),
    {
        self.messages = val;
    }
}

impl Default for Message {
    /// A message with empty identifier, empty repository name and no
    /// entries.
    fn default() -> (r: Message)
        ensures
            msg_view(r).uuid == Seq::<char>::empty(),
            msg_view(r).repo == Seq::<char>::empty(),
            msg_view(r).messages =~= Seq::<(BranchV, Seq<(RemoteV, Seq<char>)>)>::empty(),
    {
        let r = Message { uuid: String::new(), repo: String::new(), messages: BranchMessages::new() };
        r
    }
}

/// One rendered line: `<uuid>: <repo>/<branch> (<remote>) - <text>`.
pub open spec fn spec_msg_line(
    uuid: Seq<char>,
    repo: Seq<char>,
    bname: Seq<char>,
    rname: Seq<char>,
    text: Seq<char>,
) -> Seq<char> {
    uuid + ": "@ + repo + "/"@ + bname + " ("@ + rname + ") - "@ + text
}

/// The lines of one branch's remotes, a newline between consecutive
/// lines and none after the last.
pub open spec fn spec_group_text(
    uuid: Seq<char>,
    repo: Seq<char>,
    bname: Seq<char>,
    rms: Seq<(RemoteV, Seq<char>)>,
) -> Seq<char>
    decreases rms.len(),
{
    if rms.len() == 0 {
        Seq::empty()
    } else if rms.len() == 1 {
        spec_msg_line(uuid, repo, bname, rms[0].0.name, rms[0].1)
    } else {
        spec_group_text(uuid, repo, bname, rms.drop_last()) + "\n"@ + spec_msg_line(
            uuid,
            repo,
            bname,
            rms.last().0.name,
            rms.last().1,
        )
    }
}

/// The branch groups' texts, concatenated in map order.
pub open spec fn spec_groups_text(
    uuid: Seq<char>,
    repo: Seq<char>,
    groups: Seq<(BranchV, Seq<(RemoteV, Seq<char>)>)>,
) -> Seq<char>
    decreases groups.len(),
{
    if groups.len() == 0 {
        Seq::empty()
    } else {
        spec_groups_text(uuid, repo, groups.drop_last()) + spec_group_text(
            uuid,
            repo,
            groups.last().0.name,
            groups.last().1,
        )
    }
}

/// The display text of a whole message.
pub open spec fn spec_message_text(m: MessageV) -> Seq<char> {
    spec_groups_text(m.uuid, m.repo, m.messages)
}

impl Message {
    /// Render the message for display: one line per (branch, remote)
    /// pair, a newline between the lines of one branch.
    #[verifier::loop_isolation(false)]
    pub fn render(&self) -> (r: String)
        ensures
            r@ == spec_message_text(msg_view(*self)),
    {
        let ghost groups = bm_view(self.messages);
        let mut out = String::new();
        let mut gi: usize = 0;
        while gi < self.messages.entries.len()
            invariant
                gi <= groups.len(),
                groups.len() == self.messages.entries@.len(),
                out@ == spec_groups_text(self.uuid@, self.repo@, groups.take(gi as int)),
            decreases groups.len() - gi,
        {
            proof {
                assert(groups[gi as int] == (branch_v(self.messages.entries@[gi as int].0),
                rm_view(self.messages.entries@[gi as int].1)));
            }
            let ghost rms = rm_view(self.messages.entries@[gi as int].1);
            let ghost bname = self.messages.entries@[gi as int].0.name@;
            let group = &self.messages.entries[gi];
            let mut ri: usize = 0;
            while ri < group.1.entries.len()
                invariant
                    ri <= rms.len(),
                    rms.len() == group.1.entries@.len(),
                    rms == rm_view(group.1),
                    bname == group.0.name@,
                    out@ == spec_groups_text(self.uuid@, self.repo@, groups.take(gi as int))
                        + spec_group_text(self.uuid@, self.repo@, bname, rms.take(ri as int)),
                decreases rms.len() - ri,
            {
                proof {
                    assert(rms[ri as int] == (remote_v(group.1.entries@[ri as int].0),
                    group.1.entries@[ri as int].1@));
                    assert(rms.take(ri + 1).drop_last() =~= rms.take(ri as int));
                    assert(rms.take(ri + 1).last() == rms[ri as int]);
                }
                if ri > 0 {
                    out.append("\n");
                }
                out.append(self.uuid.as_str());
                out.append(": ");
                out.append(self.repo.as_str());
                out.append("/");
                out.append(group.0.name.as_str());
                out.append(" (");
                out.append(group.1.entries[ri].0.name.as_str());
                out.append(") - ");
                out.append(group.1.entries[ri].1.as_str());
                proof {
                    if ri == 0 {
                        assert(out@ =~= spec_groups_text(self.uuid@, self.repo@, groups.take(
                            gi as int,
                        )) + spec_group_text(self.uuid@, self.repo@, bname, rms.take(1)));
                    } else {
                        assert(out@ =~= spec_groups_text(self.uuid@, self.repo@, groups.take(
                            gi as int,
                        )) + spec_group_text(self.uuid@, self.repo@, bname, rms.take(ri + 1)));
                    }
                }
                ri = ri + 1;
            }
            proof {
                assert(rms.take(rms.len() as int) =~= rms);
                assert(groups.take(gi + 1).drop_last() =~= groups.take(gi as int));
                assert(groups.take(gi + 1).last() == groups[gi as int]);
            }
            gi = gi + 1;
        }
        proof {
            assert(groups.take(groups.len() as int) =~= groups);
        }
        out
    }
}

/// Relies on `uuid::Uuid::new_v4` and the `Display` impl of `uuid::Uuid`:
/// a freshly drawn version-4 UUID rendered in the hyphenated form is 36
/// characters, each a lowercase hexadecimal digit or a hyphen. The value
/// is random; nothing more is assumed of it.
#[verifier::external_body]
fn fresh_message_id() -> (r: String)
    ensures
        r@.len() == 36,
        forall|i: int|
            0 <= i < r@.len() ==> (r@[i] == '-' || (48 <= #[trigger] (r@[i] as u32) <= 57) || (97
                <= (r@[i] as u32) <= 102)),
{
    uuid::Uuid::new_v4().to_string()
}

/// The status text for one remote of a finished check: the status
/// sentence on success, the error's explanatory text on failure.
pub fn status_for(
    branch_name: &str,
    remote_name: &str,
    outcome: &Result<(usize, usize), Error>,
) -> (r: String)
    ensures
        match outcome {
            Ok(c) => r@ == spec_status_sentence(
                remote_name@,
                branch_name@,
                c.0 as nat,
                c.1 as nat,
            ),
            Err(e) => r@ == e.spec_text(),
        },
{
    match outcome {
        Ok(c) => crate::divergence::render_status(remote_name, branch_name, c.0, c.1),
        Err(e) => e.text(),
    }
}

/// Assemble the status message of one completed branch check cycle: a
/// fresh identifier, the repository name, and the given per-remote texts
/// under the given branch.
pub fn emit(repo: &str, branch: Branch, per_remote: RemoteMessages) -> (m: Message)
    ensures
        msg_view(m).repo == repo@,
        msg_view(m).messages =~= seq![(branch_v(branch), rm_view(per_remote))],
        msg_view(m).uuid.len() == 36,
        forall|i: int|
            0 <= i < msg_view(m).uuid.len() ==> (msg_view(m).uuid[i] == '-' || (48 <= #[trigger] (
            msg_view(m).uuid[i] as u32) <= 57) || (97 <= (msg_view(m).uuid[i] as u32) <= 102)),
{
    let mut messages = BranchMessages::new();
    messages.insert(branch, per_remote);
    Message { uuid: fresh_message_id(), repo: repo.to_owned(), messages }
}

} // verus!
