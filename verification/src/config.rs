//! The configuration model: which repositories, branches and remotes to
//! watch, and how often.
//!
//! A configuration is loaded once at startup and replaced wholesale by a
//! reconfigure; nothing mutates a live configuration in place. The interval
//! grammar is `value` followed by one unit letter (`s`, `m`, `h`, `d`), and
//! an interval is converted to milliseconds as `value * factor` with the
//! factors 1000, 60000, 3600000 and 86400000.

use vstd::prelude::*;

use crate::error::Error;
use crate::strmap::StrMap;

verus! {

/// Whether `c` is a decimal digit.
pub open spec fn is_digit(c: char) -> bool {
    48 <= (c as u32) <= 57
}

/// The numeric value of the digit `c`.
pub open spec fn digit_val(c: char) -> nat
    recommends
        is_digit(c),
{
    ((c as u32) - 48) as nat
}

/// Whether `c` is an interval unit letter.
pub open spec fn is_unit(c: char) -> bool {
    c == 's' || c == 'm' || c == 'h' || c == 'd'
}

/// Milliseconds per unit `c`.
pub open spec fn unit_factor(c: char) -> nat
    recommends
        is_unit(c),
{
    if c == 's' {
        1000
    } else if c == 'm' {
        60000
    } else if c == 'h' {
        3600000
    } else {
        86400000
    }
}

/// The number written by a digit sequence, most significant digit first.
pub open spec fn digits_val(s: Seq<char>) -> nat
    decreases s.len(),
{
    if s.len() == 0 {
        0
    } else {
        digits_val(s.drop_last()) * 10 + digit_val(s.last())
    }
}

/// Whether `s` matches the interval grammar: one or more digits followed by
/// exactly one unit letter.
pub open spec fn is_interval(s: Seq<char>) -> bool {
    &&& s.len() >= 2
    &&& (forall|i: int| 0 <= i < s.len() - 1 ==> is_digit(#[trigger] s[i]))
    &&& is_unit(s[s.len() - 1])
}

/// The milliseconds an interval string stands for: its value times its
/// unit's factor.
pub open spec fn interval_ms(s: Seq<char>) -> nat
    recommends
        is_interval(s),
{
    digits_val(s.take(s.len() - 1)) * unit_factor(s[s.len() - 1])
}

/// A longer digit prefix never writes a smaller number.
proof fn lemma_digits_val_monotone(s: Seq<char>, i: int, j: int)
    requires
        0 <= i <= j <= s.len(),
    ensures
        digits_val(s.take(i)) <= digits_val(s.take(j)),
    decreases j - i,
{
    if i < j {
        lemma_digits_val_monotone(s, i, j - 1);
        assert(s.take(j).drop_last() =~= s.take(j - 1));
        assert(digits_val(s.take(j)) == digits_val(s.take(j - 1)) * 10 + digit_val(
            s.take(j).last(),
        ));
    }
}

/// The milliseconds of an interval are at least its digit value.
proof fn lemma_interval_ms_lower_bound(s: Seq<char>)
    requires
        is_interval(s),
    ensures
        interval_ms(s) >= digits_val(s.take(s.len() - 1)),
{
    let u = s[s.len() - 1];
    let v = digits_val(s.take(s.len() - 1));
    if u == 's' {
        assert(interval_ms(s) == v * 1000);
    } else if u == 'm' {
        assert(interval_ms(s) == v * 60000);
    } else if u == 'h' {
        assert(interval_ms(s) == v * 3600000);
    } else {
        assert(interval_ms(s) == v * 86400000);
    }
}

/// The mathematical content of a `Remote`: its field contents as
/// character sequences.
pub struct RemoteV {
    /// The remote name.
    pub name: Seq<char>,
    /// The remote url.
    pub url: Seq<char>,
}

/// The mathematical content of a `Branch`.
pub struct BranchV {
    /// The branch name.
    pub name: Seq<char>,
    /// The interval string.
    pub interval: Seq<char>,
    /// The referenced remote names.
    pub remotes: Seq<Seq<char>>,
}

/// The mathematical content of a `Repo`.
pub struct RepoV {
    /// The remotes.
    pub remotes: Seq<RemoteV>,
    /// The monitored branches.
    pub branch: Seq<BranchV>,
}

/// The mathematical content of a whole configuration.
pub struct RepomonV {
    /// The base directory.
    pub basedir: Seq<char>,
    /// Repository definitions, keyed by name, ascending.
    pub repos: Seq<(Seq<char>, RepoV)>,
}

/// The content of a `Remote`.
pub open spec fn remote_v(r: Remote) -> RemoteV {
    RemoteV { name: r.name@, url: r.url@ }
}

/// The content of a `Branch`.
pub open spec fn branch_v(b: Branch) -> BranchV {
    BranchV {
        name: b.name@,
        interval: b.interval@,
        remotes: b.remotes@.map_values(|s: String| s@),
    }
}

/// The content of a `Repo`.
pub open spec fn repo_v(r: Repo) -> RepoV {
    RepoV {
        remotes: r.remotes@.map_values(|x: Remote| remote_v(x)),
        branch: r.branch@.map_values(|x: Branch| branch_v(x)),
    }
}

/// The content of a repository map.
pub open spec fn repos_view(m: StrMap<Repo>) -> Seq<(Seq<char>, RepoV)> {
    m.entries@.map_values(|e: (String, Repo)| (e.0@, repo_v(e.1)))
}

/// The content of a configuration.
pub open spec fn repomon_v(c: Repomon) -> RepomonV {
    RepomonV { basedir: c.basedir@, repos: repos_view(c.repos) }
}

/// A remote a branch is compared against: a short name and a fetch URL.
/// Two remotes of one repository must have distinct names.
#[derive(Debug, Clone, PartialEq)]
pub struct Remote {
    /// The remote name, i.e. 'origin'
    pub name: String,
    /// The remote url
    pub url: String,
}

impl Remote {
    /// The remote name.
    pub fn name(&self) -> (r: &String)
        ensures
            r@ == self.name@,
    {
        &self.name
    }

    /// The remote url.
    pub fn url(&self) -> (r: &String)
        ensures
            r@ == self.url@,
    {
        &self.url
    }

    /// Replace the remote name.
    pub fn set_name(&mut self, val: String)
        ensures
            *final(self) == (Remote { name: val, url: old(self).url }),
    {
        self.name = val;
    }

    /// Replace the remote url.
    pub fn set_url(&mut self, val: String)
        ensures
            *final(self) == (Remote { name: old(self).name, url: val }),
    {
        self.url = val;
    }
}

impl Default for Remote {
    /// A remote with empty name and url.
    fn default() -> (r: Remote)
        ensures
            r.name@ == Seq::<char>::empty(),
            r.url@ == Seq::<char>::empty(),
    {
        Remote { name: String::new(), url: String::new() }
    }
}

/// A branch to monitor: its name, its check interval, and the names of the
/// remotes to compare it against.
#[derive(Debug, Clone, PartialEq)]
pub struct Branch {
    /// The branch name, i.e. 'master'
    pub name: String,
    /// The interval to check the branch for changes.
    pub interval: String,
    /// The list of remotes to check this branch against.
    pub remotes: Vec<String>,
}

impl Branch {
    /// The branch name.
    pub fn name(&self) -> (r: &String)
        ensures
            r@ == self.name@,
    {
        &self.name
    }

    /// The interval string.
    pub fn interval(&self) -> (r: &String)
        ensures
            r@ == self.interval@,
    {
        &self.interval
    }

    /// The names of the remotes this branch is checked against.
    pub fn remotes(&self) -> (r: &Vec<String>)
        ensures
            r@ == self.remotes@,
    {
        &self.remotes
    }

    /// Replace the branch name.
    pub fn set_name(&mut self, val: String)
        ensures
            *final(self) == (Branch {
                name: val,
                interval: old(self).interval,
                remotes: old(self).remotes,
            }),
    {
        self.name = val;
    }

    /// Replace the interval string.
    pub fn set_interval(&mut self, val: String)
        ensures
            *final(self) == (Branch {
                name: old(self).name,
                interval: val,
                remotes: old(self).remotes,
            }),
    {
        self.interval = val;
    }

    /// Replace the remote names.
    pub fn set_remotes(&mut self, val: Vec<String>)
        ensures
            *final(self) == (Branch {
                name: old(self).name,
                interval: old(self).interval,
                remotes: val,
            }),
    {
        self.remotes = val;
    }

    /// Convert the branch's interval to milliseconds.
    ///
    /// Returns `value * factor` for a string matching the interval grammar
    /// whose milliseconds fit the machine word, and
    /// `InvalidIntervalFormat` with the offending string otherwise.
    #[verifier::loop_isolation(false)]
    pub fn interval_to_ms(&self) -> (r: Result<usize, Error>)
        ensures
            is_interval(self.interval@) && interval_ms(self.interval@) <= usize::MAX ==> (r
                matches Ok(v) && v == interval_ms(self.interval@)),
            !(is_interval(self.interval@) && interval_ms(self.interval@) <= usize::MAX) ==> (r
                matches Err(e) && e matches Error::InvalidIntervalFormat(t) && t@
                == self.interval@),
    {
        let s = self.interval.as_str();
        let n = s.unicode_len();
        if n < 2 {
            return Err(Error::InvalidIntervalFormat(self.interval.clone()));
        }
        let mut val: usize = 0;
        let mut i: usize = 0;
        while i < n - 1
            invariant
                i <= n - 1,
                val == digits_val(s@.take(i as int)),
                forall|j: int| 0 <= j < i ==> is_digit(#[trigger] s@[j]),
            decreases n - 1 - i,
        {
            let c = s.get_char(i);
            let u = c as u32;
            if u < 48 || u > 57 {
                return Err(Error::InvalidIntervalFormat(self.interval.clone()));
            }
            let d = (u - 48) as usize;
            proof {
                assert(s@.take(i + 1).drop_last() =~= s@.take(i as int));
                assert(s@.take(i + 1).last() == s@[i as int]);
            }
            let step = match val.checked_mul(10) {
                Some(m) => m.checked_add(d),
                None => None,
            };
            match step {
                Some(next) => {
                    val = next;
                },
                None => {
                    proof {
                        assert(digits_val(s@.take(i + 1)) > usize::MAX);
                        lemma_digits_val_monotone(s@, i + 1, n - 1);
                        if is_interval(s@) {
                            lemma_interval_ms_lower_bound(s@);
                        }
                    }
                    return Err(Error::InvalidIntervalFormat(self.interval.clone()));
                },
            }
            i = i + 1;
        }
        let u = s.get_char(n - 1);
        let factor: usize = match u {
            's' => 1000,
            'm' => 60000,
            'h' => 3600000,
            'd' => 86400000,
            _ => {
                return Err(Error::InvalidIntervalFormat(self.interval.clone()));
            },
        };
        match val.checked_mul(factor) {
            Some(ms) => Ok(ms),
            None => Err(Error::InvalidIntervalFormat(self.interval.clone())),
        }
    }
}

impl Default for Branch {
    /// A branch with empty name, empty interval and no remotes.
    fn default() -> (r: Branch)
        ensures
            r.name@ == Seq::<char>::empty(),
            r.interval@ == Seq::<char>::empty(),
            r.remotes@ == Seq::<String>::empty(),
    {
        Branch { name: String::new(), interval: String::new(), remotes: Vec::new() }
    }
}

/// One repository definition: its remotes and its monitored branches.
#[derive(Debug, Clone, PartialEq)]
pub struct Repo {
    /// The repository remotes for branch comparison.
    pub remotes: Vec<Remote>,
    /// The repository branches to monitor.
    pub branch: Vec<Branch>,
}

impl Repo {
    /// The repository remotes.
    pub fn remotes(&self) -> (r: &Vec<Remote>)
        ensures
            r@ == self.remotes@,
    {
        &self.remotes
    }

    /// The monitored branches.
    pub fn branch(&self) -> (r: &Vec<Branch>)
        ensures
            r@ == self.branch@,
    {
        &self.branch
    }

    /// Replace the remotes.
    pub fn set_remotes(&mut self, val: Vec<Remote>)
        ensures
            *final(self) == (Repo { remotes: val, branch: old(self).branch }),
    {
        self.remotes = val;
    }

    /// Replace the branches.
    pub fn set_branch(&mut self, val: Vec<Branch>)
        ensures
            *final(self) == (Repo { remotes: old(self).remotes, branch: val }),
    {
        self.branch = val;
    }
}

impl Default for Repo {
    /// A repository with no remotes and no branches.
    fn default() -> (r: Repo)
        ensures
            r.remotes@ == Seq::<Remote>::empty(),
            r.branch@ == Seq::<Branch>::empty(),
    {
        Repo { remotes: Vec::new(), branch: Vec::new() }
    }
}

/// The whole configuration: a base directory and the repositories to
/// monitor, keyed by repository name.
#[derive(Debug, Clone, PartialEq)]
pub struct Repomon {
    /// The base directory to look for repositories.
    pub basedir: String,
    /// A map of repository name to repository definitions.
    pub repos: StrMap<Repo>,
}

impl Repomon {
    /// The base directory.
    pub fn basedir(&self) -> (r: &String)
        ensures
            r@ == self.basedir@,
    {
        &self.basedir
    }

    /// The repository map.
    pub fn repos(&self) -> (r: &StrMap<Repo>)
        ensures
            r == self.repos,
    {
        &self.repos
    }

    /// Replace the base directory.
    pub fn set_basedir(&mut self, val: String)
        ensures
            *final(self) == (Repomon { basedir: val, repos: old(self).repos }),
    {
        self.basedir = val;
    }

    /// Replace the repository map.
    pub fn set_repos(&mut self, val: StrMap<Repo>)
        ensures
            *final(self) == (Repomon { basedir: old(self).basedir, repos: val }),
    {
        self.repos = val;
    }
}

impl Default for Repomon {
    /// A configuration with empty base directory and no repositories.
    fn default() -> (r: Repomon)
        ensures
            r.basedir@ == Seq::<char>::empty(),
            r.repos.entries@ == Seq::<(String, Repo)>::empty(),
    {
        Repomon { basedir: String::new(), repos: StrMap::new() }
    }
}

} // verus!

verus! {

/// Whether remote names are pairwise distinct.
pub open spec fn names_distinct(rs: Seq<RemoteV>) -> bool {
    forall|i: int, j: int|
        0 <= i < j < rs.len() ==> (#[trigger] rs[i]).name != (#[trigger] rs[j]).name
}

/// Whether the repository's remotes have pairwise distinct names.
pub open spec fn remotes_distinct(r: RepoV) -> bool {
    names_distinct(r.remotes)
}

/// Whether every remote name a branch references is declared by the
/// owning repository.
/// Whether some remote in the list carries the name `n`.
pub open spec fn has_name(rs: Seq<RemoteV>, n: Seq<char>) -> bool {
    exists|m: int| 0 <= m < rs.len() && (#[trigger] rs[m]).name == n
}

pub open spec fn branch_refs_ok(r: RepoV) -> bool {
    forall|i: int, k: int|
        #![trigger r.branch[i].remotes[k]]
        0 <= i < r.branch.len() && 0 <= k < r.branch[i].remotes.len() ==> has_name(
            r.remotes,
            r.branch[i].remotes[k],
        )
}

/// Whether one repository definition is valid.
pub open spec fn repo_valid(r: RepoV) -> bool {
    remotes_distinct(r) && branch_refs_ok(r)
}

/// Whether every repository definition of the configuration is valid.
pub open spec fn config_valid(v: RepomonV) -> bool {
    forall|i: int| 0 <= i < v.repos.len() ==> repo_valid((#[trigger] v.repos[i]).1)
}

/// Whether the remotes have pairwise distinct names.
#[verifier::loop_isolation(false)]
fn remotes_distinct_exec(remotes: &Vec<Remote>) -> (b: bool)
    ensures
        b == names_distinct(remotes@.map_values(|x: Remote| remote_v(x))),
{
    let ghost rv = remotes@.map_values(|x: Remote| remote_v(x));
    let mut i: usize = 0;
    loop
        invariant
            i <= rv.len(),
            rv.len() == remotes@.len(),
            forall|a: int, c: int|
                0 <= a < c < rv.len() && a < i ==> (#[trigger] rv[a]).name != (
                #[trigger] rv[c]).name,
        decreases rv.len() - i,
    {
        if i == remotes.len() {
            return true;
        }
        let mut j: usize = i + 1;
        loop
            invariant
                i < j <= rv.len(),
                forall|c: int| i < c < j ==> (#[trigger] rv[c]).name != rv[i as int].name,
            decreases rv.len() - j,
        {
            if j == remotes.len() {
                break ;
            }
            proof {
                assert(rv[i as int] == remote_v(remotes@[i as int]));
                assert(rv[j as int] == remote_v(remotes@[j as int]));
            }
            if crate::strutil::str_eq(remotes[i].name.as_str(), remotes[j].name.as_str()) {
                proof {
                    assert(rv[i as int].name == rv[j as int].name);
                    assert(!names_distinct(rv));
                }
                return false;
            }
            j = j + 1;
        }
        i = i + 1;
    }
}

/// Whether some remote's view is named `name`.
#[verifier::loop_isolation(false)]
fn has_remote(remotes: &Vec<Remote>, name: &str) -> (b: bool)
    ensures
        b == has_name(remotes@.map_values(|x: Remote| remote_v(x)), name@),
{
    let ghost rv = remotes@.map_values(|x: Remote| remote_v(x));
    let mut m: usize = 0;
    loop
        invariant
            m <= rv.len(),
            rv.len() == remotes@.len(),
            forall|c: int| 0 <= c < m ==> (#[trigger] rv[c]).name != name@,
        decreases rv.len() - m,
    {
        if m == remotes.len() {
            return false;
        }
        proof {
            assert(rv[m as int] == remote_v(remotes@[m as int]));
        }
        if crate::strutil::str_eq(remotes[m].name.as_str(), name) {
            proof {
                assert(rv[m as int].name == name@);
                assert(has_name(rv, name@));
            }
            return true;
        }
        m = m + 1;
    }
}

/// Check a configuration at load time: every repository's remote names
/// are distinct, every branch references only declared remotes, and every
/// branch interval parses and fits. Returns `Ok` exactly for such
/// configurations and `ConfigError` otherwise.
#[verifier::loop_isolation(false)]
#[verifier::rlimit(60)]
pub fn validate(cfg: &Repomon) -> (r: Result<(), Error>)
    ensures
        ({
            let v = repomon_v(*cfg);
            &&& (r is Ok) == (config_valid(v) && crate::sched::config_intervals_ok(v))
            &&& (r matches Err(e) ==> e matches Error::ConfigError(_))
        }),
{
    let ghost v = repomon_v(*cfg);
    let mut gi: usize = 0;
    while gi < cfg.repos.entries.len()
        invariant
            gi <= v.repos.len(),
            v.repos.len() == cfg.repos.entries@.len(),
            forall|a: int| 0 <= a < gi ==> repo_valid((#[trigger] v.repos[a]).1),
            forall|a: int, b: int|
                0 <= a < gi && 0 <= b < v.repos[a].1.branch.len() ==> is_interval(
                    (#[trigger] v.repos[a].1.branch[b]).interval,
                ) && interval_ms(v.repos[a].1.branch[b].interval) <= usize::MAX,
        decreases v.repos.len() - gi,
    {
        proof {
            assert(v.repos[gi as int] == (cfg.repos.entries@[gi as int].0@, repo_v(
                cfg.repos.entries@[gi as int].1,
            )));
        }
        let entry = &cfg.repos.entries[gi];
        let ghost rv = repo_v(entry.1);
        if !remotes_distinct_exec(&entry.1.remotes) {
            proof {
                assert(rv.remotes == entry.1.remotes@.map_values(|x: Remote| remote_v(x)));
                assert(!remotes_distinct(rv));
            }
            return Err(Error::ConfigError("two remotes share a name".to_owned()));
        }
        proof {
            assert(rv.remotes == entry.1.remotes@.map_values(|x: Remote| remote_v(x)));
            assert(remotes_distinct(rv));
        }
        let mut bi: usize = 0;
        while bi < entry.1.branch.len()
            invariant
                bi <= rv.branch.len(),
                rv.branch.len() == entry.1.branch@.len(),
                rv == repo_v(entry.1),
                gi < v.repos.len(),
                rv == v.repos[gi as int].1,
                forall|b: int, k: int|
                    #![trigger rv.branch[b].remotes[k]]
                    0 <= b < bi && 0 <= k < rv.branch[b].remotes.len() ==> has_name(
                        rv.remotes,
                        rv.branch[b].remotes[k],
                    ),
                forall|b: int|
                    0 <= b < bi ==> is_interval((#[trigger] rv.branch[b]).interval) && interval_ms(
                        rv.branch[b].interval,
                    ) <= usize::MAX,
            decreases rv.branch.len() - bi,
        {
            proof {
                assert(rv.branch[bi as int] == branch_v(entry.1.branch@[bi as int]));
            }
            let br = &entry.1.branch[bi];
            match br.interval_to_ms() {
                Ok(_) => {},
                Err(_) => {
                    proof {
                        assert(!crate::sched::config_intervals_ok(v));
                    }
                    return Err(Error::ConfigError("invalid branch interval".to_owned()));
                },
            }
            let mut ki: usize = 0;
            while ki < br.remotes.len()
                invariant
                    ki <= rv.branch[bi as int].remotes.len(),
                    rv.branch[bi as int].remotes.len() == br.remotes@.len(),
                    rv.branch[bi as int] == branch_v(*br),
                    bi < rv.branch.len(),
                    forall|k: int|
                        #![trigger rv.branch[bi as int].remotes[k]]
                        0 <= k < ki ==> has_name(rv.remotes, rv.branch[bi as int].remotes[k]),
                decreases br.remotes@.len() - ki,
            {
                proof {
                    assert(rv.branch[bi as int].remotes[ki as int] == br.remotes@[ki as int]@);
                }
                if !has_remote(&entry.1.remotes, br.remotes[ki].as_str()) {
                    proof {
                        assert(!branch_refs_ok(rv));
                    }
                    return Err(
                        Error::ConfigError("branch references an undeclared remote".to_owned()),
                    );
                }
                ki = ki + 1;
            }
            proof {
                assert forall|b: int, k: int|
                    #![trigger rv.branch[b].remotes[k]]
                    0 <= b < bi + 1 && 0 <= k < rv.branch[b].remotes.len() implies has_name(
                    rv.remotes,
                    rv.branch[b].remotes[k],
                ) by {
                    if b < bi {
                        assert(0 <= b < bi && 0 <= k < rv.branch[b].remotes.len());
                    } else {
                        assert(0 <= k < rv.branch[bi as int].remotes.len());
                    }
                }
            }
            bi = bi + 1;
        }
        proof {
            assert(branch_refs_ok(rv)) by {
                assert forall|b: int, k: int|
                    #![trigger rv.branch[b].remotes[k]]
                    0 <= b < rv.branch.len() && 0 <= k < rv.branch[b].remotes.len() implies has_name(
                    rv.remotes,
                    rv.branch[b].remotes[k],
                ) by {
                    assert(0 <= b < bi && 0 <= k < rv.branch[b].remotes.len());
                }
            }
            assert(repo_valid(rv));
        }
        gi = gi + 1;
    }
    Ok(())
}

} // verus!

verus! {

/// The display text of a remote: `<name>: <url>`.
pub open spec fn spec_remote_text(r: RemoteV) -> Seq<char> {
    r.name + ": "@ + r.url
}

/// The display text of a repository's remotes from index `i` on, each
/// indented.
pub open spec fn repo_remotes_text(rs: Seq<RemoteV>, i: int) -> Seq<char>
    decreases rs.len() - i,
{
    if i < 0 || i >= rs.len() {
        Seq::empty()
    } else {
        "    "@ + spec_remote_text(rs[i]) + repo_remotes_text(rs, i + 1)
    }
}

/// The display text of a repository's branches from index `i` on, each
/// indented.
pub open spec fn repo_branches_text(bs: Seq<BranchV>, i: int) -> Seq<char>
    decreases bs.len() - i,
{
    if i < 0 || i >= bs.len() {
        Seq::empty()
    } else {
        "    "@ + bs[i].name + repo_branches_text(bs, i + 1)
    }
}

/// The display text of a repository definition.
pub open spec fn spec_repo_text(r: RepoV) -> Seq<char> {
    "Repo {"@ + repo_remotes_text(r.remotes, 0) + repo_branches_text(r.branch, 0) + "}"@
}

/// The display lines of the repository map from index `i` on.
pub open spec fn repos_text(rs: Seq<(Seq<char>, RepoV)>, i: int) -> Seq<char>
    decreases rs.len() - i,
{
    if i < 0 || i >= rs.len() {
        Seq::empty()
    } else {
        "    "@ + rs[i].0 + " -- "@ + spec_repo_text(rs[i].1) + "\n"@ + repos_text(rs, i + 1)
    }
}

/// The display text of a whole configuration.
pub open spec fn spec_repomon_text(v: RepomonV) -> Seq<char> {
    "Repomon {\n"@ + repos_text(v.repos, 0) + "}"@
}

impl Remote {
    /// Render the remote for display.
    pub fn render(&self) -> (r: String)
        ensures
            r@ == spec_remote_text(remote_v(*self)),
    {
        let mut out = self.name.clone();
        out.append(": ");
        out.append(self.url.as_str());
        out
    }
}

impl Branch {
    /// Render the branch for display: its name.
    pub fn render(&self) -> (r: String)
        ensures
            r@ == branch_v(*self).name,
    {
        self.name.clone()
    }
}

impl Repo {
    /// Render the repository definition for display.
    #[verifier::loop_isolation(false)]
    pub fn render(&self) -> (r: String)
        ensures
            r@ == spec_repo_text(repo_v(*self)),
    {
        let ghost rv = repo_v(*self);
        let mut out = "Repo {".to_owned();
        let mut i: usize = 0;
        while i < self.remotes.len()
            invariant
                i <= rv.remotes.len(),
                rv.remotes.len() == self.remotes@.len(),
                rv == repo_v(*self),
                "Repo {"@ + repo_remotes_text(rv.remotes, 0) == out@ + repo_remotes_text(
                    rv.remotes,
                    i as int,
                ),
            decreases rv.remotes.len() - i,
        {
            proof {
                assert(rv.remotes[i as int] == remote_v(self.remotes@[i as int]));
            }
            let ghost o0 = out@;
            out.append("    ");
            let t = self.remotes[i].render();
            out.append(t.as_str());
            proof {
                assert(repo_remotes_text(rv.remotes, i as int) == "    "@ + spec_remote_text(
                    rv.remotes[i as int],
                ) + repo_remotes_text(rv.remotes, i + 1));
                assert(out@ + repo_remotes_text(rv.remotes, i + 1) =~= o0 + repo_remotes_text(
                    rv.remotes,
                    i as int,
                ));
            }
            i = i + 1;
        }
        proof {
            assert(repo_remotes_text(rv.remotes, rv.remotes.len() as int) =~= Seq::<char>::empty());
            assert(out@ =~= out@ + repo_remotes_text(rv.remotes, rv.remotes.len() as int));
        }
        let ghost mid = out@;
        let mut j: usize = 0;
        while j < self.branch.len()
            invariant
                j <= rv.branch.len(),
                rv.branch.len() == self.branch@.len(),
                rv == repo_v(*self),
                mid + repo_branches_text(rv.branch, 0) == out@ + repo_branches_text(
                    rv.branch,
                    j as int,
                ),
            decreases rv.branch.len() - j,
        {
            proof {
                assert(rv.branch[j as int] == branch_v(self.branch@[j as int]));
            }
            let ghost o0 = out@;
            out.append("    ");
            out.append(self.branch[j].name.as_str());
            proof {
                assert(repo_branches_text(rv.branch, j as int) == "    "@ + rv.branch[j as int].name
                    + repo_branches_text(rv.branch, j + 1));
                assert(out@ + repo_branches_text(rv.branch, j + 1) =~= o0 + repo_branches_text(
                    rv.branch,
                    j as int,
                ));
            }
            j = j + 1;
        }
        proof {
            assert(repo_branches_text(rv.branch, rv.branch.len() as int) =~= Seq::<char>::empty());
            assert(out@ =~= out@ + repo_branches_text(rv.branch, rv.branch.len() as int));
        }
        out.append("}");
        proof {
            assert(out@ =~= spec_repo_text(rv));
        }
        out
    }
}

impl Repomon {
    /// Render the whole configuration for display: one line per
    /// repository.
    #[verifier::loop_isolation(false)]
    pub fn render(&self) -> (r: String)
        ensures
            r@ == spec_repomon_text(repomon_v(*self)),
    {
        let ghost v = repomon_v(*self);
        let mut out = "Repomon {\n".to_owned();
        let mut i: usize = 0;
        while i < self.repos.entries.len()
            invariant
                i <= v.repos.len(),
                v.repos.len() == self.repos.entries@.len(),
                "Repomon {\n"@ + repos_text(v.repos, 0) == out@ + repos_text(v.repos, i as int),
            decreases v.repos.len() - i,
        {
            proof {
                assert(v.repos[i as int] == (self.repos.entries@[i as int].0@, repo_v(
                    self.repos.entries@[i as int].1,
                )));
            }
            let ghost o0 = out@;
            let entry = &self.repos.entries[i];
            out.append("    ");
            out.append(entry.0.as_str());
            out.append(" -- ");
            let t = entry.1.render();
            out.append(t.as_str());
            out.append("\n");
            proof {
                assert(repos_text(v.repos, i as int) == "    "@ + v.repos[i as int].0 + " -- "@
                    + spec_repo_text(v.repos[i as int].1) + "\n"@ + repos_text(v.repos, i + 1));
                assert(out@ + repos_text(v.repos, i + 1) =~= o0 + repos_text(v.repos, i as int));
            }
            i = i + 1;
        }
        proof {
            assert(repos_text(v.repos, v.repos.len() as int) =~= Seq::<char>::empty());
            assert(out@ =~= out@ + repos_text(v.repos, v.repos.len() as int));
        }
        out.append("}");
        proof {
            assert(out@ =~= spec_repomon_text(v));
        }
        out
    }
}

} // verus!
