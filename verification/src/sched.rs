//! The scheduler: one timer per (repository, branch) pair.
//!
//! The scheduler is a pure state machine: the caller owns the clock and
//! the outside work. A tick marks the due idle tasks as checking and
//! returns them; the caller runs each check cycle (fetch, resolve,
//! compare, emit) and reports completion, which re-arms the task's timer.
//! A reconfigure replaces the task set atomically: tasks of removed
//! branches are dropped, tasks of new branches are due immediately, and
//! tasks of unchanged branches keep their running timer.

use vstd::prelude::*;

use crate::config::BranchV;
use crate::config::RepoV;
use crate::config::Repomon;
use crate::config::RepomonV;
use crate::config::branch_v;
use crate::config::is_interval;
use crate::config::interval_ms;
use crate::config::repomon_v;
use crate::error::Error;

verus! {

/// The per-task state: idle between checks, checking, or disabled when
/// the branch references no remotes.
#[derive(Debug, Clone, Copy, PartialEq, Eq, Structural)]
pub enum TaskState {
    /// Waiting for the next due time.
    Idle,
    /// A check cycle is in flight.
    Checking,
    /// The branch has no remotes; no checks are scheduled.
    Disabled,
}

/// One scheduled (repository, branch) pair.
#[derive(Debug, Clone, PartialEq)]
pub struct Task {
    /// The repository name.
    pub repo: String,
    /// The branch name.
    pub branch: String,
    /// The check interval in milliseconds.
    pub interval_ms: usize,
    /// The remotes the branch is checked against.
    pub remotes: Vec<String>,
    /// The task's state.
    pub state: TaskState,
    /// The time the next check is due, in milliseconds.
    pub next_due: u64,
}

/// The mathematical content of a task.
pub struct TaskV {
    /// The repository name.
    pub repo: Seq<char>,
    /// The branch name.
    pub branch: Seq<char>,
    /// The check interval in milliseconds.
    pub interval_ms: nat,
    /// The remotes the branch is checked against.
    pub remotes: Seq<Seq<char>>,
    /// The task's state.
    pub state: TaskState,
    /// The time the next check is due.
    pub next_due: nat,
}

/// The content of a task.
pub open spec fn task_v(t: Task) -> TaskV {
    TaskV {
        repo: t.repo@,
        branch: t.branch@,
        interval_ms: t.interval_ms as nat,
        remotes: t.remotes@.map_values(|s: String| s@),
        state: t.state,
        next_due: t.next_due as nat,
    }
}

/// The scheduler: its task list, one task per configured (repository,
/// branch) pair, in configuration order.
#[derive(Debug, Clone, PartialEq)]
pub struct Scheduler {
    /// The tasks.
    pub tasks: Vec<Task>,
}

/// The content of a scheduler.
pub open spec fn sched_view(s: Scheduler) -> Seq<TaskV> {
    s.tasks@.map_values(|t: Task| task_v(t))
}

/// Whether every branch interval of a configuration parses and fits.
pub open spec fn config_intervals_ok(v: RepomonV) -> bool {
    forall|i: int, j: int|
        0 <= i < v.repos.len() && 0 <= j < v.repos[i].1.branch.len() ==> is_interval(
            (#[trigger] v.repos[i].1.branch[j]).interval,
        ) && interval_ms(v.repos[i].1.branch[j].interval) <= usize::MAX
}

/// Whether the configuration holds the (repository, branch) pair.
pub open spec fn config_has(v: RepomonV, repo: Seq<char>, branch: Seq<char>) -> bool {
    exists|i: int, j: int|
        0 <= i < v.repos.len() && 0 <= j < v.repos[i].1.branch.len() && v.repos[i].0 == repo && (
        #[trigger] v.repos[i].1.branch[j]).name == branch
}

/// The first task of the pair, if any.
pub open spec fn find_task(s: Seq<TaskV>, repo: Seq<char>, branch: Seq<char>) -> Option<TaskV>
    decreases s.len(),
{
    if s.len() == 0 {
        None
    } else if s[0].repo == repo && s[0].branch == branch {
        Some(s[0])
    } else {
        find_task(s.drop_first(), repo, branch)
    }
}

/// The fresh task of one configured branch: disabled without remotes,
/// otherwise idle and due at `now`.
pub open spec fn branch_task(rn: Seq<char>, b: BranchV, now: nat) -> TaskV {
    TaskV {
        repo: rn,
        branch: b.name,
        interval_ms: interval_ms(b.interval),
        remotes: b.remotes,
        state: if b.remotes.len() == 0 {
            TaskState::Disabled
        } else {
            TaskState::Idle
        },
        next_due: now,
    }
}

/// The task of one configured branch after a reconfigure: a running timer
/// is kept, a new branch is due at `now`, a branch left without remotes
/// is disabled.
pub open spec fn carry_task(old: Seq<TaskV>, rn: Seq<char>, b: BranchV, now: nat) -> TaskV {
    let fresh = branch_task(rn, b, now);
    match find_task(old, rn, b.name) {
        Some(t) => TaskV {
            state: if b.remotes.len() == 0 {
                TaskState::Disabled
            } else {
                t.state
            },
            next_due: t.next_due,
            ..fresh
        },
        None => fresh,
    }
}

/// The tasks of one repository's branches from index `i` on, carrying
/// timers from `old`.
pub open spec fn tasks_of_branches(
    old: Seq<TaskV>,
    rn: Seq<char>,
    bs: Seq<BranchV>,
    i: int,
    now: nat,
) -> Seq<TaskV>
    decreases bs.len() - i,
{
    if i < 0 || i >= bs.len() {
        Seq::empty()
    } else {
        seq![carry_task(old, rn, bs[i], now)] + tasks_of_branches(old, rn, bs, i + 1, now)
    }
}

/// The tasks of the repositories from index `i` on, carrying timers from
/// `old`.
pub open spec fn tasks_of_repos(
    old: Seq<TaskV>,
    rs: Seq<(Seq<char>, RepoV)>,
    i: int,
    now: nat,
) -> Seq<TaskV>
    decreases rs.len() - i,
{
    if i < 0 || i >= rs.len() {
        Seq::empty()
    } else {
        tasks_of_branches(old, rs[i].0, rs[i].1.branch, 0, now) + tasks_of_repos(
            old,
            rs,
            i + 1,
            now,
        )
    }
}

/// One task after a tick at `now`: a due idle task starts checking.
pub open spec fn tick_one(t: TaskV, now: nat) -> TaskV {
    if t.state is Idle && t.next_due <= now {
        TaskV { state: TaskState::Checking, ..t }
    } else {
        t
    }
}

/// The (repository, branch) pairs a tick at `now` starts, from index `i`
/// on.
pub open spec fn picked_from(s: Seq<TaskV>, now: nat, i: int) -> Seq<(Seq<char>, Seq<char>)>
    decreases s.len() - i,
{
    if i < 0 || i >= s.len() {
        Seq::empty()
    } else {
        (if s[i].state is Idle && s[i].next_due <= now {
            seq![(s[i].repo, s[i].branch)]
        } else {
            Seq::empty()
        }) + picked_from(s, now, i + 1)
    }
}

/// The task list after a completed check of the pair at `now`: the first
/// checking task of that pair returns to idle with its timer re-armed
/// (saturating at the clock's end).
pub open spec fn complete_spec(
    s: Seq<TaskV>,
    repo: Seq<char>,
    branch: Seq<char>,
    now: nat,
) -> Seq<TaskV>
    decreases s.len(),
{
    if s.len() == 0 {
        Seq::empty()
    } else if s[0].repo == repo && s[0].branch == branch && s[0].state is Checking {
        seq![
            TaskV {
                state: TaskState::Idle,
                next_due: if now + s[0].interval_ms > u64::MAX {
                    u64::MAX as nat
                } else {
                    now + s[0].interval_ms
                },
                ..s[0]
            },
        ] + s.drop_first()
    } else {
        seq![s[0]] + complete_spec(s.drop_first(), repo, branch, now)
    }
}

/// Every pair a tick starts belongs to some task.
pub proof fn lemma_picked_are_tasks(s: Seq<TaskV>, now: nat, i: int)
    requires
        0 <= i <= s.len(),
    ensures
        forall|k: int|
            0 <= k < picked_from(s, now, i).len() ==> exists|j: int|
                i <= j < s.len() && (#[trigger] picked_from(s, now, i)[k]) == (s[j].repo, s[j].branch),
    decreases s.len() - i,
{
    if i < s.len() {
        lemma_picked_are_tasks(s, now, i + 1);
        let head: Seq<(Seq<char>, Seq<char>)> = if s[i].state is Idle && s[i].next_due <= now {
            seq![(s[i].repo, s[i].branch)]
        } else {
            Seq::empty()
        };
        assert forall|k: int| 0 <= k < picked_from(s, now, i).len() implies exists|j: int|
            i <= j < s.len() && (#[trigger] picked_from(s, now, i)[k]) == (s[j].repo, s[j].branch) by {
            if k < head.len() {
                assert(picked_from(s, now, i)[k] == (s[i].repo, s[i].branch));
            } else {
                assert(picked_from(s, now, i)[k] == picked_from(s, now, i + 1)[k - head.len()]);
            }
        }
    }
}

/// Every task a reconfigure builds names a (repository, branch) pair of
/// the new configuration.
pub proof fn lemma_tasks_from_config(
    old: Seq<TaskV>,
    rs: Seq<(Seq<char>, RepoV)>,
    i: int,
    now: nat,
)
    requires
        0 <= i <= rs.len(),
    ensures
        forall|k: int|
            0 <= k < tasks_of_repos(old, rs, i, now).len() ==> exists|a: int, b: int|
                i <= a < rs.len() && 0 <= b < rs[a].1.branch.len() && (#[trigger] tasks_of_repos(
                    old,
                    rs,
                    i,
                    now,
                )[k]).repo == rs[a].0 && tasks_of_repos(old, rs, i, now)[k].branch
                    == rs[a].1.branch[b].name,
    decreases rs.len() - i,
{
    if i < rs.len() {
        lemma_tasks_from_config(old, rs, i + 1, now);
        let group = tasks_of_branches(old, rs[i].0, rs[i].1.branch, 0, now);
        lemma_branch_tasks_named(old, rs[i].0, rs[i].1.branch, 0, now);
        assert forall|k: int| 0 <= k < tasks_of_repos(old, rs, i, now).len() implies exists|
            a: int,
            b: int,
        |
            i <= a < rs.len() && 0 <= b < rs[a].1.branch.len() && (#[trigger] tasks_of_repos(
                old,
                rs,
                i,
                now,
            )[k]).repo == rs[a].0 && tasks_of_repos(old, rs, i, now)[k].branch
                == rs[a].1.branch[b].name by {
            if k < group.len() {
                assert(tasks_of_repos(old, rs, i, now)[k] == group[k]);
            } else {
                assert(tasks_of_repos(old, rs, i, now)[k] == tasks_of_repos(old, rs, i + 1, now)[k
                    - group.len()]);
            }
        }
    }
}

/// The tasks of one repository's branch list carry that repository's name
/// and its branches' names.
proof fn lemma_branch_tasks_named(
    old: Seq<TaskV>,
    rn: Seq<char>,
    bs: Seq<BranchV>,
    i: int,
    now: nat,
)
    requires
        0 <= i <= bs.len(),
    ensures
        forall|k: int|
            0 <= k < tasks_of_branches(old, rn, bs, i, now).len() ==> (#[trigger] tasks_of_branches(
                old,
                rn,
                bs,
                i,
                now,
            )[k]).repo == rn && exists|b: int|
                i <= b < bs.len() && tasks_of_branches(old, rn, bs, i, now)[k].branch == bs[b].name,
    decreases bs.len() - i,
{
    if i < bs.len() {
        lemma_branch_tasks_named(old, rn, bs, i + 1, now);
        assert forall|k: int| 0 <= k < tasks_of_branches(old, rn, bs, i, now).len() implies (
        #[trigger] tasks_of_branches(old, rn, bs, i, now)[k]).repo == rn && exists|b: int|
            i <= b < bs.len() && tasks_of_branches(old, rn, bs, i, now)[k].branch == bs[b].name by {
            if k == 0 {
                assert(tasks_of_branches(old, rn, bs, i, now)[0] == carry_task(old, rn, bs[i], now));
                assert(carry_task(old, rn, bs[i], now).branch == bs[i].name);
            } else {
                assert(tasks_of_branches(old, rn, bs, i, now)[k] == tasks_of_branches(
                    old,
                    rn,
                    bs,
                    i + 1,
                    now,
                )[k - 1]);
            }
        }
    }
}

/// Removing a branch cancels its task: after a reconfigure to a
/// configuration that does not hold the pair, no task stands for it, and
/// no later tick starts a check for it.
pub proof fn lemma_reconfigure_cancels(
    old: Seq<TaskV>,
    v: RepomonV,
    now: nat,
    repo: Seq<char>,
    branch: Seq<char>,
    later: nat,
)
    requires
        !config_has(v, repo, branch),
    ensures
        forall|k: int|
            0 <= k < tasks_of_repos(old, v.repos, 0, now).len() ==> !((#[trigger] tasks_of_repos(
                old,
                v.repos,
                0,
                now,
            )[k]).repo == repo && tasks_of_repos(old, v.repos, 0, now)[k].branch == branch),
        forall|k: int|
            0 <= k < picked_from(tasks_of_repos(old, v.repos, 0, now), later, 0).len() ==> (
            #[trigger] picked_from(tasks_of_repos(old, v.repos, 0, now), later, 0)[k]) != (
            repo,
            branch,
            ),
{
    let ts = tasks_of_repos(old, v.repos, 0, now);
    lemma_tasks_from_config(old, v.repos, 0, now);
    assert forall|k: int| 0 <= k < ts.len() implies !((#[trigger] ts[k]).repo == repo && ts[k].branch
        == branch) by {
        if ts[k].repo == repo && ts[k].branch == branch {
            let (a, b) = choose|a: int, b: int|
                0 <= a < v.repos.len() && 0 <= b < v.repos[a].1.branch.len() && ts[k].repo
                    == v.repos[a].0 && ts[k].branch == (#[trigger] v.repos[a].1.branch[b]).name;
            assert(config_has(v, repo, branch));
        }
    }
    lemma_picked_are_tasks(ts, later, 0);
    assert forall|k: int| 0 <= k < picked_from(ts, later, 0).len() implies (#[trigger] picked_from(
        ts,
        later,
        0,
    )[k]) != (repo, branch) by {
        if picked_from(ts, later, 0)[k] == (repo, branch) {
            let j = choose|j: int|
                0 <= j < ts.len() && picked_from(ts, later, 0)[k] == ((#[trigger] ts[j]).repo, ts[j].branch);
            assert(ts[j].repo == repo && ts[j].branch == branch);
        }
    }
}

} // verus!

verus! {

/// The contents of a task list.
pub open spec fn task_views(v: Seq<Task>) -> Seq<TaskV> {
    v.map_values(|t: Task| task_v(t))
}

/// Copy a list of strings.
#[verifier::loop_isolation(false)]
fn clone_strings(v: &Vec<String>) -> (r: Vec<String>)
    ensures
        r@.map_values(|s: String| s@) == v@.map_values(|s: String| s@),
{
    let mut r: Vec<String> = Vec::new();
    let mut i: usize = 0;
    while i < v.len()
        invariant
            i <= v@.len(),
            r@.len() == i,
            forall|j: int| 0 <= j < i ==> (#[trigger] r@[j])@ == v@[j]@,
        decreases v@.len() - i,
    {
        r.push(v[i].clone());
        i = i + 1;
    }
    proof {
        assert(r@.map_values(|s: String| s@) =~= v@.map_values(|s: String| s@));
    }
    r
}

/// Lookup ignores a prefix of tasks of other pairs.
proof fn lemma_find_task_skip(s: Seq<TaskV>, repo: Seq<char>, branch: Seq<char>, i: int)
    requires
        0 <= i <= s.len(),
        forall|j: int| 0 <= j < i ==> !((#[trigger] s[j]).repo == repo && s[j].branch == branch),
    ensures
        find_task(s, repo, branch) == find_task(s.skip(i), repo, branch),
    decreases i,
{
    if i == 0 {
        assert(s.skip(0) =~= s);
    } else {
        let t = s.drop_first();
        assert forall|j: int| 0 <= j < i - 1 implies !((#[trigger] t[j]).repo == repo && t[j].branch
            == branch) by {
            assert(t[j] == s[j + 1]);
        }
        lemma_find_task_skip(t, repo, branch, i - 1);
        assert(t.skip(i - 1) =~= s.skip(i));
    }
}

/// The index of the first task of the pair, if any.
#[verifier::loop_isolation(false)]
fn find_task_idx(tasks: &Vec<Task>, repo: &str, branch: &str) -> (r: Option<usize>)
    ensures
        match r {
            Some(i) => i < tasks@.len() && find_task(task_views(tasks@), repo@, branch@) == Some(
                task_v(tasks@[i as int]),
            ),
            None => find_task(task_views(tasks@), repo@, branch@) is None,
        },
{
    let ghost s = task_views(tasks@);
    let mut i: usize = 0;
    loop
        invariant
            i <= s.len(),
            s.len() == tasks@.len(),
            forall|j: int| 0 <= j < i ==> !((#[trigger] s[j]).repo == repo@ && s[j].branch == branch@),
        decreases s.len() - i,
    {
        if i == tasks.len() {
            proof {
                lemma_find_task_skip(s, repo@, branch@, i as int);
                assert(s.skip(i as int) =~= Seq::<TaskV>::empty());
            }
            return None;
        }
        proof {
            assert(s[i as int] == task_v(tasks@[i as int]));
        }
        if crate::strutil::str_eq(tasks[i].repo.as_str(), repo) && crate::strutil::str_eq(
            tasks[i].branch.as_str(),
            branch,
        ) {
            proof {
                lemma_find_task_skip(s, repo@, branch@, i as int);
                assert(s.skip(i as int)[0] == s[i as int]);
            }
            return Some(i);
        }
        i = i + 1;
    }
}

/// Build the task list for a configuration, carrying timers from `old`.
#[verifier::loop_isolation(false)]
#[verifier::rlimit(60)]
fn rebuild_tasks(old_tasks: &Vec<Task>, cfg: &Repomon, now: u64) -> (r: Result<Vec<Task>, Error>)
    ensures
        ({
            let v = repomon_v(*cfg);
            let ov = task_views(old_tasks@);
            match r {
                Ok(ts) => config_intervals_ok(v) && task_views(ts@) == tasks_of_repos(
                    ov,
                    v.repos,
                    0,
                    now as nat,
                ),
                Err(e) => !config_intervals_ok(v) && e matches Error::InvalidIntervalFormat(_),
            }
        }),
{
    let ghost v = repomon_v(*cfg);
    let ghost ov = task_views(old_tasks@);
    let mut out: Vec<Task> = Vec::new();
    let mut gi: usize = 0;
    proof {
        assert(task_views(out@) =~= Seq::<TaskV>::empty());
    }
    while gi < cfg.repos.entries.len()
        invariant
            gi <= v.repos.len(),
            v.repos.len() == cfg.repos.entries@.len(),
            tasks_of_repos(ov, v.repos, 0, now as nat) == task_views(out@) + tasks_of_repos(
                ov,
                v.repos,
                gi as int,
                now as nat,
            ),
            forall|a: int, b: int|
                0 <= a < gi && 0 <= b < v.repos[a].1.branch.len() ==> is_interval(
                    (#[trigger] v.repos[a].1.branch[b]).interval,
                ) && interval_ms(v.repos[a].1.branch[b].interval) <= usize::MAX,
        decreases v.repos.len() - gi,
    {
        proof {
            assert(v.repos[gi as int] == (cfg.repos.entries@[gi as int].0@, crate::config::repo_v(
                cfg.repos.entries@[gi as int].1,
            )));
        }
        let entry = &cfg.repos.entries[gi];
        let ghost rn = entry.0@;
        let ghost bs = v.repos[gi as int].1.branch;
        let mut bi: usize = 0;
        while bi < entry.1.branch.len()
            invariant
                bi <= bs.len(),
                bs.len() == entry.1.branch@.len(),
                bs == v.repos[gi as int].1.branch,
                rn == v.repos[gi as int].0,
                gi < v.repos.len(),
                v.repos.len() == cfg.repos.entries@.len(),
                tasks_of_repos(ov, v.repos, 0, now as nat) == task_views(out@)
                    + tasks_of_branches(ov, rn, bs, bi as int, now as nat) + tasks_of_repos(
                    ov,
                    v.repos,
                    gi + 1,
                    now as nat,
                ),
                forall|b: int|
                    0 <= b < bi ==> is_interval((#[trigger] bs[b]).interval) && interval_ms(
                        bs[b].interval,
                    ) <= usize::MAX,
                forall|a: int, b: int|
                    0 <= a < gi && 0 <= b < v.repos[a].1.branch.len() ==> is_interval(
                        (#[trigger] v.repos[a].1.branch[b]).interval,
                    ) && interval_ms(v.repos[a].1.branch[b].interval) <= usize::MAX,
            decreases bs.len() - bi,
        {
            proof {
                assert(bs[bi as int] == branch_v(entry.1.branch@[bi as int]));
            }
            let br = &entry.1.branch[bi];
            let ms = match br.interval_to_ms() {
                Ok(x) => x,
                Err(e) => {
                    return Err(e);
                },
            };
            let disabled = br.remotes.len() == 0;
            let carried = match find_task_idx(old_tasks, entry.0.as_str(), br.name.as_str()) {
                Some(ti) => {
                    proof {
                        assert(task_v(old_tasks@[ti as int]) == find_task(ov, rn, bs[bi as int].name)->0);
                    }
                    let t = &old_tasks[ti];
                    Some((t.state, t.next_due))
                },
                None => None,
            };
            let state = match carried {
                Some(c) => if disabled {
                    TaskState::Disabled
                } else {
                    c.0
                },
                None => if disabled {
                    TaskState::Disabled
                } else {
                    TaskState::Idle
                },
            };
            let due = match carried {
                Some(c) => c.1,
                None => now,
            };
            let task = Task {
                repo: entry.0.clone(),
                branch: br.name.clone(),
                interval_ms: ms,
                remotes: clone_strings(&br.remotes),
                state,
                next_due: due,
            };
            proof {
                assert(task_v(task) == carry_task(ov, rn, bs[bi as int], now as nat));
            }
            out.push(task);
            proof {
                assert(task_views(out@) =~= task_views(out@.drop_last()).push(
                    carry_task(ov, rn, bs[bi as int], now as nat),
                ));
                assert(tasks_of_branches(ov, rn, bs, bi as int, now as nat) == seq![
                    carry_task(ov, rn, bs[bi as int], now as nat),
                ] + tasks_of_branches(ov, rn, bs, bi + 1, now as nat));
                assert(task_views(out@) + tasks_of_branches(ov, rn, bs, bi + 1, now as nat)
                    =~= task_views(out@.drop_last()) + tasks_of_branches(
                    ov,
                    rn,
                    bs,
                    bi as int,
                    now as nat,
                ));
            }
            bi = bi + 1;
        }
        proof {
            assert(tasks_of_branches(ov, rn, bs, bs.len() as int, now as nat)
                =~= Seq::<TaskV>::empty());
            assert(task_views(out@) + tasks_of_branches(ov, rn, bs, bs.len() as int, now as nat)
                =~= task_views(out@));
            assert(tasks_of_repos(ov, v.repos, gi as int, now as nat) == tasks_of_branches(
                ov,
                rn,
                bs,
                0,
                now as nat,
            ) + tasks_of_repos(ov, v.repos, gi + 1, now as nat));
        }
        gi = gi + 1;
    }
    proof {
        assert(tasks_of_repos(ov, v.repos, v.repos.len() as int, now as nat)
            =~= Seq::<TaskV>::empty());
        assert(task_views(out@) + tasks_of_repos(ov, v.repos, v.repos.len() as int, now as nat)
            =~= task_views(out@));
    }
    Ok(out)
}

impl Scheduler {
    /// Build the scheduler for a configuration: one task per (repository,
    /// branch) pair, every task due at `now`, branches without remotes
    /// disabled. Fails exactly when some branch interval does not parse
    /// or does not fit.
    pub fn new(cfg: &Repomon, now: u64) -> (r: Result<Scheduler, Error>)
        ensures
            ({
                let v = repomon_v(*cfg);
                match r {
                    Ok(s) => config_intervals_ok(v) && sched_view(s) == tasks_of_repos(
                        Seq::empty(),
                        v.repos,
                        0,
                        now as nat,
                    ),
                    Err(e) => !config_intervals_ok(v) && e matches Error::InvalidIntervalFormat(_),
                }
            }),
    {
        let empty: Vec<Task> = Vec::new();
        proof {
            assert(task_views(empty@) =~= Seq::<TaskV>::empty());
        }
        match rebuild_tasks(&empty, cfg, now) {
            Ok(ts) => Ok(Scheduler { tasks: ts }),
            Err(e) => Err(e),
        }
    }

    /// Replace the task set for a new configuration atomically: removed
    /// branches lose their task, new branches are due at `now`, unchanged
    /// branches keep their running timer. Fails exactly when some branch
    /// interval does not parse or does not fit, leaving the tasks
    /// unchanged.
    pub fn reconfigure(&mut self, cfg: &Repomon, now: u64) -> (r: Result<(), Error>)
        ensures
            ({
                let v = repomon_v(*cfg);
                match r {
                    Ok(()) => config_intervals_ok(v) && sched_view(*final(self)) == tasks_of_repos(
                        sched_view(*old(self)),
                        v.repos,
                        0,
                        now as nat,
                    ),
                    Err(e) => !config_intervals_ok(v) && *final(self) == *old(self) && e
                        matches Error::InvalidIntervalFormat(_),
                }
            }),
    {
        match rebuild_tasks(&self.tasks, cfg, now) {
            Ok(ts) => {
                self.tasks = ts;
                Ok(())
            },
            Err(e) => Err(e),
        }
    }

    /// Start the due checks at `now`: every idle task whose due time has
    /// arrived turns to checking, and its (repository, branch) pair is
    /// returned, in task order.
    #[verifier::loop_isolation(false)]
    pub fn tick(&mut self, now: u64) -> (r: Vec<(String, String)>)
        ensures
            sched_view(*final(self)).len() == sched_view(*old(self)).len(),
            forall|i: int|
                0 <= i < sched_view(*final(self)).len() ==> sched_view(*final(self))[i] == tick_one(
                    #[trigger] sched_view(*old(self))[i],
                    now as nat,
                ),
            r@.map_values(|p: (String, String)| (p.0@, p.1@)) == picked_from(
                sched_view(*old(self)),
                now as nat,
                0,
            ),
    {
        let ghost s0 = sched_view(*self);
        let mut picked: Vec<(String, String)> = Vec::new();
        let mut i: usize = 0;
        proof {
            assert(picked@.map_values(|p: (String, String)| (p.0@, p.1@)) =~= Seq::<
                (Seq<char>, Seq<char>),
            >::empty());
        }
        while i < self.tasks.len()
            invariant
                i <= s0.len(),
                s0.len() == self.tasks@.len(),
                forall|j: int|
                    i <= j < s0.len() ==> task_v(self.tasks@[j]) == #[trigger] s0[j],
                forall|j: int|
                    0 <= j < i ==> task_v(self.tasks@[j]) == tick_one(#[trigger] s0[j], now as nat),
                picked_from(s0, now as nat, 0) == picked@.map_values(
                    |p: (String, String)| (p.0@, p.1@),
                ) + picked_from(s0, now as nat, i as int),
            decreases s0.len() - i,
        {
            proof {
                assert(task_v(self.tasks@[i as int]) == s0[i as int]);
            }
            let due = match self.tasks[i].state {
                TaskState::Idle => self.tasks[i].next_due <= now,
                _ => false,
            };
            if due {
                let entry = self.tasks.remove(i);
                let repo_name = entry.repo.clone();
                let branch_name = entry.branch.clone();
                let updated = Task { state: TaskState::Checking, ..entry };
                self.tasks.insert(i, updated);
                picked.push((repo_name, branch_name));
                proof {
                    assert(task_v(self.tasks@[i as int]) == tick_one(s0[i as int], now as nat));
                    assert forall|j: int| i + 1 <= j < s0.len() implies task_v(self.tasks@[j])
                        == #[trigger] s0[j] by {}
                    assert(picked_from(s0, now as nat, i as int) == seq![
                        (s0[i as int].repo, s0[i as int].branch),
                    ] + picked_from(s0, now as nat, i + 1));
                    assert(picked@.map_values(|p: (String, String)| (p.0@, p.1@))
                        =~= picked@.drop_last().map_values(|p: (String, String)| (p.0@, p.1@)).push(
                        (s0[i as int].repo, s0[i as int].branch),
                    ));
                    assert(picked@.map_values(|p: (String, String)| (p.0@, p.1@)) + picked_from(
                        s0,
                        now as nat,
                        i + 1,
                    ) =~= picked@.drop_last().map_values(|p: (String, String)| (p.0@, p.1@))
                        + picked_from(s0, now as nat, i as int));
                }
            } else {
                proof {
                    assert(picked_from(s0, now as nat, i as int) == picked_from(
                        s0,
                        now as nat,
                        i + 1,
                    ));
                    assert(task_v(self.tasks@[i as int]) == tick_one(s0[i as int], now as nat));
                }
            }
            i = i + 1;
        }
        proof {
            assert(picked_from(s0, now as nat, s0.len() as int) =~= Seq::<
                (Seq<char>, Seq<char>),
            >::empty());
            assert(picked@.map_values(|p: (String, String)| (p.0@, p.1@)) + picked_from(
                s0,
                now as nat,
                s0.len() as int,
            ) =~= picked@.map_values(|p: (String, String)| (p.0@, p.1@)));
        }
        picked
    }

    /// Report a finished check cycle of the pair: its checking task
    /// returns to idle with the timer re-armed one interval after `now`.
    #[verifier::loop_isolation(false)]
    pub fn complete(&mut self, repo: &str, branch: &str, now: u64)
        ensures
            sched_view(*final(self)) == complete_spec(
                sched_view(*old(self)),
                repo@,
                branch@,
                now as nat,
            ),
    {
        let ghost s0 = sched_view(*self);
        let mut i: usize = 0;
        loop
            invariant
                i <= s0.len(),
                s0.len() == self.tasks@.len(),
                sched_view(*self) == s0,
                forall|j: int|
                    0 <= j < i ==> !((#[trigger] s0[j]).repo == repo@ && s0[j].branch == branch@
                        && s0[j].state is Checking),
            decreases s0.len() - i,
        {
            if i == self.tasks.len() {
                proof {
                    lemma_complete_skip(s0, repo@, branch@, now as nat, i as int);
                    assert(s0.skip(i as int) =~= Seq::<TaskV>::empty());
                    assert(s0.take(i as int) =~= s0);
                    assert(s0.take(i as int) + complete_spec(
                        s0.skip(i as int),
                        repo@,
                        branch@,
                        now as nat,
                    ) =~= s0);
                }
                return ;
            }
            proof {
                assert(task_v(self.tasks@[i as int]) == s0[i as int]);
            }
            let hit = crate::strutil::str_eq(self.tasks[i].repo.as_str(), repo)
                && crate::strutil::str_eq(self.tasks[i].branch.as_str(), branch) && (match self
                .tasks[i].state {
                TaskState::Checking => true,
                _ => false,
            });
            if hit {
                proof {
                    lemma_complete_skip(s0, repo@, branch@, now as nat, i as int);
                    assert(s0.skip(i as int)[0] == s0[i as int]);
                }
                let entry = self.tasks.remove(i);
                let iv = entry.interval_ms as u64;
                let due = if now > u64::MAX - iv {
                    u64::MAX
                } else {
                    now + iv
                };
                let updated = Task { state: TaskState::Idle, next_due: due, ..entry };
                self.tasks.insert(i, updated);
                proof {
                    assert(s0.skip(i as int).drop_first() =~= s0.skip(i + 1));
                    assert(sched_view(*self) =~= s0.take(i as int) + (seq![
                        task_v(self.tasks@[i as int]),
                    ] + s0.skip(i + 1)));
                    assert(sched_view(*self) =~= s0.take(i as int) + complete_spec(
                        s0.skip(i as int),
                        repo@,
                        branch@,
                        now as nat,
                    ));
                }
                return ;
            }
            i = i + 1;
        }
    }
}

/// Completion ignores a prefix of tasks that do not match.
proof fn lemma_complete_skip(s: Seq<TaskV>, repo: Seq<char>, branch: Seq<char>, now: nat, i: int)
    requires
        0 <= i <= s.len(),
        forall|j: int|
            0 <= j < i ==> !((#[trigger] s[j]).repo == repo && s[j].branch == branch
                && s[j].state is Checking),
    ensures
        complete_spec(s, repo, branch, now) == s.take(i) + complete_spec(
            s.skip(i),
            repo,
            branch,
            now,
        ),
    decreases i,
{
    if i == 0 {
        assert(s.skip(0) =~= s);
        assert(s.take(0) + complete_spec(s.skip(0), repo, branch, now) =~= complete_spec(
            s,
            repo,
            branch,
            now,
        ));
    } else {
        let t = s.drop_first();
        assert forall|j: int| 0 <= j < i - 1 implies !((#[trigger] t[j]).repo == repo && t[j].branch
            == branch && t[j].state is Checking) by {
            assert(t[j] == s[j + 1]);
        }
        lemma_complete_skip(t, repo, branch, now, i - 1);
        assert(t.take(i - 1) =~= s.take(i).drop_first());
        assert(t.skip(i - 1) =~= s.skip(i));
        assert(s.take(i) + complete_spec(s.skip(i), repo, branch, now) =~= seq![s[0]] + (t.take(
            i - 1,
        ) + complete_spec(t.skip(i - 1), repo, branch, now)));
    }
}

} // verus!

verus! {

/// The fetch coordinator's credential policy: with an SSH key among the
/// kinds the remote accepts, the agent is consulted; otherwise
/// authentication fails and the remote's cycle is abandoned.
pub fn check_creds(ssh_key_allowed: bool) -> (r: Result<(), Error>)
    ensures
        (r is Ok) == ssh_key_allowed,
        r matches Err(e) ==> e matches Error::AuthenticationFailed,
{
    if ssh_key_allowed {
        Ok(())
    } else {
        Err(Error::AuthenticationFailed)
    }
}

} // verus!
