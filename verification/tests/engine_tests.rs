//! Tests of reference resolution, divergence computation, status
//! rendering, and the scheduler.

use repomon::branch::BranchKind;
use repomon::branch::BranchRef;
use repomon::divergence::ahead_behind;
use repomon::divergence::render_status;
use repomon::divergence::status_out;
use repomon::divergence::CommitGraph;
use repomon::divergence::CommitNode;
use repomon::divergence::StatusFlags;
use repomon::get_oid_by_branch_name;
use repomon::message::emit;
use repomon::message::status_for;
use repomon::message::RemoteMessages;
use repomon::sched::check_creds;
use repomon::sched::Scheduler;
use repomon::Branch;
use repomon::Error;
use repomon::Remote;
use repomon::Repo;
use repomon::Repomon;

fn local(name: &str, target: Option<&str>) -> BranchRef {
    BranchRef {
        name: name.to_string(),
        kind: BranchKind::Local,
        target: target.map(|t| t.to_string()),
    }
}

fn tracking(name: &str, target: Option<&str>) -> BranchRef {
    BranchRef {
        name: name.to_string(),
        kind: BranchKind::Remote,
        target: target.map(|t| t.to_string()),
    }
}

#[test]
fn resolve_unique_local_branch() {
    let branches = vec![
        local("master", Some("aaaa")),
        tracking("origin/master", Some("bbbb")),
    ];
    let oid = get_oid_by_branch_name(&branches, "master", Some(BranchKind::Local))
        .expect("master should resolve");
    assert_eq!(oid, "aaaa");
}

#[test]
fn resolve_duplicate_names_distinct_targets() {
    let branches = vec![local("dup", Some("aaaa")), local("dup", Some("bbbb"))];
    match get_oid_by_branch_name(&branches, "dup", Some(BranchKind::Local)) {
        Err(Error::AmbiguousRef) => {}
        _ => assert!(false, "distinct targets under one name are ambiguous"),
    }
}

#[test]
fn resolve_duplicate_names_equal_targets() {
    let branches = vec![local("dup", Some("aaaa")), local("dup", Some("aaaa"))];
    let oid = get_oid_by_branch_name(&branches, "dup", Some(BranchKind::Local))
        .expect("equal targets are not ambiguous");
    assert_eq!(oid, "aaaa");
}

#[test]
fn resolve_missing_branch() {
    let branches = vec![local("master", Some("aaaa"))];
    match get_oid_by_branch_name(&branches, "devel", Some(BranchKind::Local)) {
        Err(Error::RefNotFound) => {}
        _ => assert!(false, "an unknown name is not found"),
    }
}

#[test]
fn resolve_unresolvable_branch() {
    let branches = vec![local("ghost", None)];
    match get_oid_by_branch_name(&branches, "ghost", Some(BranchKind::Local)) {
        Err(Error::UnresolvableRef) => {}
        _ => assert!(false, "a single match pointing nowhere is unresolvable"),
    }
}

#[test]
fn resolve_respects_scope() {
    let branches = vec![
        local("master", Some("aaaa")),
        tracking("master", Some("bbbb")),
    ];
    let oid = get_oid_by_branch_name(&branches, "master", Some(BranchKind::Remote))
        .expect("remote scope should resolve");
    assert_eq!(oid, "bbbb");
    match get_oid_by_branch_name(&branches, "master", None) {
        Err(Error::AmbiguousRef) => {}
        _ => assert!(false, "both scopes together see two distinct targets"),
    }
}

fn node(id: &str, parents: Vec<usize>) -> CommitNode {
    CommitNode {
        id: id.to_string(),
        parents,
    }
}

#[test]
fn ahead_behind_reflexive() {
    // c0 -> c1 -> c2 (parents to the right).
    let g = CommitGraph {
        nodes: vec![node("c0", vec![1]), node("c1", vec![2]), node("c2", vec![])],
    };
    for i in 0..3 {
        assert_eq!(ahead_behind(&g, i, i), (0, 0));
    }
}

#[test]
fn ahead_behind_linear_history() {
    // local c0 is two commits ahead of remote c2; both share c2's history.
    let g = CommitGraph {
        nodes: vec![
            node("c0", vec![1]),
            node("c1", vec![2]),
            node("c2", vec![3]),
            node("c3", vec![]),
        ],
    };
    assert_eq!(ahead_behind(&g, 0, 2), (2, 0));
    assert_eq!(ahead_behind(&g, 2, 0), (0, 2));
}

#[test]
fn ahead_behind_diverged_history() {
    // a and b each add one commit on top of the shared root.
    let g = CommitGraph {
        nodes: vec![node("a", vec![2]), node("b", vec![2]), node("root", vec![])],
    };
    assert_eq!(ahead_behind(&g, 0, 1), (1, 1));
}

#[test]
fn status_sentences() {
    assert_eq!(
        render_status("origin", "master", 2, 0),
        "Your branch is ahead of 'origin/master' by 2 commit(s)"
    );
    assert_eq!(
        render_status("origin", "master", 0, 3),
        "Your branch is behind 'origin/master' by 3 commit(s)"
    );
    assert_eq!(
        render_status("gh", "master", 0, 0),
        "Your branch is up to date with 'gh/master'"
    );
    assert_eq!(
        render_status("origin", "master", 2, 3),
        "Your branch is ahead of 'origin/master' by 2 and behind by 3 commit(s)"
    );
    assert_eq!(
        render_status("origin", "master", 12, 0),
        "Your branch is ahead of 'origin/master' by 12 commit(s)"
    );
}

#[test]
fn status_out_renders_flags_in_order() {
    let mut flags = StatusFlags::default();
    flags.idx_new = true;
    flags.wt_modified = true;
    flags.conflicted = true;
    let mut out = String::new();
    status_out(&flags, &mut out);
    assert_eq!(out, "idx-new,wt-modified,conflicted");

    let mut out2 = String::from("prefix: ");
    status_out(&StatusFlags::default(), &mut out2);
    assert_eq!(out2, "prefix: ");

    let mut all = StatusFlags::default();
    all.idx_new = true;
    all.idx_modified = true;
    all.idx_deleted = true;
    all.idx_typechange = true;
    all.idx_renamed = true;
    all.wt_new = true;
    all.wt_modified = true;
    all.wt_deleted = true;
    all.wt_typechange = true;
    all.wt_renamed = true;
    all.ignored = true;
    all.conflicted = true;
    let mut out3 = String::new();
    status_out(&all, &mut out3);
    assert_eq!(
        out3,
        "idx-new,idx-modified,idx-deleted,idx-typechange,idx-renamed,\
         wt-new,wt-modified,wt-deleted,wt-typechange,wt-renamed,ignored,conflicted"
    );
}

fn repomon_config() -> Repomon {
    let mut cfg: Repomon = Default::default();
    cfg.set_basedir("/tmp/projects".to_string());
    let repo = Repo {
        remotes: vec![
            Remote {
                name: "origin".to_string(),
                url: "git@example.com:repomon.git".to_string(),
            },
            Remote {
                name: "gh".to_string(),
                url: "git@github.com:example/repomon.git".to_string(),
            },
        ],
        branch: vec![Branch {
            name: "master".to_string(),
            interval: "1m".to_string(),
            remotes: vec!["origin".to_string(), "gh".to_string()],
        }],
    };
    cfg.repos.insert("repomon".to_string(), repo);
    cfg
}

#[test]
fn full_check_cycle() {
    // One check cycle of repository `repomon`, branch `master`, tracking
    // `origin` and `gh`: two ahead of origin, even with gh.
    let cfg = repomon_config();
    let mut sched = Scheduler::new(&cfg, 0).expect("intervals are valid");
    let due = sched.tick(0);
    assert_eq!(due.len(), 1);
    assert_eq!(due[0].0, "repomon");
    assert_eq!(due[0].1, "master");

    let branch = cfg.repos.get("repomon").unwrap().branch()[0].clone();
    let mut per_remote = RemoteMessages::new();
    for remote in cfg.repos.get("repomon").unwrap().remotes() {
        let outcome: Result<(usize, usize), Error> = if remote.name().as_str() == "origin" {
            Ok((2, 0))
        } else {
            Ok((0, 0))
        };
        per_remote.insert(remote.clone(), status_for("master", remote.name().as_str(), &outcome));
    }
    let message = emit("repomon", branch, per_remote);

    assert_eq!(message.messages().len(), 1);
    let (_, remotes) = &message.messages().entries[0];
    assert_eq!(remotes.len(), 2);
    assert_eq!(remotes.entries[0].0.name().as_str(), "gh");
    assert_eq!(
        remotes.entries[0].1,
        "Your branch is up to date with 'gh/master'"
    );
    assert_eq!(remotes.entries[1].0.name().as_str(), "origin");
    assert_eq!(
        remotes.entries[1].1,
        "Your branch is ahead of 'origin/master' by 2 commit(s)"
    );

    // The branch re-arms one interval after completion, and fires again
    // only when that interval has passed.
    sched.complete("repomon", "master", 10);
    assert!(sched.tick(10).is_empty());
    assert!(sched.tick(60_009).is_empty());
    let again = sched.tick(60_010);
    assert_eq!(again.len(), 1);
}

#[test]
fn reconfigure_cancels_removed_branch() {
    let cfg = repomon_config();
    let mut sched = Scheduler::new(&cfg, 0).expect("intervals are valid");
    let due = sched.tick(0);
    assert_eq!(due.len(), 1);
    sched.complete("repomon", "master", 0);

    // The new configuration no longer holds the branch.
    let mut smaller: Repomon = Default::default();
    smaller.set_basedir("/tmp/projects".to_string());
    sched
        .reconfigure(&smaller, 1)
        .expect("empty configuration is valid");

    // No further checks are started for the removed branch, however long
    // the clock runs.
    for now in [1u64, 100, 60_000, 10_000_000] {
        assert!(sched.tick(now).is_empty());
    }
}

#[test]
fn reconfigure_keeps_running_timers() {
    let cfg = repomon_config();
    let mut sched = Scheduler::new(&cfg, 0).expect("intervals are valid");
    sched.tick(0);
    sched.complete("repomon", "master", 0);
    // Due again at 60_000; a reconfigure with the same branch keeps that.
    sched.reconfigure(&cfg, 30_000).expect("config is valid");
    assert!(sched.tick(59_999).is_empty());
    assert_eq!(sched.tick(60_000).len(), 1);
}

#[test]
fn disabled_branch_is_never_due() {
    let mut cfg: Repomon = Default::default();
    let repo = Repo {
        remotes: vec![],
        branch: vec![Branch {
            name: "master".to_string(),
            interval: "1s".to_string(),
            remotes: vec![],
        }],
    };
    cfg.repos.insert("r".to_string(), repo);
    let mut sched = Scheduler::new(&cfg, 0).expect("intervals are valid");
    assert!(sched.tick(0).is_empty());
    assert!(sched.tick(1_000_000).is_empty());
}

#[test]
fn scheduler_rejects_bad_interval() {
    let mut cfg: Repomon = Default::default();
    let repo = Repo {
        remotes: vec![],
        branch: vec![Branch {
            name: "master".to_string(),
            interval: "often".to_string(),
            remotes: vec![],
        }],
    };
    cfg.repos.insert("r".to_string(), repo);
    match Scheduler::new(&cfg, 0) {
        Err(Error::InvalidIntervalFormat(t)) => assert_eq!(t.as_str(), "often"),
        _ => assert!(false, "an invalid interval fails scheduling"),
    }
}

#[test]
fn credential_policy() {
    assert!(check_creds(true).is_ok());
    match check_creds(false) {
        Err(Error::AuthenticationFailed) => {}
        _ => assert!(false, "without an SSH key the fetch cannot authenticate"),
    }
}
