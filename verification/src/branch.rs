//! Branch reference resolution.
//!
//! The caller enumerates the repository's branch references as plain values
//! (name, scope, and the commit id the reference points to, if any); the
//! resolver picks the unique commit id for a requested name and scope, and
//! flags ambiguity instead of silently choosing among candidates.

use vstd::prelude::*;

use crate::error::Error;

verus! {

/// The scope of a branch reference: a local branch or a remote-tracking
/// branch.
#[derive(Debug, Clone, Copy, PartialEq, Eq, Structural)]
pub enum BranchKind {
    /// A local branch.
    Local,
    /// A remote-tracking branch.
    Remote,
}

/// One branch reference as enumerated from the repository: its full name,
/// its scope, and the commit id it points to (`None` for a reference that
/// cannot be resolved, e.g. a symbolic reference pointing nowhere).
#[derive(Debug, Clone, PartialEq)]
pub struct BranchRef {
    /// The branch name (e.g. `master` or `origin/master`).
    pub name: String,
    /// Whether the branch is local or remote-tracking.
    pub kind: BranchKind,
    /// The commit id the branch points to, if resolvable.
    pub target: Option<String>,
}

/// Whether `b` matches the requested name exactly and lies in the
/// requested scope (`None` admits both scopes).
pub open spec fn ref_matches(b: BranchRef, name: Seq<char>, scope: Option<BranchKind>) -> bool {
    b.name@ == name && match scope {
        None => true,
        Some(k) => b.kind == k,
    }
}

/// Whether `b` matches and resolves to a commit id.
pub open spec fn ref_resolves(b: BranchRef, name: Seq<char>, scope: Option<BranchKind>) -> bool {
    ref_matches(b, name, scope) && b.target is Some
}

/// How many references match the requested name and scope.
pub open spec fn match_count(s: Seq<BranchRef>, name: Seq<char>, scope: Option<BranchKind>) -> nat
    decreases s.len(),
{
    if s.len() == 0 {
        0
    } else {
        match_count(s.drop_last(), name, scope) + if ref_matches(s.last(), name, scope) {
            1nat
        } else {
            0nat
        }
    }
}

/// How many matching references resolve to a commit id.
pub open spec fn resolved_count(
    s: Seq<BranchRef>,
    name: Seq<char>,
    scope: Option<BranchKind>,
) -> nat
    decreases s.len(),
{
    if s.len() == 0 {
        0
    } else {
        resolved_count(s.drop_last(), name, scope) + if ref_resolves(s.last(), name, scope) {
            1nat
        } else {
            0nat
        }
    }
}

/// The commit id of the first matching reference that resolves, if any.
pub open spec fn first_target(
    s: Seq<BranchRef>,
    name: Seq<char>,
    scope: Option<BranchKind>,
) -> Option<Seq<char>>
    decreases s.len(),
{
    if s.len() == 0 {
        None
    } else if first_target(s.drop_last(), name, scope) is Some {
        first_target(s.drop_last(), name, scope)
    } else if ref_resolves(s.last(), name, scope) {
        Some(s.last().target->0@)
    } else {
        None
    }
}

/// Whether two matching references resolve to distinct commit ids.
pub open spec fn has_conflict(
    s: Seq<BranchRef>,
    name: Seq<char>,
    scope: Option<BranchKind>,
) -> bool {
    exists|i: int, j: int|
        0 <= i < s.len() && 0 <= j < s.len() && ref_resolves(#[trigger] s[i], name, scope)
            && ref_resolves(#[trigger] s[j], name, scope) && s[i].target->0@ != s[j].target->0@
}

/// Resolve a branch name to the unique commit id it points to within the
/// given scope.
///
/// Exactly one reference matches but points nowhere: `UnresolvableRef`.
/// Otherwise, no matching reference resolves: `RefNotFound`. Matching
/// references resolve to distinct ids: `AmbiguousRef`. Otherwise the
/// common id of the resolving references is returned.
#[verifier::loop_isolation(false)]
pub fn get_oid_by_branch_name(
    branches: &Vec<BranchRef>,
    branch_name: &str,
    branch_type: Option<BranchKind>,
) -> (r: Result<String, Error>)
    ensures
        ({
            let s = branches@;
            let nm = branch_name@;
            &&& (resolved_count(s, nm, branch_type) == 0 && match_count(s, nm, branch_type) == 1)
                ==> (r matches Err(e) && e matches Error::UnresolvableRef)
            &&& (resolved_count(s, nm, branch_type) == 0 && match_count(s, nm, branch_type) != 1)
                ==> (r matches Err(e) && e matches Error::RefNotFound)
            &&& (resolved_count(s, nm, branch_type) > 0 && has_conflict(s, nm, branch_type)) ==> (r
                matches Err(e) && e matches Error::AmbiguousRef)
            &&& (resolved_count(s, nm, branch_type) > 0 && !has_conflict(s, nm, branch_type)) ==> (
            r matches Ok(t) && Some(t@) == first_target(s, nm, branch_type))
        }),
{
    let ghost s = branches@;
    let ghost nm = branch_name@;
    let n = branches.len();
    let mut mc: usize = 0;
    let mut rc: usize = 0;
    let mut ft: Option<String> = None;
    let ghost mut ft_idx: int = 0;
    let mut amb = false;
    let mut i: usize = 0;
    while i < n
        invariant
            i <= n,
            mc == match_count(s.take(i as int), nm, branch_type),
            rc == resolved_count(s.take(i as int), nm, branch_type),
            mc <= i,
            rc <= i,
            (ft is Some) == (first_target(s.take(i as int), nm, branch_type) is Some),
            ft matches Some(t) ==> Some(t@) == first_target(s.take(i as int), nm, branch_type),
            ft matches Some(t) ==> 0 <= ft_idx < i && ref_resolves(s[ft_idx], nm, branch_type)
                && s[ft_idx].target->0@ == t@,
            ft is None ==> forall|j: int|
                0 <= j < i ==> !ref_resolves(#[trigger] s[j], nm, branch_type),
            amb == has_conflict(s.take(i as int), nm, branch_type),
            !amb ==> forall|j: int|
                0 <= j < i && ref_resolves(#[trigger] s[j], nm, branch_type) ==> (ft matches Some(
                    t,
                ) && s[j].target->0@ == t@),
        decreases n - i,
    {
        proof {
            assert(s.take(i + 1).drop_last() =~= s.take(i as int));
            assert(s.take(i + 1).last() == s[i as int]);
        }
        let b = &branches[i];
        let matched = crate::strutil::str_eq(b.name.as_str(), branch_name) && (match branch_type {
            None => true,
            Some(k) => b.kind == k,
        });
        if matched {
            mc = mc + 1;
            match &b.target {
                Some(t) => {
                    rc = rc + 1;
                    match &ft {
                        Some(f) => {
                            if !crate::strutil::str_eq(t.as_str(), f.as_str()) {
                                amb = true;
                                proof {
                                    assert(ref_resolves(s[i as int], nm, branch_type));
                                    assert(has_conflict(s.take(i + 1), nm, branch_type)) by {
                                        assert(s.take(i + 1)[ft_idx] == s[ft_idx]);
                                        assert(s.take(i + 1)[i as int] == s[i as int]);
                                    }
                                }
                            } else {
                                proof {
                                    if amb {
                                        lemma_conflict_mono(s, nm, branch_type, i as int);
                                    } else {
                                        lemma_no_new_conflict_common(
                                            s,
                                            nm,
                                            branch_type,
                                            i as int,
                                            f@,
                                        );
                                    }
                                }
                            }
                        },
                        None => {
                            ft = Some(t.clone());
                            proof {
                                ft_idx = i as int;
                                lemma_no_new_conflict_first(s, nm, branch_type, i as int);
                            }
                        },
                    }
                },
                None => {
                    proof {
                        assert(!ref_resolves(s[i as int], nm, branch_type));
                        lemma_conflict_extend(s, nm, branch_type, i as int);
                    }
                },
            }
        } else {
            proof {
                assert(!ref_resolves(s[i as int], nm, branch_type));
                lemma_conflict_extend(s, nm, branch_type, i as int);
            }
        }
        i = i + 1;
    }
    proof {
        assert(s.take(n as int) =~= s);
    }
    if rc == 0 {
        if mc == 1 {
            Err(Error::UnresolvableRef)
        } else {
            Err(Error::RefNotFound)
        }
    } else if amb {
        Err(Error::AmbiguousRef)
    } else {
        match ft {
            Some(t) => Ok(t),
            None => {
                proof {
                    lemma_none_resolve_count_zero(s, nm, branch_type);
                }
                Err(Error::RefNotFound)
            },
        }
    }
}

/// When no reference resolves, the resolved count is zero.
proof fn lemma_none_resolve_count_zero(
    s: Seq<BranchRef>,
    name: Seq<char>,
    scope: Option<BranchKind>,
)
    requires
        forall|j: int| 0 <= j < s.len() ==> !ref_resolves(#[trigger] s[j], name, scope),
    ensures
        resolved_count(s, name, scope) == 0,
    decreases s.len(),
{
    if s.len() > 0 {
        lemma_none_resolve_count_zero(s.drop_last(), name, scope);
    }
}

/// A conflict among the first `i` references is still a conflict among the
/// first `i + 1`.
proof fn lemma_conflict_mono(s: Seq<BranchRef>, name: Seq<char>, scope: Option<BranchKind>, i: int)
    requires
        0 <= i < s.len(),
        has_conflict(s.take(i), name, scope),
    ensures
        has_conflict(s.take(i + 1), name, scope),
{
    let (x, y) = choose|x: int, y: int|
        0 <= x < s.take(i).len() && 0 <= y < s.take(i).len() && ref_resolves(
            #[trigger] s.take(i)[x],
            name,
            scope,
        ) && ref_resolves(#[trigger] s.take(i)[y], name, scope) && s.take(i)[x].target->0@ != s.take(
            i,
        )[y].target->0@;
    assert(s.take(i + 1)[x] == s.take(i)[x]);
    assert(s.take(i + 1)[y] == s.take(i)[y]);
    assert(has_conflict(s.take(i + 1), name, scope));
}

/// If every resolving reference among the first `i` carries the target
/// `t`, and the reference at `i` does too, the first `i + 1` references
/// hold no conflict.
proof fn lemma_no_new_conflict_common(
    s: Seq<BranchRef>,
    name: Seq<char>,
    scope: Option<BranchKind>,
    i: int,
    t: Seq<char>,
)
    requires
        0 <= i < s.len(),
        forall|j: int|
            0 <= j < i && ref_resolves(#[trigger] s[j], name, scope) ==> s[j].target->0@ == t,
        ref_resolves(s[i], name, scope) ==> s[i].target->0@ == t,
    ensures
        !has_conflict(s.take(i + 1), name, scope),
{
    if has_conflict(s.take(i + 1), name, scope) {
        let (x, y) = choose|x: int, y: int|
            0 <= x < s.take(i + 1).len() && 0 <= y < s.take(i + 1).len() && ref_resolves(
                #[trigger] s.take(i + 1)[x],
                name,
                scope,
            ) && ref_resolves(#[trigger] s.take(i + 1)[y], name, scope) && s.take(
                i + 1,
            )[x].target->0@ != s.take(i + 1)[y].target->0@;
        assert(s.take(i + 1)[x] == s[x]);
        assert(s.take(i + 1)[y] == s[y]);
        assert(s[x].target->0@ == t);
        assert(s[y].target->0@ == t);
    }
}

/// When nothing before `i` resolves, the first `i + 1` references hold no
/// conflict.
proof fn lemma_no_new_conflict_first(
    s: Seq<BranchRef>,
    name: Seq<char>,
    scope: Option<BranchKind>,
    i: int,
)
    requires
        0 <= i < s.len(),
        forall|j: int| 0 <= j < i ==> !ref_resolves(#[trigger] s[j], name, scope),
        ref_resolves(s[i], name, scope),
    ensures
        !has_conflict(s.take(i + 1), name, scope),
{
    lemma_no_new_conflict_common(s, name, scope, i, s[i].target->0@);
}


/// A reference that does not resolve cannot create a conflict: the first
/// `i + 1` references conflict exactly when the first `i` do.
proof fn lemma_conflict_extend(
    s: Seq<BranchRef>,
    name: Seq<char>,
    scope: Option<BranchKind>,
    i: int,
)
    requires
        0 <= i < s.len(),
        !ref_resolves(s[i], name, scope),
    ensures
        has_conflict(s.take(i + 1), name, scope) == has_conflict(s.take(i), name, scope),
{
    if has_conflict(s.take(i + 1), name, scope) {
        let (x, y) = choose|x: int, y: int|
            0 <= x < s.take(i + 1).len() && 0 <= y < s.take(i + 1).len() && ref_resolves(
                #[trigger] s.take(i + 1)[x],
                name,
                scope,
            ) && ref_resolves(#[trigger] s.take(i + 1)[y], name, scope) && s.take(
                i + 1,
            )[x].target->0@ != s.take(i + 1)[y].target->0@;
        assert(s.take(i + 1)[x] == s[x]);
        assert(s.take(i + 1)[y] == s[y]);
        assert(x < i && y < i);
        assert(s.take(i)[x] == s[x]);
        assert(s.take(i)[y] == s[y]);
        assert(has_conflict(s.take(i), name, scope));
    }
    if has_conflict(s.take(i), name, scope) {
        let (x, y) = choose|x: int, y: int|
            0 <= x < s.take(i).len() && 0 <= y < s.take(i).len() && ref_resolves(
                #[trigger] s.take(i)[x],
                name,
                scope,
            ) && ref_resolves(#[trigger] s.take(i)[y], name, scope) && s.take(
                i,
            )[x].target->0@ != s.take(i)[y].target->0@;
        assert(s.take(i + 1)[x] == s[x]);
        assert(s.take(i + 1)[y] == s[y]);
        assert(has_conflict(s.take(i + 1), name, scope));
    }
}

} // verus!
