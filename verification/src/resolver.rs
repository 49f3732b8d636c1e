//! The dependency resolver: depth-first search producing a topologically
//! ordered install plan, with cycle detection.
//!
//! The plan's contract: no duplicates, every entry is in the index, every
//! dependency of an entry stands strictly before it, and the target is the
//! last entry.  A missing package fails with `PackageNotFound`, and only
//! for a name actually reachable from the target; `DependencyCycle` is
//! reported only for a name that really lies on a dependency cycle, and
//! specifically the one the search's chain from the target re-entered.

use vstd::prelude::*;
use vstd::seq_lib::*;
use vstd::set_lib::lemma_len_subset;
use crate::errors::TexError;
use crate::index::{PackageIndex, spec_find, spec_has_name, lemma_find_position};
use crate::pkg::{Package, PackageView};
use crate::strutil::vec_contains_str;

verus! {

/// The direct dependencies a name has in the index; none if it is absent.
pub open spec fn spec_deps_of(idx: Seq<PackageView>, n: Seq<char>) -> Seq<Seq<char>> {
    match spec_find(idx, n) {
        Some(p) => p.depends,
        None => Seq::empty(),
    }
}

/// The dependency edge: `v` names `d` among its dependencies.
pub open spec fn spec_depends_on(idx: Seq<PackageView>, v: Seq<char>, d: Seq<char>) -> bool {
    spec_has_name(idx, v) && spec_deps_of(idx, v).contains(d)
}

/// A walk along dependency edges.
pub open spec fn spec_is_dep_path(idx: Seq<PackageView>, p: Seq<Seq<char>>) -> bool {
    forall|k: int| 0 <= k < p.len() - 1 ==> spec_depends_on(idx, #[trigger] p[k], p[k + 1])
}

/// `u` is reachable from `v` along zero or more dependency edges.
pub open spec fn spec_reaches(idx: Seq<PackageView>, v: Seq<char>, u: Seq<char>) -> bool {
    exists|p: Seq<Seq<char>>|
        #[trigger] spec_is_dep_path(idx, p) && p.len() >= 1 && p.first() == v && p.last() == u
}

/// `u` is reachable from `v` along at least one dependency edge: `u` is a
/// transitive dependency of `v`.
pub open spec fn spec_reaches_plus(idx: Seq<PackageView>, v: Seq<char>, u: Seq<char>) -> bool {
    exists|p: Seq<Seq<char>>|
        #[trigger] spec_is_dep_path(idx, p) && p.len() >= 2 && p.first() == v && p.last() == u
}

/// `n` lies on a dependency cycle.
pub open spec fn spec_on_cycle(idx: Seq<PackageView>, n: Seq<char>) -> bool {
    spec_reaches_plus(idx, n, n)
}

/// Evidence of the re-entry that closes a cycle: the search walked a
/// duplicate-free dependency chain from `root` and, from its end, met
/// `n` — a node already on the chain — again.  This is the node the
/// search reports; on the two-package cycle resolved from `a` it admits
/// `a` and excludes `b`.
pub open spec fn spec_cycle_witness(idx: Seq<PackageView>, root: Seq<char>, n: Seq<char>) -> bool {
    exists|p: Seq<Seq<char>>|
        #[trigger] spec_is_dep_path(idx, p) && p.len() >= 1 && p.first() == root
            && p.no_duplicates() && p.contains(n) && spec_depends_on(idx, p.last(), n)
}

/// Every dependency of every plan entry stands strictly before it.
pub open spec fn spec_plan_closed(idx: Seq<PackageView>, plan: Seq<Seq<char>>) -> bool {
    forall|i: int, k: int|
        #![trigger spec_deps_of(idx, plan[i])[k]]
        0 <= i < plan.len() && 0 <= k < spec_deps_of(idx, plan[i]).len() ==> plan.subrange(
            0,
            i,
        ).contains(spec_deps_of(idx, plan[i])[k])
}

/// The bookkeeping the search maintains about its two accumulators.
pub open spec fn spec_resolver_inv(
    idx: Seq<PackageView>,
    resolved: Seq<Seq<char>>,
    visited: Seq<Seq<char>>,
) -> bool {
    &&& resolved.no_duplicates()
    &&& visited.no_duplicates()
    &&& forall|i: int| 0 <= i < resolved.len() ==> spec_has_name(idx, #[trigger] resolved[i])
    &&& forall|i: int| 0 <= i < visited.len() ==> spec_has_name(idx, #[trigger] visited[i])
    &&& forall|n: Seq<char>| #[trigger] resolved.contains(n) ==> visited.contains(n)
    &&& spec_plan_closed(idx, resolved)
}

/// The ghost call stack: the names entered but not yet resolved, in entry
/// order; they form a dependency chain, and are exactly the visited names
/// that are not resolved.
pub open spec fn spec_stack_inv(
    idx: Seq<PackageView>,
    resolved: Seq<Seq<char>>,
    visited: Seq<Seq<char>>,
    stack: Seq<Seq<char>>,
    root: Seq<char>,
) -> bool {
    &&& stack.no_duplicates()
    &&& spec_is_dep_path(idx, stack)
    &&& forall|n: Seq<char>|
        #[trigger] stack.contains(n) ==> visited.contains(n) && !resolved.contains(n)
    &&& forall|n: Seq<char>|
        #[trigger] visited.contains(n) && !resolved.contains(n) ==> stack.contains(n)
    &&& forall|k: int| 0 <= k < stack.len() ==> spec_reaches(idx, root, #[trigger] stack[k])
    &&& stack.len() > 0 ==> stack.first() == root
}

proof fn lemma_prefix_trans(a: Seq<Seq<char>>, b: Seq<Seq<char>>, c: Seq<Seq<char>>)
    requires
        a.is_prefix_of(b),
        b.is_prefix_of(c),
    ensures
        a.is_prefix_of(c),
{
    assert forall|x: int| 0 <= x < a.len() implies a[x] == c[x] by {
        assert(a[x] == b.subrange(0, a.len() as int)[x]);
        assert(b[x] == c.subrange(0, b.len() as int)[x]);
    };
    assert(a =~= c.subrange(0, a.len() as int));
}

/// Reachability is reflexive.
pub proof fn lemma_reaches_self(idx: Seq<PackageView>, v: Seq<char>)
    ensures
        spec_reaches(idx, v, v),
{
    let p: Seq<Seq<char>> = seq![v];
    assert(spec_is_dep_path(idx, p));
    assert(p.first() == v && p.last() == v);
}

/// Reachability extends along an edge.
pub proof fn lemma_reaches_step(idx: Seq<PackageView>, a: Seq<char>, b: Seq<char>, c: Seq<char>)
    requires
        spec_reaches(idx, a, b),
        spec_depends_on(idx, b, c),
    ensures
        spec_reaches(idx, a, c),
{
    let p = choose|p: Seq<Seq<char>>|
        #[trigger] spec_is_dep_path(idx, p) && p.len() >= 1 && p.first() == a && p.last() == b;
    let q = p.push(c);
    assert forall|k: int| 0 <= k < q.len() - 1 implies spec_depends_on(
        idx,
        #[trigger] q[k],
        q[k + 1],
    ) by {
        if k < p.len() - 1 {
            assert(q[k] == p[k] && q[k + 1] == p[k + 1]);
        } else {
            assert(q[k] == p.last() && q[k + 1] == c);
        }
    };
    assert(spec_is_dep_path(idx, q) && q.len() >= 2 && q.first() == a && q.last() == c);
}

/// No more names can be visited than the index holds: visited names are
/// distinct and each is an index name.
proof fn lemma_visited_bounded(idx: Seq<PackageView>, visited: Seq<Seq<char>>)
    requires
        visited.no_duplicates(),
        forall|i: int| 0 <= i < visited.len() ==> spec_has_name(idx, #[trigger] visited[i]),
    ensures
        visited.len() <= idx.len(),
{
    broadcast use vstd::seq_lib::group_seq_properties;

    let names = idx.map_values(|p: PackageView| p.name);
    assert forall|i: int| 0 <= i < visited.len() implies names.to_set().contains(
        #[trigger] visited[i],
    ) by {
        lemma_find_position(idx, visited[i]);
        let j = choose|j: int|
            0 <= j < idx.len() && (#[trigger] idx[j]).name == visited[i] && spec_find(
                idx,
                visited[i],
            ) == Some(idx[j]);
        assert(names[j] == visited[i]);
        assert(names.to_set().contains(names[j]));
    };
    visited.unique_seq_to_set();
    assert(visited.to_set().subset_of(names.to_set()));
    names.lemma_cardinality_of_set();
    lemma_len_subset(visited.to_set(), names.to_set());
}

/// The recursive depth-first search.  `stack` is the ghost chain of names
/// whose frames are open; `root` is the original target.
#[verifier::rlimit(60)]
fn resolve_into(
    name: &String,
    idx: &PackageIndex,
    resolved: &mut Vec<String>,
    visited: &mut Vec<String>,
    Ghost(root): Ghost<Seq<char>>,
    Ghost(stack): Ghost<Seq<Seq<char>>>,
) -> (r: Result<(), TexError>)
    requires
        idx.wf(),
        spec_resolver_inv(idx@, old(resolved).deep_view(), old(visited).deep_view()),
        spec_stack_inv(idx@, old(resolved).deep_view(), old(visited).deep_view(), stack, root),
        !old(resolved).deep_view().contains(name@),
        stack.len() > 0 ==> spec_depends_on(idx@, stack.last(), name@),
        stack.len() == 0 ==> name@ == root,
        spec_reaches(idx@, root, name@),
    ensures
        match r {
            Ok(()) => {
                &&& spec_resolver_inv(idx@, final(resolved).deep_view(), final(visited).deep_view())
                &&& old(resolved).deep_view().is_prefix_of(final(resolved).deep_view())
                &&& old(visited).deep_view().is_prefix_of(final(visited).deep_view())
                &&& final(resolved).deep_view().len() > old(resolved).deep_view().len()
                &&& final(resolved).deep_view().last() == name@
                &&& forall|n: Seq<char>|
                    #[trigger] final(resolved).deep_view().contains(n) && !old(
                        resolved,
                    ).deep_view().contains(n) ==> !old(visited).deep_view().contains(n)
                        && spec_reaches(idx@, root, n)
                &&& forall|n: Seq<char>|
                    #[trigger] final(visited).deep_view().contains(n) <==> (old(
                        visited,
                    ).deep_view().contains(n) || (final(resolved).deep_view().contains(n) && !old(
                        resolved,
                    ).deep_view().contains(n)))
            },
            Err(TexError::PackageNotFound(n)) => !spec_has_name(idx@, n@) && spec_reaches(
                idx@,
                root,
                n@,
            ),
            Err(TexError::DependencyCycle(n)) => spec_on_cycle(idx@, n@) && spec_reaches(
                idx@,
                root,
                n@,
            ) && spec_cycle_witness(idx@, root, n@),
            Err(_) => false,
        },
    decreases idx@.len() - old(visited).deep_view().len(),
{
    let pkg = match idx.get(name.as_str()) {
        None => {
            return Err(TexError::PackageNotFound(name.clone()));
        },
        Some(p) => p,
    };
    if vec_contains_str(visited, name.as_str()) {
        proof {
            assert(stack.contains(name@));
            let k = choose|k: int| 0 <= k < stack.len() && stack[k] == name@;
            let cyc = stack.skip(k).push(name@);
            assert forall|m: int| 0 <= m < cyc.len() - 1 implies spec_depends_on(
                idx@,
                #[trigger] cyc[m],
                cyc[m + 1],
            ) by {
                if m < cyc.len() - 2 {
                    assert(cyc[m] == stack[k + m] && cyc[m + 1] == stack[k + m + 1]);
                    assert(spec_depends_on(idx@, stack[k + m], stack[k + m + 1]));
                } else {
                    assert(cyc[m] == stack[stack.len() - 1] && cyc[m + 1] == name@);
                }
            };
            assert(spec_is_dep_path(idx@, cyc) && cyc.len() >= 2 && cyc.first() == name@
                && cyc.last() == name@);
            // the stack is the re-entry evidence: a duplicate-free chain
            // from the root that holds `name`, whose end depends on it
            assert(stack.first() == root);
            assert(spec_cycle_witness(idx@, root, name@));
        }
        return Err(TexError::DependencyCycle(name.clone()));
    }
    let ghost pre_resolved = resolved.deep_view();
    let ghost pre_visited = visited.deep_view();
    visited.push(name.clone());
    let ghost stack2 = stack.push(name@);
    proof {
        assert(visited.deep_view() =~= pre_visited.push(name@));
        broadcast use vstd::seq_lib::group_seq_properties;

        assert(!stack.contains(name@));
        assert(visited.deep_view().no_duplicates());
        assert forall|n: Seq<char>| #[trigger] stack2.contains(n) implies visited.deep_view(
        ).contains(n) && !resolved.deep_view().contains(n) by {
            if stack.contains(n) {
                assert(pre_visited.contains(n));
            } else {
                assert(n == name@);
            }
        };
        assert forall|n: Seq<char>|
            #[trigger] visited.deep_view().contains(n) && !resolved.deep_view().contains(
                n,
            ) implies stack2.contains(n) by {
            if pre_visited.contains(n) {
                assert(stack.contains(n));
                assert(stack2.contains(n));
            } else {
                assert(n == name@);
                assert(stack2.last() == name@);
            }
        };
        assert forall|m: int| 0 <= m < stack2.len() - 1 implies spec_depends_on(
            idx@,
            #[trigger] stack2[m],
            stack2[m + 1],
        ) by {
            if m < stack.len() - 1 {
                assert(stack2[m] == stack[m] && stack2[m + 1] == stack[m + 1]);
                assert(spec_depends_on(idx@, stack[m], stack[m + 1]));
            } else {
                assert(stack2[m] == stack.last() && stack2[m + 1] == name@);
            }
        };
        assert forall|k: int| 0 <= k < stack2.len() implies spec_reaches(
            idx@,
            root,
            #[trigger] stack2[k],
        ) by {
            if k < stack.len() {
                assert(stack2[k] == stack[k]);
            } else {
                assert(stack2[k] == name@);
            }
        };
        assert(stack2.first() == root) by {
            if stack.len() == 0 {
                assert(stack2[0] == name@);
            } else {
                assert(stack2[0] == stack[0]);
            }
        };
        assert(spec_stack_inv(idx@, resolved.deep_view(), visited.deep_view(), stack2, root));
    }
    let ndeps = pkg.depends.len();
    let mut k: usize = 0;
    while k < ndeps
        invariant
            idx.wf(),
            ndeps == pkg@.depends.len(),
            spec_find(idx@, name@) == Some(pkg@),
            spec_resolver_inv(idx@, resolved.deep_view(), visited.deep_view()),
            spec_stack_inv(idx@, resolved.deep_view(), visited.deep_view(), stack2, root),
            stack2.last() == name@,
            stack2 == stack.push(name@),
            !resolved.deep_view().contains(name@),
            visited.deep_view().contains(name@),
            !pre_visited.contains(name@),
            pre_resolved.is_prefix_of(resolved.deep_view()),
            pre_visited.push(name@).is_prefix_of(visited.deep_view()),
            pre_resolved == old(resolved).deep_view(),
            pre_visited == old(visited).deep_view(),
            spec_reaches(idx@, root, name@),
            forall|j: int| 0 <= j < k ==> resolved.deep_view().contains(#[trigger] pkg@.depends[j]),
            forall|n: Seq<char>|
                #[trigger] resolved.deep_view().contains(n) && !pre_resolved.contains(n)
                    ==> !pre_visited.contains(n) && spec_reaches(idx@, root, n),
            forall|n: Seq<char>|
                #[trigger] visited.deep_view().contains(n) <==> (pre_visited.contains(n) || n
                    == name@ || (resolved.deep_view().contains(n) && !pre_resolved.contains(n))),
        decreases ndeps - k,
    {
        let dep = &pkg.depends[k];
        proof {
            assert(dep@ == pkg@.depends[k as int]);
            assert(spec_deps_of(idx@, name@) == pkg@.depends);
            assert(spec_deps_of(idx@, name@).contains(pkg@.depends[k as int]));
            assert(spec_depends_on(idx@, name@, dep@));
            lemma_reaches_step(idx@, root, name@, dep@);
        }
        if !vec_contains_str(resolved, dep.as_str()) {
            let ghost mid_resolved = resolved.deep_view();
            let ghost mid_visited = visited.deep_view();
            proof {
                lemma_visited_bounded(idx@, visited.deep_view());
                assert(visited.deep_view().len() >= pre_visited.push(name@).len());
                assert(visited.deep_view().len() > pre_visited.len());
            }
            match resolve_into(dep, idx, resolved, visited, Ghost(root), Ghost(stack2)) {
                Err(e) => {
                    return Err(e);
                },
                Ok(()) => {},
            }
            proof {
                assert(resolved.deep_view().last() == dep@);
                assert(resolved.deep_view().contains(dep@));
                lemma_prefix_trans(
                    pre_visited.push(name@),
                    mid_visited,
                    visited.deep_view(),
                );
                // the two frame clauses compose across the sub-call
                assert forall|n: Seq<char>|
                    #[trigger] resolved.deep_view().contains(n) && !pre_resolved.contains(
                        n,
                    ) implies !pre_visited.contains(n) && spec_reaches(idx@, root, n) by {
                    if mid_resolved.contains(n) {
                    } else {
                        assert(!mid_visited.contains(n));
                        assert(!pre_visited.contains(n));
                    }
                };
                assert forall|n: Seq<char>|
                    #[trigger] visited.deep_view().contains(n) <==> (pre_visited.contains(n) || n
                        == name@ || (resolved.deep_view().contains(n) && !pre_resolved.contains(
                        n,
                    ))) by {
                    if visited.deep_view().contains(n) {
                        if mid_visited.contains(n) {
                        } else {
                            assert(resolved.deep_view().contains(n) && !mid_resolved.contains(n));
                            assert(!mid_visited.contains(n));
                            assert(!pre_resolved.contains(n));
                        }
                    } else {
                        assert(!mid_visited.contains(n));
                        if resolved.deep_view().contains(n) && !pre_resolved.contains(n) {
                            assert(visited.deep_view().contains(n));
                        }
                    }
                };
                assert(!resolved.deep_view().contains(name@)) by {
                    if resolved.deep_view().contains(name@) {
                        assert(!mid_resolved.contains(name@));
                        assert(!mid_visited.contains(name@));
                        assert(mid_visited.contains(name@));
                    }
                };
                assert(pre_resolved.is_prefix_of(resolved.deep_view()));
                assert forall|j: int| 0 <= j < k + 1 implies resolved.deep_view().contains(
                    #[trigger] pkg@.depends[j],
                ) by {
                    if j < k {
                        assert(mid_resolved.contains(pkg@.depends[j]));
                        assert(mid_resolved.is_prefix_of(resolved.deep_view()));
                        let x = choose|x: int|
                            0 <= x < mid_resolved.len() && mid_resolved[x] == pkg@.depends[j];
                        assert(resolved.deep_view()[x] == pkg@.depends[j]);
                    }
                };
            }
        }
        k = k + 1;
    }
    let ghost before_push = resolved.deep_view();
    resolved.push(name.clone());
    proof {
        broadcast use vstd::seq_lib::group_seq_properties;

        assert(resolved.deep_view() =~= before_push.push(name@));
        let now = resolved.deep_view();
        assert(now.last() == name@);
        assert(now.no_duplicates());
        assert forall|i: int, j: int|
            #![trigger spec_deps_of(idx@, now[i])[j]]
            0 <= i < now.len() && 0 <= j < spec_deps_of(idx@, now[i]).len() implies now.subrange(
            0,
            i,
        ).contains(spec_deps_of(idx@, now[i])[j]) by {
            if i < before_push.len() {
                assert(now[i] == before_push[i]);
                assert(before_push.subrange(0, i).contains(spec_deps_of(idx@, before_push[i])[j]));
                assert(now.subrange(0, i) =~= before_push.subrange(0, i));
            } else {
                assert(now[i] == name@);
                assert(spec_deps_of(idx@, name@) == pkg@.depends);
                assert(before_push.contains(pkg@.depends[j]));
                assert(now.subrange(0, i) =~= before_push);
            }
        };
        assert(spec_plan_closed(idx@, now));
        assert forall|n: Seq<char>|
            #[trigger] now.contains(n) && !pre_resolved.contains(n) implies !pre_visited.contains(
            n,
        ) && spec_reaches(idx@, root, n) by {
            if before_push.contains(n) {
            } else {
                assert(n == name@);
            }
        };
        assert forall|n: Seq<char>| #[trigger] now.contains(n) implies visited.deep_view(
        ).contains(n) by {
            if before_push.contains(n) {
            } else {
                assert(n == name@);
            }
        };
        assert forall|n: Seq<char>|
            #[trigger] visited.deep_view().contains(n) <==> (pre_visited.contains(n) || (
            now.contains(n) && !pre_resolved.contains(n))) by {
            assert(now.contains(name@));
            if visited.deep_view().contains(n) {
                if !pre_visited.contains(n) && n != name@ {
                    assert(before_push.contains(n) && !pre_resolved.contains(n));
                    assert(now.contains(n));
                }
            } else {
                if now.contains(n) && !pre_resolved.contains(n) {
                    if before_push.contains(n) {
                        assert(visited.deep_view().contains(n));
                    } else {
                        assert(n == name@);
                        assert(visited.deep_view().contains(name@));
                    }
                }
            }
        };
        assert(pre_resolved.is_prefix_of(now)) by {
            assert(pre_resolved.is_prefix_of(before_push));
            assert forall|x: int| 0 <= x < pre_resolved.len() implies now[x] == pre_resolved[x] by {
                assert(before_push[x] == pre_resolved[x]);
            };
            assert(pre_resolved =~= now.subrange(0, pre_resolved.len() as int));
        };
        assert(pre_visited.is_prefix_of(visited.deep_view())) by {
            assert forall|x: int| 0 <= x < pre_visited.len() implies visited.deep_view()[x]
                == pre_visited[x] by {
                assert(pre_visited.push(name@)[x] == pre_visited[x]);
                assert(pre_visited.push(name@).is_prefix_of(visited.deep_view()));
                assert(visited.deep_view().subrange(
                    0,
                    pre_visited.len() as int + 1,
                )[x] == pre_visited.push(name@)[x]);
            };
            assert(pre_visited =~= visited.deep_view().subrange(0, pre_visited.len() as int));
        };
    }
    Ok(())
}

/// Resolve the install plan for `target`: a topologically ordered list of
/// package names — dependencies first, no duplicates, the target last —
/// covering the dependencies of everything planned.
pub fn resolve(target: &str, idx: &PackageIndex) -> (r: Result<Vec<String>, TexError>)
    requires
        idx.wf(),
    ensures
        match r {
            Ok(plan) => {
                &&& plan.deep_view().no_duplicates()
                &&& plan.deep_view().len() > 0
                &&& plan.deep_view().last() == target@
                &&& spec_plan_closed(idx@, plan.deep_view())
                &&& forall|i: int|
                    0 <= i < plan.deep_view().len() ==> spec_has_name(
                        idx@,
                        #[trigger] plan.deep_view()[i],
                    ) && spec_reaches(idx@, target@, plan.deep_view()[i])
            },
            Err(TexError::PackageNotFound(n)) => !spec_has_name(idx@, n@) && spec_reaches(
                idx@,
                target@,
                n@,
            ),
            Err(TexError::DependencyCycle(n)) => spec_on_cycle(idx@, n@) && spec_reaches(
                idx@,
                target@,
                n@,
            ) && spec_cycle_witness(idx@, target@, n@),
            Err(_) => false,
        },
{
    let mut resolved: Vec<String> = Vec::new();
    let mut visited: Vec<String> = Vec::new();
    let name = target.to_owned();
    proof {
        assert(resolved.deep_view() =~= Seq::<Seq<char>>::empty());
        assert(visited.deep_view() =~= Seq::<Seq<char>>::empty());
        lemma_reaches_self(idx@, target@);
    }
    match resolve_into(
        &name,
        idx,
        &mut resolved,
        &mut visited,
        Ghost(target@),
        Ghost(Seq::empty()),
    ) {
        Err(e) => Err(e),
        Ok(()) => {
            proof {
                assert forall|i: int| 0 <= i < resolved.deep_view().len() implies spec_has_name(
                    idx@,
                    #[trigger] resolved.deep_view()[i],
                ) && spec_reaches(idx@, target@, resolved.deep_view()[i]) by {
                    let n = resolved.deep_view()[i];
                    assert(resolved.deep_view().contains(n));
                };
            }
            Ok(resolved)
        },
    }
}

/// The names of a plan's records, in order.
pub open spec fn spec_plan_names(plan: Seq<PackageView>) -> Seq<Seq<char>> {
    plan.map_values(|p: PackageView| p.name)
}

/// Resolve the plan for `target` and look every planned name up: the
/// records to fetch and extract, dependencies first, the target last.
pub fn build_install_plan(target: &str, idx: &PackageIndex) -> (r: Result<
    Vec<Package>,
    TexError,
>)
    requires
        idx.wf(),
    ensures
        match r {
            Ok(plan) => {
                &&& spec_plan_names(plan.deep_view()).no_duplicates()
                &&& plan.deep_view().len() > 0
                &&& spec_plan_names(plan.deep_view()).last() == target@
                &&& spec_plan_closed(idx@, spec_plan_names(plan.deep_view()))
                &&& forall|i: int|
                    0 <= i < plan.deep_view().len() ==> spec_find(
                        idx@,
                        (#[trigger] plan.deep_view()[i]).name,
                    ) == Some(plan.deep_view()[i]) && spec_reaches(
                        idx@,
                        target@,
                        plan.deep_view()[i].name,
                    )
            },
            Err(TexError::PackageNotFound(n)) => !spec_has_name(idx@, n@) && spec_reaches(
                idx@,
                target@,
                n@,
            ),
            Err(TexError::DependencyCycle(n)) => spec_on_cycle(idx@, n@) && spec_reaches(
                idx@,
                target@,
                n@,
            ) && spec_cycle_witness(idx@, target@, n@),
            Err(_) => false,
        },
{
    let names = match resolve(target, idx) {
        Err(e) => {
            return Err(e);
        },
        Ok(names) => names,
    };
    let ghost nv = names.deep_view();
    let mut plan: Vec<Package> = Vec::new();
    let n = names.len();
    let mut i: usize = 0;
    while i < n
        invariant
            0 <= i <= n,
            n == nv.len(),
            nv == names.deep_view(),
            idx.wf(),
            plan.deep_view().len() == i,
            forall|k: int|
                0 <= k < i ==> spec_find(idx@, nv[k]) == Some(#[trigger] plan.deep_view()[k]),
            forall|k: int| 0 <= k < nv.len() ==> spec_has_name(idx@, #[trigger] nv[k]),
        decreases n - i,
    {
        proof {
            assert(names@[i as int]@ == nv[i as int]);
            assert(spec_has_name(idx@, nv[i as int]));
        }
        let pkg = match idx.get(names[i].as_str()) {
            None => {
                proof {
                    assert(false);
                }
                return Err(TexError::PackageNotFound(names[i].clone()));
            },
            Some(p) => p,
        };
        let ghost old_dv = plan.deep_view();
        plan.push(pkg.duplicate());
        proof {
            assert(plan.deep_view() =~= old_dv.push(pkg@));
        }
        i = i + 1;
    }
    proof {
        assert forall|k: int| 0 <= k < nv.len() implies (#[trigger] plan.deep_view()[k]).name
            == nv[k] by {
            crate::index::lemma_find_name(idx@, nv[k]);
        };
        assert(spec_plan_names(plan.deep_view()) =~= nv);
        assert forall|k: int| 0 <= k < plan.deep_view().len() implies spec_find(
            idx@,
            (#[trigger] plan.deep_view()[k]).name,
        ) == Some(plan.deep_view()[k]) && spec_reaches(
            idx@,
            target@,
            plan.deep_view()[k].name,
        ) by {
            assert(spec_find(idx@, nv[k]) == Some(plan.deep_view()[k]));
            crate::index::lemma_find_name(idx@, nv[k]);
            assert(plan.deep_view()[k].name == nv[k]);
        };
    }
    Ok(plan)
}

/// The position `x` holds in `s`; meaningful when `s.contains(x)`.
pub open spec fn spec_pos(s: Seq<Seq<char>>, x: Seq<char>) -> int {
    choose|i: int| 0 <= i < s.len() && s[i] == x
}

pub proof fn lemma_pos_is_position(s: Seq<Seq<char>>, x: Seq<char>)
    requires
        s.contains(x),
    ensures
        0 <= spec_pos(s, x) < s.len(),
        s[spec_pos(s, x)] == x,
{
    assert(exists|i: int| 0 <= i < s.len() && s[i] == x);
}

/// Along any dependency path starting at an occurrence in a closed plan,
/// the end of the path occurs at or before the start — strictly before,
/// when the path has at least one edge.
proof fn lemma_path_descends(
    idx: Seq<PackageView>,
    plan: Seq<Seq<char>>,
    path: Seq<Seq<char>>,
    i: int,
)
    requires
        spec_plan_closed(idx, plan),
        spec_is_dep_path(idx, path),
        path.len() >= 1,
        0 <= i < plan.len(),
        plan[i] == path.first(),
    ensures
        exists|j: int|
            0 <= j <= i && #[trigger] plan[j] == path.last() && (path.len() >= 2 ==> j < i),
    decreases path.len(),
{
    if path.len() == 1 {
        assert(plan[i] == path.last());
    } else {
        let d = path[1];
        assert(spec_depends_on(idx, path[0], d));
        let deps = spec_deps_of(idx, plan[i]);
        assert(deps.contains(d));
        let k = choose|k: int| 0 <= k < deps.len() && deps[k] == d;
        assert(plan.subrange(0, i).contains(spec_deps_of(idx, plan[i])[k]));
        let j0 = choose|j0: int| 0 <= j0 < i && plan.subrange(0, i)[j0] == d;
        assert(plan[j0] == d);
        let rest = path.drop_first();
        assert(rest.first() == d && rest.last() == path.last());
        assert forall|m: int| 0 <= m < rest.len() - 1 implies spec_depends_on(
            idx,
            #[trigger] rest[m],
            rest[m + 1],
        ) by {
            assert(rest[m] == path[m + 1] && rest[m + 1] == path[m + 2]);
            assert(spec_depends_on(idx, path[m + 1], path[m + 2]));
        };
        lemma_path_descends(idx, plan, rest, j0);
        let j = choose|j: int|
            0 <= j <= j0 && #[trigger] plan[j] == rest.last() && (rest.len() >= 2 ==> j < j0);
        assert(plan[j] == path.last() && j <= j0 < i);
    }
}

/// The topological-order law: in a closed, duplicate-free plan, every
/// transitive dependency of a plan entry stands strictly before it.
pub proof fn lemma_plan_topological(
    idx: Seq<PackageView>,
    plan: Seq<Seq<char>>,
    u: Seq<char>,
    v: Seq<char>,
)
    requires
        spec_plan_closed(idx, plan),
        plan.no_duplicates(),
        plan.contains(v),
        spec_reaches_plus(idx, v, u),
    ensures
        plan.contains(u),
        spec_pos(plan, u) < spec_pos(plan, v),
{
    let path = choose|p: Seq<Seq<char>>|
        #[trigger] spec_is_dep_path(idx, p) && p.len() >= 2 && p.first() == v && p.last() == u;
    lemma_pos_is_position(plan, v);
    let i = spec_pos(plan, v);
    lemma_path_descends(idx, plan, path, i);
    let j = choose|j: int|
        0 <= j <= i && #[trigger] plan[j] == path.last() && (path.len() >= 2 ==> j < i);
    assert(plan[j] == u && j < i);
    assert(plan.contains(u));
    lemma_pos_is_position(plan, u);
    let ju = spec_pos(plan, u);
    if ju != j {
        assert(plan[ju] == plan[j]);
        assert(false);
    }
}

} // verus!
