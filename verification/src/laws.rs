//! What holds of every resolution: which requests have none, and that the
//! requests decide what is installed.

use crate::artifact::{names_dependency, satisfies, ArtifactView, DependencyView};
use crate::error::InstallError;
use crate::registry::{distinct_names, holds_name};
use crate::resolve::{
    answers, asked, at_odds, called_for, depends_on, from_registry, is_chain, is_cycle,
    is_reference, is_refusal, is_resolution, provided, reachable, resolved_as, stamped_version,
};
use vstd::prelude::*;

verus! {

/// The place in `plan` of the artifact called `name`, given that a
/// reference to it is provided for.
proof fn lemma_place(plan: Seq<ArtifactView>, upto: int, name: Seq<char>) -> (q: int)
    requires
        exists|d: DependencyView| d.name == name && #[trigger] provided(plan, upto, d),
    ensures
        0 <= q < upto,
        q < plan.len(),
        plan[q].name == name,
{
    let d = choose|d: DependencyView| d.name == name && #[trigger] provided(plan, upto, d);
    let q = choose|q: int| 0 <= q < upto && q < plan.len() && #[trigger] answers(plan, q, d);
    q
}

/// In a resolution, an artifact that depends on the name `b` stands behind
/// the artifact called `b`.
proof fn lemma_dependency_stands_before(
    reg: Seq<ArtifactView>,
    requested: Seq<DependencyView>,
    plan: Seq<ArtifactView>,
    p: int,
    a: Seq<char>,
    b: Seq<char>,
) -> (q: int)
    requires
        distinct_names(reg),
        is_resolution(reg, requested, plan),
        0 <= p < plan.len(),
        plan[p].name == a,
        depends_on(reg, a, b),
    ensures
        0 <= q < p,
        plan[q].name == b,
{
    let k = choose|k: int|
        0 <= k < reg.len() && (#[trigger] reg[k]).name == a && names_dependency(
            reg[k].dependencies,
            b,
        );
    assert(from_registry(reg, plan[p]));
    let k2 = choose|k2: int|
        0 <= k2 < reg.len() && plan[p] == (ArtifactView {
            version: plan[p].version,
            ..#[trigger] reg[k2]
        });
    if k < k2 {
        assert(reg[k].name != reg[k2].name);
    } else if k2 < k {
        assert(reg[k2].name != reg[k].name);
    }
    assert(plan[p].dependencies == reg[k].dependencies);
    let j = choose|j: int|
        0 <= j < reg[k].dependencies.len() && (#[trigger] reg[k].dependencies[j]).name == b;
    assert(provided(plan, p, plan[p].dependencies[j]));
    lemma_place(plan, p, b)
}

/// Along a circle of dependencies, the member `t` steps on stands at least
/// `t` places before the one the walk began with.
proof fn lemma_cycle_descends(
    reg: Seq<ArtifactView>,
    requested: Seq<DependencyView>,
    plan: Seq<ArtifactView>,
    members: Seq<Seq<char>>,
    p: int,
    t: int,
) -> (q: int)
    requires
        distinct_names(reg),
        is_resolution(reg, requested, plan),
        is_cycle(reg, members),
        0 <= p < plan.len(),
        plan[p].name == members[0],
        0 <= t < members.len(),
    ensures
        0 <= q <= p - t,
        plan[q].name == members[t],
    decreases t,
{
    if t == 0 {
        p
    } else {
        let before = lemma_cycle_descends(reg, requested, plan, members, p, t - 1);
        assert(depends_on(reg, members[t - 1], members[t - 1 + 1]));
        lemma_dependency_stands_before(reg, requested, plan, before, members[t - 1], members[t])
    }
}

/// In a resolution, every name along a chain from a request has its
/// artifact.
proof fn lemma_chain_is_planned(
    reg: Seq<ArtifactView>,
    requested: Seq<DependencyView>,
    plan: Seq<ArtifactView>,
    names: Seq<Seq<char>>,
    t: int,
) -> (p: int)
    requires
        distinct_names(reg),
        is_resolution(reg, requested, plan),
        is_chain(reg, requested, names),
        0 <= t < names.len(),
    ensures
        0 <= p < plan.len(),
        plan[p].name == names[t],
    decreases t,
{
    if t == 0 {
        let i = choose|i: int| 0 <= i < requested.len() && (#[trigger] requested[i]).name == names[0];
        assert(provided(plan, plan.len() as int, requested[i]));
        lemma_place(plan, plan.len() as int, names[0])
    } else {
        let above = lemma_chain_is_planned(reg, requested, plan, names, t - 1);
        assert(depends_on(reg, names[t - 1], names[t - 1 + 1]));
        lemma_dependency_stands_before(reg, requested, plan, above, names[t - 1], names[t])
    }
}

/// Where the requests lead to a member of a circle of dependencies, no
/// installation order exists: resolving them fails.
pub proof fn lemma_cycle_has_no_resolution(
    reg: Seq<ArtifactView>,
    requested: Seq<DependencyView>,
    plan: Seq<ArtifactView>,
    members: Seq<Seq<char>>,
)
    requires
        distinct_names(reg),
        is_cycle(reg, members),
        reachable(reg, requested, members[0]),
    ensures
        !is_resolution(reg, requested, plan),
{
    if is_resolution(reg, requested, plan) {
        let names = choose|names: Seq<Seq<char>>|
            #[trigger] is_chain(reg, requested, names) && names.last() == members[0];
        let p = lemma_chain_is_planned(reg, requested, plan, names, names.len() - 1);
        let last = lemma_cycle_descends(reg, requested, plan, members, p, members.len() - 1);
        let again = lemma_dependency_stands_before(
            reg,
            requested,
            plan,
            last,
            members.last(),
            members[0],
        );
        assert(again < p);
        assert(plan[again].name != plan[p].name);
    }
}

/// In a resolution, whatever the requests lead to has its artifact.
proof fn lemma_reachable_is_planned(
    reg: Seq<ArtifactView>,
    requested: Seq<DependencyView>,
    plan: Seq<ArtifactView>,
    name: Seq<char>,
) -> (p: int)
    requires
        distinct_names(reg),
        is_resolution(reg, requested, plan),
        reachable(reg, requested, name),
    ensures
        0 <= p < plan.len(),
        plan[p].name == name,
{
    let names = choose|names: Seq<Seq<char>>|
        #[trigger] is_chain(reg, requested, names) && names.last() == name;
    lemma_chain_is_planned(reg, requested, plan, names, names.len() - 1)
}

/// In a resolution, every reference is asked for by a request or by an
/// artifact of the order.
proof fn lemma_reference_is_asked(
    reg: Seq<ArtifactView>,
    requested: Seq<DependencyView>,
    plan: Seq<ArtifactView>,
    d: DependencyView,
)
    requires
        distinct_names(reg),
        is_resolution(reg, requested, plan),
        is_reference(reg, requested, d),
    ensures
        asked(requested, plan, d),
{
    if !requested.contains(d) {
        let (k, j) = choose|k: int, j: int|
            0 <= k < reg.len() && 0 <= j < reg[k].dependencies.len() && reachable(
                reg,
                requested,
                reg[k].name,
            ) && #[trigger] reg[k].dependencies[j] == d;
        let p = lemma_reachable_is_planned(reg, requested, plan, reg[k].name);
        assert(from_registry(reg, plan[p]));
        let k2 = choose|k2: int|
            0 <= k2 < reg.len() && plan[p] == (ArtifactView {
                version: plan[p].version,
                ..#[trigger] reg[k2]
            });
        if k < k2 {
            assert(reg[k].name != reg[k2].name);
        } else if k2 < k {
            assert(reg[k2].name != reg[k].name);
        }
        assert(plan[p].dependencies[j] == d);
    }
}

/// Where the requests lead to a name that the registry lacks, no
/// installation order exists: resolving them fails.
pub proof fn lemma_unknown_has_no_resolution(
    reg: Seq<ArtifactView>,
    requested: Seq<DependencyView>,
    plan: Seq<ArtifactView>,
    name: Seq<char>,
)
    requires
        distinct_names(reg),
        reachable(reg, requested, name),
        !holds_name(reg, name),
    ensures
        !is_resolution(reg, requested, plan),
{
    if is_resolution(reg, requested, plan) {
        let p = lemma_reachable_is_planned(reg, requested, plan, name);
        assert(from_registry(reg, plan[p]));
        let k = choose|k: int|
            0 <= k < reg.len() && plan[p] == (ArtifactView {
                version: plan[p].version,
                ..#[trigger] reg[k]
            });
        assert(reg[k].name == name);
    }
}

/// Where two references name one artifact and ask for different versions
/// of it, no installation order meets both: resolving fails, and neither
/// version is installed.
pub proof fn lemma_conflicting_references_have_no_resolution(
    reg: Seq<ArtifactView>,
    requested: Seq<DependencyView>,
    plan: Seq<ArtifactView>,
    d1: DependencyView,
    d2: DependencyView,
)
    requires
        distinct_names(reg),
        is_reference(reg, requested, d1),
        is_reference(reg, requested, d2),
        d1.name == d2.name,
        d1.version is Some,
        d2.version is Some,
        d1.version != d2.version,
    ensures
        !is_resolution(reg, requested, plan),
{
    if is_resolution(reg, requested, plan) {
        lemma_reference_is_asked(reg, requested, plan, d1);
        lemma_reference_is_asked(reg, requested, plan, d2);
        let p = lemma_asked_is_met(reg, requested, plan, d1);
        let q = lemma_asked_is_met(reg, requested, plan, d2);
        if p < q {
            assert(plan[p].name != plan[q].name);
        } else if q < p {
            assert(plan[q].name != plan[p].name);
        }
    }
}

/// Where every referenced name is known, no two references want one entry
/// at different versions and no dependencies run in a circle, nothing is a
/// reason to refuse: resolving succeeds.
pub proof fn lemma_sound_request_is_not_refused(
    reg: Seq<ArtifactView>,
    requested: Seq<DependencyView>,
    error: InstallError,
)
    requires
        forall|d: DependencyView| #[trigger] is_reference(reg, requested, d) ==> holds_name(reg, d.name),
        forall|d1: DependencyView, d2: DependencyView|
            is_reference(reg, requested, d1) && is_reference(reg, requested, d2) ==> !#[trigger] at_odds(
                reg,
                d1,
                d2,
            ),
        forall|members: Seq<Seq<char>>| !#[trigger] is_cycle(reg, members),
    ensures
        !is_refusal(reg, requested, error),
{
}

/// Where every referenced name is known and no reference asks for a
/// version, the only reason to refuse is a circle of dependencies.
pub proof fn lemma_refusal_without_versions_is_a_cycle(
    reg: Seq<ArtifactView>,
    requested: Seq<DependencyView>,
    error: InstallError,
)
    requires
        forall|d: DependencyView| #[trigger] is_reference(reg, requested, d) ==> holds_name(reg, d.name),
        forall|d: DependencyView| #[trigger] is_reference(reg, requested, d) ==> d.version is None,
        is_refusal(reg, requested, error),
    ensures
        error is CyclicDependency,
{
}

/// In what `resolve` returns, whatever an artifact depends on stands at an
/// earlier place.
pub proof fn lemma_dependencies_come_first(
    reg: Seq<ArtifactView>,
    requested: Seq<DependencyView>,
    plan: Seq<ArtifactView>,
    p: int,
    j: int,
) -> (q: int)
    requires
        is_resolution(reg, requested, plan),
        0 <= p < plan.len(),
        0 <= j < plan[p].dependencies.len(),
    ensures
        0 <= q < p,
        plan[q].name == plan[p].dependencies[j].name,
        satisfies(plan[p].dependencies[j].version, plan[q].version),
{
    assert(provided(plan, p, plan[p].dependencies[j]));
    let q = choose|q: int|
        0 <= q < p && q < plan.len() && #[trigger] answers(plan, q, plan[p].dependencies[j]);
    q
}

/// Two artifacts of one name, each in a resolution over `reg`, differ at
/// most in their version.
proof fn lemma_same_entry(
    reg: Seq<ArtifactView>,
    requested: Seq<DependencyView>,
    plan1: Seq<ArtifactView>,
    plan2: Seq<ArtifactView>,
    p: int,
    q: int,
)
    requires
        distinct_names(reg),
        is_resolution(reg, requested, plan1),
        is_resolution(reg, requested, plan2),
        0 <= p < plan1.len(),
        0 <= q < plan2.len(),
        plan1[p].name == plan2[q].name,
    ensures
        plan1[p] == (ArtifactView { version: plan1[p].version, ..plan2[q] }),
{
    assert(from_registry(reg, plan1[p]));
    assert(from_registry(reg, plan2[q]));
    let k1 = choose|k: int|
        0 <= k < reg.len() && plan1[p] == (ArtifactView {
            version: plan1[p].version,
            ..#[trigger] reg[k]
        });
    let k2 = choose|k: int|
        0 <= k < reg.len() && plan2[q] == (ArtifactView {
            version: plan2[q].version,
            ..#[trigger] reg[k]
        });
    if k1 < k2 {
        assert(reg[k1].name != reg[k2].name);
    } else if k2 < k1 {
        assert(reg[k2].name != reg[k1].name);
    }
}

/// In a resolution, what a request or an artifact of the order asks for is
/// there, at a version that meets the reference.
proof fn lemma_asked_is_met(
    reg: Seq<ArtifactView>,
    requested: Seq<DependencyView>,
    plan: Seq<ArtifactView>,
    d: DependencyView,
) -> (q: int)
    requires
        is_resolution(reg, requested, plan),
        asked(requested, plan, d),
    ensures
        0 <= q < plan.len(),
        plan[q].name == d.name,
        satisfies(d.version, plan[q].version),
{
    if requested.contains(d) {
        let i = choose|i: int| 0 <= i < requested.len() && requested[i] == d;
        assert(provided(plan, plan.len() as int, requested[i]));
        let q = choose|q: int|
            0 <= q < plan.len() && q < plan.len() && #[trigger] answers(plan, q, d);
        q
    } else {
        let (p, j) = choose|p: int, j: int|
            0 <= p < plan.len() && 0 <= j < plan[p].dependencies.len()
                && #[trigger] plan[p].dependencies[j] == d;
        assert(provided(plan, p, plan[p].dependencies[j]));
        let q = choose|q: int| 0 <= q < p && q < plan.len() && #[trigger] answers(plan, q, d);
        q
    }
}

/// The name of every artifact of one resolution occurs in every other
/// resolution of the same requests.
proof fn lemma_names_carry(
    reg: Seq<ArtifactView>,
    requested: Seq<DependencyView>,
    plan1: Seq<ArtifactView>,
    plan2: Seq<ArtifactView>,
    p: int,
) -> (q: int)
    requires
        distinct_names(reg),
        is_resolution(reg, requested, plan1),
        is_resolution(reg, requested, plan2),
        0 <= p < plan1.len(),
    ensures
        0 <= q < plan2.len(),
        plan2[q].name == plan1[p].name,
    decreases plan1.len() - p,
{
    assert(called_for(reg, requested, plan1, p));
    let d = choose|d: DependencyView|
        #[trigger] asked(requested, plan1, d) && resolved_as(reg, plan1[p], d);
    assert(d.name == plan1[p].name);
    if requested.contains(d) {
        assert(asked(requested, plan2, d));
        lemma_asked_is_met(reg, requested, plan2, d)
    } else {
        let (above, j) = choose|above: int, j: int|
            0 <= above < plan1.len() && 0 <= j < plan1[above].dependencies.len()
                && #[trigger] plan1[above].dependencies[j] == d;
        assert(provided(plan1, above, plan1[above].dependencies[j]));
        let at = choose|at: int| 0 <= at < above && at < plan1.len() && #[trigger] answers(plan1, at, d);
        if at < p {
            assert(plan1[at].name != plan1[p].name);
        } else if p < at {
            assert(plan1[p].name != plan1[at].name);
        }
        let other = lemma_names_carry(reg, requested, plan1, plan2, above);
        lemma_same_entry(reg, requested, plan1, plan2, above, other);
        assert(plan2[other].dependencies[j] == d);
        assert(asked(requested, plan2, d));
        lemma_asked_is_met(reg, requested, plan2, d)
    }
}

/// What is asked for in one resolution is asked for in every other
/// resolution of the same requests.
proof fn lemma_asked_carries(
    reg: Seq<ArtifactView>,
    requested: Seq<DependencyView>,
    plan1: Seq<ArtifactView>,
    plan2: Seq<ArtifactView>,
    d: DependencyView,
)
    requires
        distinct_names(reg),
        is_resolution(reg, requested, plan1),
        is_resolution(reg, requested, plan2),
        asked(requested, plan1, d),
    ensures
        asked(requested, plan2, d),
{
    if !requested.contains(d) {
        let (p, j) = choose|p: int, j: int|
            0 <= p < plan1.len() && 0 <= j < plan1[p].dependencies.len()
                && #[trigger] plan1[p].dependencies[j] == d;
        let q = lemma_names_carry(reg, requested, plan1, plan2, p);
        lemma_same_entry(reg, requested, plan1, plan2, p, q);
        assert(plan2[q].dependencies[j] == d);
    }
}

/// The requests decide what is installed: two resolutions of the same
/// requests over the same registry hold the same artifacts, at the same
/// versions. Only the order among unrelated ones is left open.
pub proof fn lemma_resolutions_agree(
    reg: Seq<ArtifactView>,
    requested: Seq<DependencyView>,
    plan1: Seq<ArtifactView>,
    plan2: Seq<ArtifactView>,
    p: int,
) -> (q: int)
    requires
        distinct_names(reg),
        is_resolution(reg, requested, plan1),
        is_resolution(reg, requested, plan2),
        0 <= p < plan1.len(),
    ensures
        0 <= q < plan2.len(),
        plan2[q] == plan1[p],
{
    let q = lemma_names_carry(reg, requested, plan1, plan2, p);
    lemma_same_entry(reg, requested, plan1, plan2, p, q);
    assert(called_for(reg, requested, plan1, p));
    assert(called_for(reg, requested, plan2, q));
    let d1 = choose|d: DependencyView|
        #[trigger] asked(requested, plan1, d) && resolved_as(reg, plan1[p], d);
    let d2 = choose|d: DependencyView|
        #[trigger] asked(requested, plan2, d) && resolved_as(reg, plan2[q], d);
    let k1 = choose|k: int|
        0 <= k < reg.len() && (#[trigger] reg[k]).name == d1.name && plan1[p] == (ArtifactView {
            version: stamped_version(d1.version, reg[k].version),
            ..reg[k]
        });
    let k2 = choose|k: int|
        0 <= k < reg.len() && (#[trigger] reg[k]).name == d2.name && plan2[q] == (ArtifactView {
            version: stamped_version(d2.version, reg[k].version),
            ..reg[k]
        });
    if k1 < k2 {
        assert(reg[k1].name != reg[k2].name);
    } else if k2 < k1 {
        assert(reg[k2].name != reg[k1].name);
    }
    lemma_asked_carries(reg, requested, plan1, plan2, d1);
    lemma_asked_carries(reg, requested, plan2, plan1, d2);
    let q1 = lemma_asked_is_met(reg, requested, plan2, d1);
    let p2 = lemma_asked_is_met(reg, requested, plan1, d2);
    if q1 < q {
        assert(plan2[q1].name != plan2[q].name);
    } else if q < q1 {
        assert(plan2[q].name != plan2[q1].name);
    }
    if p2 < p {
        assert(plan1[p2].name != plan1[p].name);
    } else if p < p2 {
        assert(plan1[p].name != plan1[p2].name);
    }
    q
}

} // verus!
