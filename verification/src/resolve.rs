//! From a set of requests to an installation order.
//!
//! The registry is walked depth first from each request in turn. An artifact
//! enters the order once everything it depends on has, so the order lists
//! dependencies before dependents, and among unrelated artifacts the one
//! that is reached first comes first.

use crate::artifact::{
    names_dependency, satisfies, Artifact, ArtifactDependency, ArtifactView, DependencyView,
    Version, dependency_views,
};
use crate::error::InstallError;
use crate::registry::{distinct_names, holds_name, Registry};
use vstd::prelude::*;

verus! {

/// The artifacts of a list, each by its view.
pub open spec fn artifact_views(artifacts: Seq<Artifact>) -> Seq<ArtifactView> {
    Seq::new(artifacts.len(), |i: int| artifacts[i]@)
}

/// The strings of a list, each by its view.
pub open spec fn names_of(names: Seq<String>) -> Seq<Seq<char>> {
    Seq::new(names.len(), |i: int| names[i]@)
}

/// `plan[at]` is what the reference `d` asks for.
pub open spec fn answers(plan: Seq<ArtifactView>, at: int, d: DependencyView) -> bool {
    plan[at].name == d.name && satisfies(d.version, plan[at].version)
}

/// Among the first `upto` artifacts of `plan`, one is what `d` asks for.
pub open spec fn provided(plan: Seq<ArtifactView>, upto: int, d: DependencyView) -> bool {
    exists|q: int| 0 <= q < upto && q < plan.len() && #[trigger] answers(plan, q, d)
}

/// `a` is an entry of `reg`, at its own version or stamped with another.
pub open spec fn from_registry(reg: Seq<ArtifactView>, a: ArtifactView) -> bool {
    exists|k: int| 0 <= k < reg.len() && a == (ArtifactView { version: a.version, ..#[trigger] reg[k] })
}

/// The version that an entry is taken at for a reference: the one that the
/// reference asks for, or the entry's own where it asks for none.
pub open spec fn stamped_version(wanted: Option<Version>, own: Option<Version>) -> Option<Version> {
    if wanted is Some {
        wanted
    } else {
        own
    }
}

/// `d` is one of the requests or a dependency of an artifact of `plan`.
pub open spec fn asked(
    requested: Seq<DependencyView>,
    plan: Seq<ArtifactView>,
    d: DependencyView,
) -> bool {
    requested.contains(d) || exists|p: int, j: int|
        0 <= p < plan.len() && 0 <= j < plan[p].dependencies.len()
            && #[trigger] plan[p].dependencies[j] == d
}

/// `a` is the entry of `reg` that `d` names, at the version it is taken at
/// for `d`.
pub open spec fn resolved_as(reg: Seq<ArtifactView>, a: ArtifactView, d: DependencyView) -> bool {
    exists|k: int|
        0 <= k < reg.len() && (#[trigger] reg[k]).name == d.name && a == (ArtifactView {
            version: stamped_version(d.version, reg[k].version),
            ..reg[k]
        })
}

/// Some request, or some dependency of an artifact of `plan`, is what
/// `plan[p]` was resolved for.
pub open spec fn called_for(
    reg: Seq<ArtifactView>,
    requested: Seq<DependencyView>,
    plan: Seq<ArtifactView>,
    p: int,
) -> bool {
    exists|d: DependencyView| #[trigger] asked(requested, plan, d) && resolved_as(reg, plan[p], d)
}

/// The entry called `a` depends on the name `b`.
pub open spec fn depends_on(reg: Seq<ArtifactView>, a: Seq<char>, b: Seq<char>) -> bool {
    exists|k: int|
        0 <= k < reg.len() && (#[trigger] reg[k]).name == a && names_dependency(
            reg[k].dependencies,
            b,
        )
}

/// `names` leads from a request down the dependencies: a request carries
/// the first name, and the entry of each name depends on the next.
pub open spec fn is_chain(
    reg: Seq<ArtifactView>,
    requested: Seq<DependencyView>,
    names: Seq<Seq<char>>,
) -> bool {
    &&& names.len() > 0
    &&& exists|i: int| 0 <= i < requested.len() && (#[trigger] requested[i]).name == names[0]
    &&& forall|t: int|
        0 <= t < names.len() - 1 ==> #[trigger] depends_on(reg, names[t], names[t + 1])
}

/// The requests lead to `name`.
pub open spec fn reachable(
    reg: Seq<ArtifactView>,
    requested: Seq<DependencyView>,
    name: Seq<char>,
) -> bool {
    exists|names: Seq<Seq<char>>| #[trigger] is_chain(reg, requested, names) && names.last() == name
}

/// `d` is one of the requests, or a dependency of a registry entry that the
/// requests lead to.
pub open spec fn is_reference(
    reg: Seq<ArtifactView>,
    requested: Seq<DependencyView>,
    d: DependencyView,
) -> bool {
    requested.contains(d) || exists|k: int, j: int|
        0 <= k < reg.len() && 0 <= j < reg[k].dependencies.len() && reachable(
            reg,
            requested,
            reg[k].name,
        ) && #[trigger] reg[k].dependencies[j] == d
}

/// The requests lead to whatever a reference names.
pub proof fn lemma_reference_is_reachable(
    reg: Seq<ArtifactView>,
    requested: Seq<DependencyView>,
    d: DependencyView,
)
    requires
        is_reference(reg, requested, d),
    ensures
        reachable(reg, requested, d.name),
{
    if requested.contains(d) {
        let i = choose|i: int| 0 <= i < requested.len() && requested[i] == d;
        let names = seq![d.name];
        assert(requested[i].name == names[0]);
        assert(is_chain(reg, requested, names));
        assert(names.last() == d.name);
    } else {
        let (k, j) = choose|k: int, j: int|
            0 <= k < reg.len() && 0 <= j < reg[k].dependencies.len() && reachable(
                reg,
                requested,
                reg[k].name,
            ) && #[trigger] reg[k].dependencies[j] == d;
        let above = choose|names: Seq<Seq<char>>|
            #[trigger] is_chain(reg, requested, names) && names.last() == reg[k].name;
        let names = above.push(d.name);
        assert(names[0] == above[0]);
        assert forall|t: int| 0 <= t < names.len() - 1 implies #[trigger] depends_on(
            reg,
            names[t],
            names[t + 1],
        ) by {
            if t < above.len() - 1 {
                assert(depends_on(reg, above[t], above[t + 1]));
                assert(names[t] == above[t]);
                assert(names[t + 1] == above[t + 1]);
            } else {
                assert(names[t] == reg[k].name);
                assert(reg[k].dependencies[j].name == d.name);
                assert(names_dependency(reg[k].dependencies, d.name));
                assert(depends_on(reg, reg[k].name, d.name));
            }
        }
        assert(is_chain(reg, requested, names));
        assert(names.last() == d.name);
    }
}

/// The references `d1` and `d2` name one entry of `reg`, and `d1` asks for
/// another version than the entry is taken at for `d2`.
pub open spec fn at_odds(reg: Seq<ArtifactView>, d1: DependencyView, d2: DependencyView) -> bool {
    &&& d1.name == d2.name
    &&& d1.version is Some
    &&& exists|k: int|
        0 <= k < reg.len() && (#[trigger] reg[k]).name == d1.name && d1.version != stamped_version(
            d2.version,
            reg[k].version,
        )
}

/// The names `members` form a circle in `reg`: each depends on the next and
/// the last on the first.
pub open spec fn is_cycle(reg: Seq<ArtifactView>, members: Seq<Seq<char>>) -> bool {
    &&& members.len() > 0
    &&& forall|t: int|
        0 <= t < members.len() - 1 ==> #[trigger] depends_on(reg, members[t], members[t + 1])
    &&& depends_on(reg, members.last(), members[0])
}

/// `plan` is an installation order for `requested` over `reg`: every
/// artifact comes from the registry, no name occurs twice, whatever an
/// artifact depends on stands before it at a version that meets the
/// reference, every request is met, and nothing is there that neither a
/// request nor an artifact of the order asks for.
pub open spec fn is_resolution(
    reg: Seq<ArtifactView>,
    requested: Seq<DependencyView>,
    plan: Seq<ArtifactView>,
) -> bool {
    &&& distinct_names(plan)
    &&& forall|p: int| 0 <= p < plan.len() ==> from_registry(reg, #[trigger] plan[p])
    &&& forall|p: int, j: int|
        0 <= p < plan.len() && 0 <= j < plan[p].dependencies.len() ==> #[trigger] provided(
            plan,
            p,
            plan[p].dependencies[j],
        )
    &&& forall|i: int|
        0 <= i < requested.len() ==> provided(plan, plan.len() as int, #[trigger] requested[i])
    &&& forall|p: int| 0 <= p < plan.len() ==> #[trigger] called_for(reg, requested, plan, p)
}

/// `error` is a reason to refuse `requested` over `reg`: a referenced name
/// that the registry lacks, an entry that two references name and want at
/// different versions, or a circle of dependencies that the requests lead
/// to.
pub open spec fn is_refusal(
    reg: Seq<ArtifactView>,
    requested: Seq<DependencyView>,
    error: InstallError,
) -> bool {
    match error {
        InstallError::UnknownArtifact { name } => {
            &&& !holds_name(reg, name@)
            &&& exists|d: DependencyView| #[trigger] is_reference(reg, requested, d) && d.name == name@
        },
        InstallError::VersionConflict { name } => {
            exists|d1: DependencyView, d2: DependencyView|
                #![trigger at_odds(reg, d1, d2)]
                is_reference(reg, requested, d1) && is_reference(reg, requested, d2) && d1.name
                    == name@ && at_odds(reg, d1, d2)
        },
        InstallError::CyclicDependency { members } => {
            &&& is_cycle(reg, names_of(members@))
            &&& reachable(reg, requested, names_of(members@)[0])
        },
        _ => false,
    }
}

/// How far the walk has come with a registry entry: not reached, reached
/// with its dependencies under way, or in the order.
#[derive(Clone, Copy, PartialEq, Eq, Structural)]
pub enum Mark {
    Unseen,
    Active,
    Done,
}

/// The state of a walk: a mark and the resolved version for each registry
/// entry, the places of the finished entries, in order, and the chain of
/// entries whose dependencies are under way.
pub struct Trail {
    pub marks: Seq<Mark>,
    pub versions: Seq<Option<Version>>,
    pub order: Seq<usize>,
    pub path: Seq<usize>,
}

/// Why a walk ends early.
pub enum Refusal {
    Unknown(Seq<char>),
    Conflict(Seq<char>),
    Cycle(Seq<Seq<char>>),
}

/// The refusal that an error of resolving stands for.
pub open spec fn refusal_view(error: InstallError) -> Option<Refusal> {
    match error {
        InstallError::UnknownArtifact { name } => Some(Refusal::Unknown(name@)),
        InstallError::VersionConflict { name } => Some(Refusal::Conflict(name@)),
        InstallError::CyclicDependency { members } => Some(Refusal::Cycle(names_of(members@))),
        _ => None,
    }
}

/// The place in `reg` of the entry called `name`, where there is one.
pub open spec fn index_of(reg: Seq<ArtifactView>, name: Seq<char>) -> int {
    choose|i: int| 0 <= i < reg.len() && (#[trigger] reg[i]).name == name
}

/// The first place from `from` on at which `path` holds `k`, or its length.
pub open spec fn first_at(path: Seq<usize>, k: int, from: int) -> int
    decreases path.len() - from,
{
    if from < 0 || from >= path.len() {
        path.len() as int
    } else if path[from] == k {
        from
    } else {
        first_at(path, k, from + 1)
    }
}

/// The names of the entries on `path` from the entry `k` on.
pub open spec fn cycle_names(reg: Seq<ArtifactView>, path: Seq<usize>, k: int) -> Seq<Seq<char>> {
    let p = first_at(path, k, 0);
    Seq::new((path.len() - p) as nat, |t: int| reg[path[p + t] as int].name)
}

/// The walk from the reference `d`. An unknown name, a finished entry at
/// another version than `d` asks for, and an entry that is under way each
/// end it. A finished entry that meets `d` changes nothing. An entry not
/// yet reached is taken at the version that `d` asks for, or at its own,
/// its dependencies are walked in their order, and then it enters the
/// order. `fuel` bounds the depth; the number of entries is enough.
pub open spec fn walk_from(
    reg: Seq<ArtifactView>,
    d: DependencyView,
    t: Trail,
    fuel: nat,
) -> Result<Trail, Refusal>
    decreases fuel, 0nat, 0nat,
{
    if !holds_name(reg, d.name) {
        Err(Refusal::Unknown(d.name))
    } else {
        let k = index_of(reg, d.name);
        match t.marks[k] {
            Mark::Done => if satisfies(d.version, t.versions[k]) {
                Ok(t)
            } else {
                Err(Refusal::Conflict(d.name))
            },
            Mark::Active => Err(Refusal::Cycle(cycle_names(reg, t.path, k))),
            Mark::Unseen => if fuel == 0 {
                Err(Refusal::Unknown(d.name))
            } else {
                let entered = Trail {
                    marks: t.marks.update(k, Mark::Active),
                    versions: t.versions.update(k, stamped_version(d.version, reg[k].version)),
                    order: t.order,
                    path: t.path.push(k as usize),
                };
                leave(k, walk_all(reg, reg[k].dependencies, 0, entered, (fuel - 1) as nat))
            },
        }
    }
}

/// The entry `k` enters the order, once the walk of its dependencies has
/// come to an end without a fault.
pub open spec fn leave(k: int, walked: Result<Trail, Refusal>) -> Result<Trail, Refusal> {
    match walked {
        Err(e) => Err(e),
        Ok(after) => Ok(
            Trail {
                marks: after.marks.update(k, Mark::Done),
                versions: after.versions,
                order: after.order.push(k as usize),
                path: after.path.drop_last(),
            },
        ),
    }
}

/// The walks from the references of `deps` from `from` on, one after the
/// other, up to the first that ends early.
pub open spec fn walk_all(
    reg: Seq<ArtifactView>,
    deps: Seq<DependencyView>,
    from: int,
    t: Trail,
    fuel: nat,
) -> Result<Trail, Refusal>
    decreases fuel, 1nat, deps.len() - from,
{
    if from < 0 || from >= deps.len() {
        Ok(t)
    } else {
        match walk_from(reg, deps[from], t, fuel) {
            Err(e) => Err(e),
            Ok(next) => walk_all(reg, deps, from + 1, next, fuel),
        }
    }
}

/// The walk that has reached nothing of `n` entries.
pub open spec fn fresh(n: nat) -> Trail {
    Trail {
        marks: Seq::new(n, |i: int| Mark::Unseen),
        versions: Seq::new(n, |i: int| None),
        order: Seq::empty(),
        path: Seq::empty(),
    }
}

/// The artifacts of a finished walk, in order: each entry at the version
/// it was resolved to.
pub open spec fn plan_of(reg: Seq<ArtifactView>, t: Trail) -> Seq<ArtifactView> {
    Seq::new(
        t.order.len(),
        |p: int|
            ArtifactView { version: t.versions[t.order[p] as int], ..reg[t.order[p] as int] },
    )
}

/// What resolving `requested` over `reg` gives: the requests are walked in
/// their order, so among unrelated artifacts the one reached first comes
/// first, and the first fault met is the one reported.
pub open spec fn resolution_of(
    reg: Seq<ArtifactView>,
    requested: Seq<DependencyView>,
) -> Result<Seq<ArtifactView>, Refusal> {
    match walk_all(reg, requested, 0, fresh(reg.len()), reg.len()) {
        Err(e) => Err(e),
        Ok(t) => Ok(plan_of(reg, t)),
    }
}

/// An outcome and the state it left are what the walk `expected` gives.
spec fn agrees(r: Result<(), InstallError>, t: Trail, expected: Result<Trail, Refusal>) -> bool {
    match r {
        Ok(_) => expected == Ok::<Trail, Refusal>(t),
        Err(e) => match expected {
            Err(x) => refusal_view(e) == Some(x),
            Ok(_) => false,
        },
    }
}

proof fn lemma_index_of(reg: Seq<ArtifactView>, name: Seq<char>, k: int)
    requires
        distinct_names(reg),
        0 <= k < reg.len(),
        reg[k].name == name,
    ensures
        holds_name(reg, name),
        index_of(reg, name) == k,
{
    let i = index_of(reg, name);
    if i < k {
        assert(reg[i].name != reg[k].name);
    } else if k < i {
        assert(reg[k].name != reg[i].name);
    }
}

proof fn lemma_count_bound(marks: Seq<Mark>)
    ensures
        count_unseen(marks) <= marks.len(),
    decreases marks.len(),
{
    if marks.len() > 0 {
        lemma_count_bound(marks.drop_last());
    }
}

/// The state of a walk: a mark and the resolved version for each registry
/// entry, the entries that are finished, in order, and the chain of entries
/// whose dependencies are being walked.
struct Walk {
    marks: Vec<Mark>,
    versions: Vec<Option<Version>>,
    order: Vec<usize>,
    path: Vec<usize>,
}

spec fn count_unseen(marks: Seq<Mark>) -> nat
    decreases marks.len(),
{
    if marks.len() == 0 {
        0
    } else {
        count_unseen(marks.drop_last()) + if marks.last() is Unseen {
            1nat
        } else {
            0nat
        }
    }
}

proof fn lemma_mark_seen(marks: Seq<Mark>, k: int, m: Mark)
    requires
        0 <= k < marks.len(),
        !(m is Unseen),
    ensures
        count_unseen(marks.update(k, m)) + (if marks[k] is Unseen {
            1nat
        } else {
            0nat
        }) == count_unseen(marks),
    decreases marks.len(),
{
    if k == marks.len() - 1 {
        assert(marks.update(k, m).drop_last() =~= marks.drop_last());
    } else {
        lemma_mark_seen(marks.drop_last(), k, m);
        assert(marks.update(k, m).drop_last() =~= marks.drop_last().update(k, m));
    }
}

spec fn settles(
    reg: Seq<ArtifactView>,
    order: Seq<usize>,
    versions: Seq<Option<Version>>,
    q: int,
    d: DependencyView,
) -> bool {
    reg[order[q] as int].name == d.name && satisfies(d.version, versions[order[q] as int])
}

spec fn placed(
    reg: Seq<ArtifactView>,
    order: Seq<usize>,
    versions: Seq<Option<Version>>,
    upto: int,
    d: DependencyView,
) -> bool {
    exists|q: int| 0 <= q < upto && q < order.len() && #[trigger] settles(reg, order, versions, q, d)
}

spec fn source(
    reg: Seq<ArtifactView>,
    requested: Seq<DependencyView>,
    marks: Seq<Mark>,
    d: DependencyView,
) -> bool {
    requested.contains(d) || exists|k: int, j: int|
        0 <= k < reg.len() && k < marks.len() && !(marks[k] is Unseen) && 0 <= j
            < reg[k].dependencies.len() && #[trigger] reg[k].dependencies[j] == d
}

spec fn wanted(
    reg: Seq<ArtifactView>,
    requested: Seq<DependencyView>,
    marks: Seq<Mark>,
    versions: Seq<Option<Version>>,
    k: int,
) -> bool {
    exists|d: DependencyView|
        #[trigger] source(reg, requested, marks, d) && d.name == reg[k].name && versions[k]
            == stamped_version(d.version, reg[k].version)
}

spec fn offered(reg: Seq<ArtifactView>, path: Seq<usize>, d: DependencyView) -> bool {
    path.len() > 0 && exists|j: int|
        0 <= j < reg[path.last() as int].dependencies.len()
            && #[trigger] reg[path.last() as int].dependencies[j] == d
}

proof fn lemma_wanted_stays(
    reg: Seq<ArtifactView>,
    requested: Seq<DependencyView>,
    m1: Seq<Mark>,
    v1: Seq<Option<Version>>,
    m2: Seq<Mark>,
    v2: Seq<Option<Version>>,
    k: int,
)
    requires
        wanted(reg, requested, m1, v1, k),
        m1.len() == m2.len(),
        forall|a: int| 0 <= a < m1.len() && !((#[trigger] m1[a]) is Unseen) ==> !(m2[a] is Unseen),
        v2[k] == v1[k],
    ensures
        wanted(reg, requested, m2, v2, k),
{
    let d = choose|d: DependencyView|
        #[trigger] source(reg, requested, m1, d) && d.name == reg[k].name && v1[k]
            == stamped_version(d.version, reg[k].version);
    if !requested.contains(d) {
        let (a, j) = choose|a: int, j: int|
            0 <= a < reg.len() && a < m1.len() && !(m1[a] is Unseen) && 0 <= j
                < reg[a].dependencies.len() && #[trigger] reg[a].dependencies[j] == d;
        assert(!(m2[a] is Unseen));
        assert(reg[a].dependencies[j] == d);
    }
    assert(source(reg, requested, m2, d));
}

spec fn on(s: Seq<usize>, k: int) -> bool {
    exists|i: int| 0 <= i < s.len() && (#[trigger] s[i]) == k
}

spec fn linked(reg: Seq<ArtifactView>, path: Seq<usize>, i: int) -> bool {
    names_dependency(reg[path[i] as int].dependencies, reg[path[i + 1] as int].name)
}

spec fn chained(reg: Seq<ArtifactView>, path: Seq<usize>) -> bool {
    forall|i: int| 0 <= i && i + 1 < path.len() ==> #[trigger] linked(reg, path, i)
}

proof fn lemma_placed_stays(
    reg: Seq<ArtifactView>,
    o1: Seq<usize>,
    v1: Seq<Option<Version>>,
    o2: Seq<usize>,
    v2: Seq<Option<Version>>,
    upto: int,
    d: DependencyView,
)
    requires
        placed(reg, o1, v1, upto, d),
        o1.len() <= o2.len(),
        forall|q: int|
            0 <= q < o1.len() ==> o2[q] == (#[trigger] o1[q]) && v2[o1[q] as int] == v1[o1[q] as int],
    ensures
        placed(reg, o2, v2, upto, d),
{
    let q = choose|q: int| 0 <= q < upto && q < o1.len() && #[trigger] settles(reg, o1, v1, q, d);
    assert(o2[q] == o1[q]);
    assert(settles(reg, o2, v2, q, d));
}

impl Walk {
    spec fn trail(&self) -> Trail {
        Trail {
            marks: self.marks@,
            versions: self.versions@,
            order: self.order@,
            path: self.path@,
        }
    }

    #[verifier::opaque]
    spec fn inv(&self, reg: Seq<ArtifactView>) -> bool {
        &&& self.marks@.len() == reg.len()
        &&& self.versions@.len() == reg.len()
        &&& forall|q: int|
            0 <= q < self.order@.len() ==> (#[trigger] self.order@[q]) < reg.len()
                && self.marks@[self.order@[q] as int] is Done
        &&& forall|k: int|
            0 <= k < reg.len() && (#[trigger] self.marks@[k]) is Done ==> on(self.order@, k)
        &&& forall|p: int, q: int|
            0 <= p < q < self.order@.len() ==> (#[trigger] self.order@[p]) != (
            #[trigger] self.order@[q])
        &&& forall|p: int, j: int|
            0 <= p < self.order@.len() && 0 <= j < reg[self.order@[p] as int].dependencies.len()
                ==> #[trigger] placed(
                reg,
                self.order@,
                self.versions@,
                p,
                reg[self.order@[p] as int].dependencies[j],
            )
        &&& forall|i: int|
            0 <= i < self.path@.len() ==> (#[trigger] self.path@[i]) < reg.len()
                && self.marks@[self.path@[i] as int] is Active
        &&& forall|k: int|
            0 <= k < reg.len() && (#[trigger] self.marks@[k]) is Active ==> on(self.path@, k)
        &&& chained(reg, self.path@)
    }

    /// Each finished entry was reached from a request or from an entry that
    /// the walk has seen, and has the version it was reached for.
    spec fn justified(&self, reg: Seq<ArtifactView>, requested: Seq<DependencyView>) -> bool {
        &&& forall|q: int|
            0 <= q < self.order@.len() ==> #[trigger] wanted(
                reg,
                requested,
                self.marks@,
                self.versions@,
                self.order@[q] as int,
            )
        &&& forall|a: int|
            0 <= a < reg.len() && a < self.marks@.len() && !((#[trigger] self.marks@[a]) is Unseen)
                ==> reachable(reg, requested, reg[a].name)
    }

    /// What a finished part of the walk leaves as it was.
    #[verifier::opaque]
    spec fn extends(&self, later: Walk) -> bool {
        &&& later.path@ == self.path@
        &&& self.order@.len() <= later.order@.len()
        &&& forall|q: int|
            0 <= q < self.order@.len() ==> later.order@[q] == #[trigger] self.order@[q]
        &&& forall|k: int|
            0 <= k < self.marks@.len() && !((#[trigger] self.marks@[k]) is Unseen) ==> {
                &&& later.versions@[k] == self.versions@[k]
                &&& later.marks@[k] == self.marks@[k]
            }
        &&& count_unseen(later.marks@) <= count_unseen(self.marks@)
    }
}

proof fn lemma_sizes(w: Walk, reg: Seq<ArtifactView>)
    requires
        w.inv(reg),
    ensures
        w.marks@.len() == reg.len(),
        w.versions@.len() == reg.len(),
        chained(reg, w.path@),
        forall|i: int| 0 <= i < w.path@.len() ==> (#[trigger] w.path@[i]) < reg.len(),
        forall|k: int| 0 <= k < reg.len() && (#[trigger] w.marks@[k]) is Active ==> on(w.path@, k),
        forall|k: int| 0 <= k < reg.len() && (#[trigger] w.marks@[k]) is Done ==> on(w.order@, k),
        forall|q: int| 0 <= q < w.order@.len() ==> (#[trigger] w.order@[q]) < reg.len(),
{
    reveal(Walk::inv);
}

proof fn lemma_extends_same(w: Walk)
    ensures
        w.extends(w),
{
    reveal(Walk::extends);
}

proof fn lemma_extends_on(a: Walk, b: Walk, c: Walk, reg: Seq<ArtifactView>)
    requires
        a.inv(reg),
        b.inv(reg),
        a.extends(b),
        b.extends(c),
    ensures
        a.extends(c),
        c.path@ == b.path@,
        count_unseen(c.marks@) <= count_unseen(b.marks@),
{
    reveal(Walk::inv);
    reveal(Walk::extends);
    assert forall|q: int| 0 <= q < a.order@.len() implies c.order@[q] == #[trigger] a.order@[q] by {
        assert(b.order@[q] == a.order@[q]);
    }
    assert forall|k: int| 0 <= k < a.marks@.len() && !((#[trigger] a.marks@[k]) is Unseen) implies {
        &&& c.versions@[k] == a.versions@[k]
        &&& c.marks@[k] == a.marks@[k]
    } by {
        assert(b.marks@[k] == a.marks@[k]);
    }
}

proof fn lemma_placed_carries(reg: Seq<ArtifactView>, a: Walk, b: Walk, d: DependencyView)
    requires
        a.inv(reg),
        a.extends(b),
        placed(reg, a.order@, a.versions@, a.order@.len() as int, d),
    ensures
        placed(reg, b.order@, b.versions@, b.order@.len() as int, d),
{
    reveal(Walk::inv);
    reveal(Walk::extends);
    lemma_placed_stays(reg, a.order@, a.versions@, b.order@, b.versions@, a.order@.len() as int, d);
    lemma_placed_widens(reg, b.order@, b.versions@, a.order@.len() as int, b.order@.len() as int, d);
}

fn meets(wanted: Option<Version>, have: Option<Version>) -> (r: bool)
    ensures
        r == satisfies(wanted, have),
{
    match wanted {
        None => true,
        Some(w) => match have {
            None => false,
            Some(h) => w.major == h.major && w.minor == h.minor && w.patch == h.patch,
        },
    }
}

/// The names of the entries on `path` from the entry `k` on.
fn cycle_members(registry: &Registry, path: &Vec<usize>, k: usize) -> (members: Vec<String>)
    requires
        k < registry@.len(),
        on(path@, k as int),
        forall|i: int| 0 <= i < path@.len() ==> (#[trigger] path@[i]) < registry@.len(),
        chained(registry@, path@),
        path@.len() > 0 ==> names_dependency(
            registry@[path@.last() as int].dependencies,
            registry@[k as int].name,
        ),
    ensures
        is_cycle(registry@, names_of(members@)),
        names_of(members@)[0] == registry@[k as int].name,
        names_of(members@) == cycle_names(registry@, path@, k as int),
{
    let mut p: usize = 0;
    while p < path.len() && path[p] != k
        invariant
            p <= path.len(),
            forall|i: int| 0 <= i < p ==> (#[trigger] path@[i]) != k,
            first_at(path@, k as int, 0) == first_at(path@, k as int, p as int),
        decreases path.len() - p,
    {
        p += 1;
    }
    assert(first_at(path@, k as int, 0) == p);
    let mut members: Vec<String> = Vec::new();
    let mut i: usize = p;
    while i < path.len()
        invariant
            p <= i <= path.len(),
            members@.len() == i - p,
            forall|i: int| 0 <= i < path@.len() ==> (#[trigger] path@[i]) < registry@.len(),
            forall|t: int|
                0 <= t < i - p ==> (#[trigger] members@[t])@ == registry@[path@[p + t] as int].name,
        decreases path.len() - i,
    {
        members.push(registry.get(path[i]).name.clone());
        i += 1;
    }
    proof {
        let reg = registry@;
        let m = names_of(members@);
        assert(p < path@.len());
        assert forall|t: int| 0 <= t < m.len() implies m[t] == reg[path@[p + t] as int].name by {
            assert(m[t] == members@[t]@);
        }
        assert forall|t: int| 0 <= t < m.len() - 1 implies #[trigger] depends_on(
            reg,
            m[t],
            m[t + 1],
        ) by {
            let a = path@[p + t] as int;
            assert(path@[p + t + 1] < reg.len());
            assert(reg[a].name == m[t]);
            assert(linked(reg, path@, p + t));
            assert(names_dependency(reg[a].dependencies, m[t + 1]));
        }
        let z = path@.last() as int;
        assert(z == path@[p + (m.len() - 1)]);
        assert(reg[z].name == m.last());
        assert(m[0] == reg[k as int].name);
        assert(m =~= cycle_names(reg, path@, k as int));
    }
    members
}

proof fn lemma_enter(
    reg: Seq<ArtifactView>,
    requested: Seq<DependencyView>,
    w0: Walk,
    w1: Walk,
    k: usize,
    name: Seq<char>,
)
    requires
        w0.inv(reg),
        w0.justified(reg, requested),
        reachable(reg, requested, name),
        0 <= k < reg.len(),
        w0.marks@[k as int] is Unseen,
        reg[k as int].name == name,
        w0.path@.len() > 0 ==> names_dependency(reg[w0.path@.last() as int].dependencies, name),
        w1.marks@ == w0.marks@.update(k as int, Mark::Active),
        w1.versions@.len() == w0.versions@.len(),
        forall|a: int| 0 <= a < reg.len() && a != k ==> w1.versions@[a] == w0.versions@[a],
        w1.path@ == w0.path@.push(k),
        w1.order@ == w0.order@,
    ensures
        w1.inv(reg),
        w1.justified(reg, requested),
        w1.extends(w1),
        count_unseen(w1.marks@) < count_unseen(w0.marks@),
{
    reveal(Walk::inv);
    reveal(Walk::extends);
    lemma_mark_seen(w0.marks@, k as int, Mark::Active);
    assert forall|q: int| 0 <= q < w1.order@.len() implies #[trigger] wanted(
        reg,
        requested,
        w1.marks@,
        w1.versions@,
        w1.order@[q] as int,
    ) by {
        assert(w0.order@[q] != k);
        lemma_wanted_stays(
            reg,
            requested,
            w0.marks@,
            w0.versions@,
            w1.marks@,
            w1.versions@,
            w0.order@[q] as int,
        );
    }
    assert forall|p: int, j: int|
        0 <= p < w1.order@.len() && 0 <= j < reg[w1.order@[p] as int].dependencies.len()
        implies #[trigger] placed(
        reg,
        w1.order@,
        w1.versions@,
        p,
        reg[w1.order@[p] as int].dependencies[j],
    ) by {
        lemma_placed_stays(
            reg,
            w0.order@,
            w0.versions@,
            w1.order@,
            w1.versions@,
            p,
            reg[w0.order@[p] as int].dependencies[j],
        );
    }
    assert forall|a: int| 0 <= a < reg.len() && (#[trigger] w1.marks@[a]) is Active implies on(
        w1.path@,
        a,
    ) by {
        if a == k {
            assert(w1.path@[w0.path@.len() as int] == k);
        } else {
            assert(w0.marks@[a] is Active);
            let i = choose|i: int| 0 <= i < w0.path@.len() && (#[trigger] w0.path@[i]) == a;
            assert(w1.path@[i] == a);
        }
    }
    assert forall|i: int| 0 <= i && i + 1 < w1.path@.len() implies #[trigger] linked(
        reg,
        w1.path@,
        i,
    ) by {
        if i + 1 < w0.path@.len() {
            assert(linked(reg, w0.path@, i));
        }
    }
}

proof fn lemma_leave(
    reg: Seq<ArtifactView>,
    requested: Seq<DependencyView>,
    w0: Walk,
    w1: Walk,
    w2: Walk,
    w3: Walk,
    k: usize,
    dep: DependencyView,
)
    requires
        w0.inv(reg),
        w1.inv(reg),
        w2.inv(reg),
        w2.justified(reg, requested),
        requested.contains(dep) || offered(reg, w0.path@, dep),
        w1.versions@[k as int] == stamped_version(dep.version, reg[k as int].version),
        w1.extends(w2),
        0 <= k < reg.len(),
        w0.marks@[k as int] is Unseen,
        reg[k as int].name == dep.name,
        satisfies(dep.version, w1.versions@[k as int]),
        w1.marks@ == w0.marks@.update(k as int, Mark::Active),
        forall|a: int| 0 <= a < reg.len() && a != k ==> w1.versions@[a] == w0.versions@[a],
        w1.path@ == w0.path@.push(k),
        w1.order@ == w0.order@,
        forall|t: int|
            0 <= t < reg[k as int].dependencies.len() ==> #[trigger] placed(
                reg,
                w2.order@,
                w2.versions@,
                w2.order@.len() as int,
                reg[k as int].dependencies[t],
            ),
        w3.marks@ == w2.marks@.update(k as int, Mark::Done),
        w3.versions@ == w2.versions@,
        w3.path@ == w2.path@.drop_last(),
        w3.order@ == w2.order@.push(k),
    ensures
        w3.inv(reg),
        w3.justified(reg, requested),
        w0.extends(w3),
        placed(reg, w3.order@, w3.versions@, w3.order@.len() as int, dep),
{
    reveal(Walk::inv);
    reveal(Walk::extends);
    lemma_mark_seen(w0.marks@, k as int, Mark::Active);
    lemma_mark_seen(w2.marks@, k as int, Mark::Done);
    assert(w3.path@ =~= w0.path@);
    assert(w2.path@[w0.path@.len() as int] == k);
    assert(w2.marks@[k as int] is Active);
    let n = w2.order@.len() as int;
    assert(w3.order@[n] == k);
    assert forall|a: int| 0 <= a < reg.len() && (#[trigger] w3.marks@[a]) is Done implies on(
        w3.order@,
        a,
    ) by {
        if a == k {
            assert(w3.order@[n] == a);
        } else {
            assert(w2.marks@[a] is Done);
            let i = choose|i: int| 0 <= i < w2.order@.len() && (#[trigger] w2.order@[i]) == a;
            assert(w3.order@[i] == a);
        }
    }
    assert forall|a: int| 0 <= a < reg.len() && (#[trigger] w3.marks@[a]) is Active implies on(
        w3.path@,
        a,
    ) by {
        assert(w2.marks@[a] is Active);
        let i = choose|i: int| 0 <= i < w2.path@.len() && (#[trigger] w2.path@[i]) == a;
        assert(w3.path@[i] == a);
    }
    assert forall|p: int, t: int|
        0 <= p < w3.order@.len() && 0 <= t < reg[w3.order@[p] as int].dependencies.len()
        implies #[trigger] placed(
        reg,
        w3.order@,
        w3.versions@,
        p,
        reg[w3.order@[p] as int].dependencies[t],
    ) by {
        if p < n {
            assert(w3.order@[p] == w2.order@[p]);
        }
        lemma_placed_stays(
            reg,
            w2.order@,
            w2.versions@,
            w3.order@,
            w3.versions@,
            p,
            reg[w3.order@[p] as int].dependencies[t],
        );
    }
    assert forall|i: int| 0 <= i && i + 1 < w3.path@.len() implies #[trigger] linked(
        reg,
        w3.path@,
        i,
    ) by {
        assert(linked(reg, w2.path@, i));
    }
    assert forall|p: int, q: int| 0 <= p < q < w3.order@.len() implies (#[trigger] w3.order@[p]) != (
    #[trigger] w3.order@[q]) by {
        assert(w3.order@[p] == w2.order@[p]);
        if q < n {
            assert(w3.order@[q] == w2.order@[q]);
        }
    }
    assert(w3.inv(reg));
    assert(settles(reg, w3.order@, w3.versions@, n, dep));
    assert forall|a: int| 0 <= a < w0.marks@.len() && !((#[trigger] w0.marks@[a]) is Unseen) implies {
        &&& w3.versions@[a] == w0.versions@[a]
        &&& w3.marks@[a] == w0.marks@[a]
    } by {
        assert(w1.marks@[a] == w0.marks@[a]);
    }
    assert forall|q: int| 0 <= q < w0.order@.len() implies w3.order@[q] == #[trigger] w0.order@[q] by {
        assert(w2.order@[q] == w1.order@[q]);
    }
    assert forall|q: int| 0 <= q < w3.order@.len() implies #[trigger] wanted(
        reg,
        requested,
        w3.marks@,
        w3.versions@,
        w3.order@[q] as int,
    ) by {
        if q < n {
            assert(w3.order@[q] == w2.order@[q]);
            lemma_wanted_stays(
                reg,
                requested,
                w2.marks@,
                w2.versions@,
                w3.marks@,
                w3.versions@,
                w2.order@[q] as int,
            );
        } else {
            assert(w1.marks@[k as int] is Active);
            assert(w2.versions@[k as int] == w1.versions@[k as int]);
            if !requested.contains(dep) {
                let a = w0.path@.last() as int;
                assert(w0.path@[w0.path@.len() - 1] == a);
                assert(w0.marks@[a] is Active);
                assert(w3.marks@[a] == w0.marks@[a]);
                let j = choose|j: int|
                    0 <= j < reg[a].dependencies.len() && #[trigger] reg[a].dependencies[j] == dep;
                assert(reg[a].dependencies[j] == dep);
            }
            assert(source(reg, requested, w3.marks@, dep));
        }
    }
}

proof fn lemma_done(reg: Seq<ArtifactView>, w: Walk, k: int, dep: DependencyView)
    requires
        w.inv(reg),
        0 <= k < reg.len(),
        w.marks@[k] is Done,
        reg[k].name == dep.name,
        satisfies(dep.version, w.versions@[k]),
    ensures
        w.extends(w),
        placed(reg, w.order@, w.versions@, w.order@.len() as int, dep),
{
    reveal(Walk::inv);
    reveal(Walk::extends);
    let q = choose|q: int| 0 <= q < w.order@.len() && (#[trigger] w.order@[q]) == k;
    assert(settles(reg, w.order@, w.versions@, q, dep));
}

proof fn lemma_conflict(
    reg: Seq<ArtifactView>,
    requested: Seq<DependencyView>,
    w: Walk,
    k: int,
    dep: DependencyView,
)
    requires
        w.inv(reg),
        w.justified(reg, requested),
        0 <= k < reg.len(),
        w.marks@[k] is Done,
        reg[k].name == dep.name,
        is_reference(reg, requested, dep),
        !satisfies(dep.version, w.versions@[k]),
    ensures
        exists|d1: DependencyView, d2: DependencyView|
            #![trigger at_odds(reg, d1, d2)]
            is_reference(reg, requested, d1) && is_reference(reg, requested, d2) && d1.name
                == dep.name && at_odds(reg, d1, d2),
{
    reveal(Walk::inv);
    let q = choose|q: int| 0 <= q < w.order@.len() && (#[trigger] w.order@[q]) == k;
    assert(wanted(reg, requested, w.marks@, w.versions@, w.order@[q] as int));
    let d2 = choose|d: DependencyView|
        #[trigger] source(reg, requested, w.marks@, d) && d.name == reg[k].name && w.versions@[k]
            == stamped_version(d.version, reg[k].version);
    if !requested.contains(d2) {
        let (a, j) = choose|a: int, j: int|
            0 <= a < reg.len() && a < w.marks@.len() && !(w.marks@[a] is Unseen) && 0 <= j
                < reg[a].dependencies.len() && #[trigger] reg[a].dependencies[j] == d2;
        assert(reachable(reg, requested, reg[a].name));
        assert(reg[a].dependencies[j] == d2);
    }
    assert(is_reference(reg, requested, d2));
    assert(reg[k].name == dep.name);
    assert(at_odds(reg, dep, d2));
}

/// Walks from the reference `dep`: on success the entry it names, and
/// whatever that entry needs, is in the order.
fn visit(
    registry: &Registry,
    dep: &ArtifactDependency,
    w: &mut Walk,
    Ghost(requested): Ghost<Seq<DependencyView>>,
    Ghost(fuel): Ghost<nat>,
) -> (r: Result<(), InstallError>)
    requires
        registry.wf(),
        count_unseen(old(w).marks@) <= fuel,
        old(w).inv(registry@),
        old(w).justified(registry@, requested),
        requested.contains(dep@) || offered(registry@, old(w).path@, dep@),
        is_reference(registry@, requested, dep@),
        old(w).path@.len() > 0 ==> names_dependency(
            registry@[old(w).path@.last() as int].dependencies,
            dep@.name,
        ),
    ensures
        match r {
            Ok(_) => {
                &&& final(w).inv(registry@)
                &&& final(w).justified(registry@, requested)
                &&& old(w).extends(*final(w))
                &&& placed(
                    registry@,
                    final(w).order@,
                    final(w).versions@,
                    final(w).order@.len() as int,
                    dep@,
                )
            },
            Err(e) => is_refusal(registry@, requested, e),
        },
        agrees(r, final(w).trail(), walk_from(registry@, dep@, old(w).trail(), fuel)),
    decreases count_unseen(old(w).marks@),
{
    let ghost reg = registry@;
    let ghost w0 = *w;
    let k = match registry.find(&dep.name) {
        None => {
            return Err(InstallError::UnknownArtifact { name: dep.name.clone() });
        },
        Some(k) => k,
    };
    proof {
        lemma_sizes(w0, reg);
        lemma_reference_is_reachable(reg, requested, dep@);
        lemma_index_of(reg, dep@.name, k as int);
    }
    match w.marks[k] {
        Mark::Done => {
            if meets(dep.version, w.versions[k]) {
                proof {
                    lemma_done(reg, w0, k as int, dep@);
                }
                Ok(())
            } else {
                proof {
                    lemma_conflict(reg, requested, w0, k as int, dep@);
                }
                Err(InstallError::VersionConflict { name: dep.name.clone() })
            }
        },
        Mark::Active => {
            let members = cycle_members(registry, &w.path, k);
            Err(InstallError::CyclicDependency { members })
        },
        Mark::Unseen => {
            let entry = registry.get(k);
            let version = match dep.version {
                Some(v) => Some(v),
                None => entry.version,
            };
            w.marks.set(k, Mark::Active);
            w.versions.set(k, version);
            w.path.push(k);
            let ghost w1 = *w;
            proof {
                lemma_enter(reg, requested, w0, w1, k, dep@.name);
            }
            let mut j: usize = 0;
            while j < entry.dependencies.len()
                invariant
                    registry.wf(),
                    reg == registry@,
                    k < reg.len(),
                    entry@ == reg[k as int],
                    reachable(reg, requested, reg[k as int].name),
                    j <= entry.dependencies@.len(),
                    w.inv(reg),
                    w.justified(reg, requested),
                    w1.inv(reg),
                    w1.extends(*w),
                    w.path@ == w1.path@,
                    w1.path@.len() > 0,
                    w1.path@.last() == k,
                    count_unseen(w.marks@) < count_unseen(old(w).marks@),
                    count_unseen(old(w).marks@) <= fuel,
                    walk_from(reg, dep@, old(w).trail(), fuel) == leave(
                        k as int,
                        walk_all(reg, reg[k as int].dependencies, 0, w1.trail(), (fuel - 1) as nat),
                    ),
                    walk_all(reg, reg[k as int].dependencies, 0, w1.trail(), (fuel - 1) as nat)
                        == walk_all(
                        reg,
                        reg[k as int].dependencies,
                        j as int,
                        w.trail(),
                        (fuel - 1) as nat,
                    ),
                    forall|t: int|
                        0 <= t < j ==> #[trigger] placed(
                            reg,
                            w.order@,
                            w.versions@,
                            w.order@.len() as int,
                            entry@.dependencies[t],
                        ),
                decreases entry.dependencies@.len() - j,
            {
                let ghost before = *w;
                assert(entry@.dependencies[j as int] == entry.dependencies@[j as int]@);
                assert(reg[k as int].dependencies[j as int] == entry.dependencies@[j as int]@);
                assert(is_reference(reg, requested, entry.dependencies@[j as int]@));
                assert(offered(reg, w.path@, entry.dependencies@[j as int]@));
                assert(names_dependency(entry@.dependencies, entry.dependencies@[j as int]@.name));
                match visit(
                    registry,
                    &entry.dependencies[j],
                    w,
                    Ghost(requested),
                    Ghost((fuel - 1) as nat),
                ) {
                    Ok(_) => {},
                    Err(e) => {
                        return Err(e);
                    },
                }
                proof {
                    lemma_extends_on(w1, before, *w, reg);
                    assert forall|t: int| 0 <= t < j implies #[trigger] placed(
                        reg,
                        w.order@,
                        w.versions@,
                        w.order@.len() as int,
                        entry@.dependencies[t],
                    ) by {
                        lemma_placed_carries(reg, before, *w, entry@.dependencies[t]);
                    }
                }
                j += 1;
            }
            let ghost w2 = *w;
            proof {
                lemma_sizes(w2, reg);
            }
            w.marks.set(k, Mark::Done);
            w.path.pop();
            w.order.push(k);
            proof {
                lemma_leave(reg, requested, w0, w1, w2, *w, k, dep@);
            }
            Ok(())
        },
    }
}

proof fn lemma_placed_widens(
    reg: Seq<ArtifactView>,
    order: Seq<usize>,
    versions: Seq<Option<Version>>,
    upto: int,
    wider: int,
    d: DependencyView,
)
    requires
        placed(reg, order, versions, upto, d),
        upto <= wider,
    ensures
        placed(reg, order, versions, wider, d),
{
    let q = choose|q: int| 0 <= q < upto && q < order.len() && #[trigger] settles(reg, order, versions, q, d);
    assert(settles(reg, order, versions, q, d));
}


/// The walk that has seen nothing of a registry of `n` entries.
fn start(n: usize) -> (w: Walk)
    ensures
        w.path@.len() == 0,
        w.order@.len() == 0,
        w.marks@.len() == n,
        w.trail() == fresh(n as nat),
        forall|k: int| 0 <= k < n ==> (#[trigger] w.marks@[k]) is Unseen,
        forall|reg: Seq<ArtifactView>| reg.len() == n ==> #[trigger] w.inv(reg),
{
    let mut marks: Vec<Mark> = Vec::new();
    let mut versions: Vec<Option<Version>> = Vec::new();
    let mut i: usize = 0;
    while i < n
        invariant
            i <= n,
            marks@.len() == i,
            versions@.len() == i,
            forall|k: int| 0 <= k < i ==> (#[trigger] marks@[k]) is Unseen,
            forall|k: int| 0 <= k < i ==> (#[trigger] versions@[k]) is None,
        decreases n - i,
    {
        marks.push(Mark::Unseen);
        versions.push(None);
        i += 1;
    }
    let w = Walk { marks, versions, order: Vec::new(), path: Vec::new() };
    assert(w.marks@ =~= fresh(n as nat).marks);
    assert(w.versions@ =~= fresh(n as nat).versions);
    assert(w.order@ =~= fresh(n as nat).order);
    assert(w.path@ =~= fresh(n as nat).path);
    assert forall|reg: Seq<ArtifactView>| reg.len() == n implies #[trigger] w.inv(reg) by {
        reveal(Walk::inv);
    }
    w
}

/// What the plan holds at a place: the registry entry at the version it was
/// resolved to.
spec fn stamped(reg: Seq<ArtifactView>, w: Walk, p: int) -> ArtifactView {
    ArtifactView {
        version: w.versions@[w.order@[p] as int],
        ..reg[w.order@[p] as int]
    }
}

/// The finished entries as artifacts, in order.
fn assemble(registry: &Registry, w: &Walk) -> (plan: Vec<Artifact>)
    requires
        w.inv(registry@),
    ensures
        plan@.len() == w.order@.len(),
        forall|p: int|
            0 <= p < plan@.len() ==> (#[trigger] plan@[p])@ == stamped(registry@, *w, p),
{
    proof {
        lemma_sizes(*w, registry@);
    }
    let mut plan: Vec<Artifact> = Vec::new();
    let mut p: usize = 0;
    while p < w.order.len()
        invariant
            p <= w.order@.len(),
            plan@.len() == p,
            w.versions@.len() == registry@.len(),
            forall|q: int| 0 <= q < w.order@.len() ==> (#[trigger] w.order@[q]) < registry@.len(),
            forall|q: int| 0 <= q < p ==> (#[trigger] plan@[q])@ == stamped(registry@, *w, q),
        decreases w.order@.len() - p,
    {
        let k = w.order[p];
        let mut artifact = registry.get(k).clone();
        artifact.version = w.versions[k];
        plan.push(artifact);
        p += 1;
    }
    plan
}

proof fn lemma_plan(
    reg: Seq<ArtifactView>,
    requested: Seq<DependencyView>,
    w: Walk,
    plan: Seq<ArtifactView>,
)
    requires
        distinct_names(reg),
        w.inv(reg),
        w.justified(reg, requested),
        w.path@.len() == 0,
        plan.len() == w.order@.len(),
        forall|p: int| 0 <= p < plan.len() ==> #[trigger] plan[p] == stamped(reg, w, p),
        forall|i: int|
            0 <= i < requested.len() ==> #[trigger] placed(
                reg,
                w.order@,
                w.versions@,
                w.order@.len() as int,
                requested[i],
            ),
    ensures
        is_resolution(reg, requested, plan),
{
    reveal(Walk::inv);
    assert forall|p: int, q: int| 0 <= p < q < plan.len() implies (#[trigger] plan[p]).name != (
    #[trigger] plan[q]).name by {
        let a = w.order@[p] as int;
        let b = w.order@[q] as int;
        assert(a != b);
        assert(plan[p].name == reg[a].name);
        assert(plan[q].name == reg[b].name);
        if a < b {
            assert(reg[a].name != reg[b].name);
        } else {
            assert(reg[b].name != reg[a].name);
        }
    }
    assert forall|p: int| 0 <= p < plan.len() implies from_registry(reg, #[trigger] plan[p]) by {
        let k = w.order@[p] as int;
        assert(plan[p] == (ArtifactView { version: plan[p].version, ..reg[k] }));
    }
    assert forall|p: int, j: int|
        0 <= p < plan.len() && 0 <= j < plan[p].dependencies.len() implies #[trigger] provided(
        plan,
        p,
        plan[p].dependencies[j],
    ) by {
        let d = plan[p].dependencies[j];
        assert(d == reg[w.order@[p] as int].dependencies[j]);
        assert(placed(reg, w.order@, w.versions@, p, d));
        lemma_placed_provided(reg, w, plan, p, d);
    }
    assert forall|i: int| 0 <= i < requested.len() implies provided(
        plan,
        plan.len() as int,
        #[trigger] requested[i],
    ) by {
        assert(placed(reg, w.order@, w.versions@, w.order@.len() as int, requested[i]));
        lemma_placed_provided(reg, w, plan, plan.len() as int, requested[i]);
    }
    assert forall|p: int| 0 <= p < plan.len() implies #[trigger] called_for(
        reg,
        requested,
        plan,
        p,
    ) by {
        let k = w.order@[p] as int;
        assert(wanted(reg, requested, w.marks@, w.versions@, k));
        let d = choose|d: DependencyView|
            #[trigger] source(reg, requested, w.marks@, d) && d.name == reg[k].name
                && w.versions@[k] == stamped_version(d.version, reg[k].version);
        if !requested.contains(d) {
            let (a, j) = choose|a: int, j: int|
                0 <= a < reg.len() && a < w.marks@.len() && !(w.marks@[a] is Unseen) && 0 <= j
                    < reg[a].dependencies.len() && #[trigger] reg[a].dependencies[j] == d;
            if w.marks@[a] is Active {
                assert(on(w.path@, a));
            }
            assert(w.marks@[a] is Done);
            let at = choose|at: int| 0 <= at < w.order@.len() && (#[trigger] w.order@[at]) == a;
            assert(plan[at] == stamped(reg, w, at));
            assert(plan[at].dependencies[j] == d);
        }
        assert(asked(requested, plan, d));
        assert(plan[p] == stamped(reg, w, p));
        assert(reg[k].name == d.name);
        assert(resolved_as(reg, plan[p], d));
    }
}

proof fn lemma_placed_provided(
    reg: Seq<ArtifactView>,
    w: Walk,
    plan: Seq<ArtifactView>,
    upto: int,
    d: DependencyView,
)
    requires
        plan.len() == w.order@.len(),
        forall|p: int| 0 <= p < plan.len() ==> #[trigger] plan[p] == stamped(reg, w, p),
        placed(reg, w.order@, w.versions@, upto, d),
    ensures
        provided(plan, upto, d),
{
    let q = choose|q: int|
        0 <= q < upto && q < w.order@.len() && #[trigger] settles(reg, w.order@, w.versions@, q, d);
    assert(plan[q] == stamped(reg, w, q));
    assert(answers(plan, q, d));
}

/// Resolves `requested` over `registry` into an installation order.
///
/// Each reference is looked up by name. The entry found is taken at the
/// version that the first reference to reach it asks for, or at its own
/// where that reference asks for none. On success the result is a
/// resolution of the requests. A reference to a name that the registry
/// lacks, one that asks for another version than the entry was resolved to,
/// and a circle of dependencies each end the walk with their error, and
/// nothing is returned.
pub fn resolve(registry: &Registry, requested: &Vec<ArtifactDependency>) -> (r: Result<
    Vec<Artifact>,
    InstallError,
>)
    requires
        registry.wf(),
    ensures
        match r {
            Ok(plan) => is_resolution(
                registry@,
                dependency_views(requested@),
                artifact_views(plan@),
            ),
            Err(e) => is_refusal(registry@, dependency_views(requested@), e),
        },
        match r {
            Ok(plan) => resolution_of(registry@, dependency_views(requested@)) == Ok::<
                Seq<ArtifactView>,
                Refusal,
            >(artifact_views(plan@)),
            Err(e) => match resolution_of(registry@, dependency_views(requested@)) {
                Err(x) => refusal_view(e) == Some(x),
                Ok(_) => false,
            },
        },
{
    let ghost reg = registry@;
    let ghost req = dependency_views(requested@);
    let mut w = start(registry.len());
    assert(w.inv(reg));
    proof {
        lemma_count_bound(w.marks@);
    }
    let mut i: usize = 0;
    while i < requested.len()
        invariant
            registry.wf(),
            reg == registry@,
            req == dependency_views(requested@),
            i <= requested@.len(),
            w.inv(reg),
            w.justified(reg, req),
            w.path@.len() == 0,
            count_unseen(w.marks@) <= reg.len(),
            walk_all(reg, req, 0, fresh(reg.len()), reg.len()) == walk_all(
                reg,
                req,
                i as int,
                w.trail(),
                reg.len(),
            ),
            forall|t: int|
                0 <= t < i ==> #[trigger] placed(
                    reg,
                    w.order@,
                    w.versions@,
                    w.order@.len() as int,
                    req[t],
                ),
        decreases requested@.len() - i,
    {
        let ghost before = w;
        assert(req[i as int] == requested@[i as int]@);
        assert(req.contains(req[i as int]));
        match visit(registry, &requested[i], &mut w, Ghost(req), Ghost(reg.len())) {
            Ok(_) => {},
            Err(e) => {
                return Err(e);
            },
        }
        proof {
            lemma_extends_same(before);
            lemma_extends_on(before, before, w, reg);
            assert forall|t: int| 0 <= t < i implies #[trigger] placed(
                reg,
                w.order@,
                w.versions@,
                w.order@.len() as int,
                req[t],
            ) by {
                lemma_placed_carries(reg, before, w, req[t]);
            }
        }
        i += 1;
    }
    let plan = assemble(registry, &w);
    proof {
        let views = artifact_views(plan@);
        assert forall|p: int| 0 <= p < views.len() implies #[trigger] views[p] == stamped(
            reg,
            w,
            p,
        ) by {
            assert(views[p] == plan@[p]@);
        }
        lemma_plan(reg, req, w, views);
        assert(views =~= plan_of(reg, w.trail()));
    }
    Ok(plan)
}

} // verus!
