//! The walk over an installation order.
//!
//! The installer decides; its caller acts. `next` says what is to be done
//! for the first artifact that the manifest does not record, the caller does
//! it, and `complete` takes the outcome: a success is recorded and the walk
//! moves on, a failure is reported and nothing is recorded.

use crate::artifact::{
    dependency_views, satisfies, Artifact, ArtifactDependency, ArtifactView, DependencyView,
    Release, ReleaseView, Strategy, StrategyView, Version,
};
use crate::error::InstallError;
use crate::manifest::{
    in_time_order, is_other_record, is_record, lemma_recorded_keeps, lemma_recorded_records,
    recorded, records, records_other, stamp, EntryView, Manifest,
};
use crate::registry::{distinct_names, Registry};
use crate::laws::lemma_resolutions_agree;
use crate::resolve::{
    answers, artifact_views, is_refusal, is_resolution, provided, refusal_view, resolution_of,
    resolve, Refusal,
};
use vstd::prelude::*;

verus! {

/// What the caller is to do next.
#[derive(Debug)]
pub enum Action {
    /// Fetch the platform's asset of `release` and place it among the
    /// binaries.
    Fetch { name: String, version: Option<Version>, release: Release },
    /// Run `script` with the environment directory's root at its disposal.
    RunScript { name: String, version: Option<Version>, script: String },
    /// Nothing is left to do.
    Finished,
}

pub enum ActionView {
    Fetch { name: Seq<char>, version: Option<Version>, release: ReleaseView },
    RunScript { name: Seq<char>, version: Option<Version>, script: Seq<char> },
    Finished,
}

impl View for Action {
    type V = ActionView;

    open spec fn view(&self) -> ActionView {
        match self {
            Action::Fetch { name, version, release } => ActionView::Fetch {
                name: name@,
                version: *version,
                release: release@,
            },
            Action::RunScript { name, version, script } => ActionView::RunScript {
                name: name@,
                version: *version,
                script: script@,
            },
            Action::Finished => ActionView::Finished,
        }
    }
}

/// How an action ended.
#[derive(Debug)]
pub enum Outcome {
    /// The artifact now lies at `path`; the clock read `now`.
    Succeeded { path: String, now: u64 },
    /// The fetch or the procedure failed.
    Failed { cause: String },
}

/// The first place from `from` on whose artifact `manifest` does not record,
/// or the length of `plan` where there is none.
pub open spec fn first_pending(plan: Seq<ArtifactView>, manifest: Seq<EntryView>, from: int) -> int
    decreases plan.len() - from,
{
    if from < 0 || from >= plan.len() {
        plan.len() as int
    } else if !records(manifest, plan[from].name, plan[from].version) {
        from
    } else {
        first_pending(plan, manifest, from + 1)
    }
}

/// Every artifact of `plan` before `upto` is recorded in `manifest`.
pub open spec fn installed_before(plan: Seq<ArtifactView>, manifest: Seq<EntryView>, upto: int) -> bool {
    forall|p: int|
        0 <= p < upto && p < plan.len() ==> records(
            manifest,
            (#[trigger] plan[p]).name,
            plan[p].version,
        )
}

/// No artifact of `plan` before `upto` is recorded in `manifest` at
/// another version than the plan has it at.
pub open spec fn fits_before(plan: Seq<ArtifactView>, manifest: Seq<EntryView>, upto: int) -> bool {
    forall|p: int|
        0 <= p < upto && p < plan.len() ==> !records_other(
            manifest,
            (#[trigger] plan[p]).name,
            plan[p].version,
        )
}

/// The first place from `from` on whose artifact `manifest` records at
/// another version, or the length of `plan` where there is none.
pub open spec fn first_clash(plan: Seq<ArtifactView>, manifest: Seq<EntryView>, from: int) -> int
    decreases plan.len() - from,
{
    if from < 0 || from >= plan.len() {
        plan.len() as int
    } else if records_other(manifest, plan[from].name, plan[from].version) {
        from
    } else {
        first_clash(plan, manifest, from + 1)
    }
}

/// What preparing to install `requested` into the directory that
/// `manifest` describes gives: the resolution of the requests, unless the
/// manifest records one of its artifacts at another version; then the
/// conflict on the first such artifact.
pub open spec fn preparation_of(
    reg: Seq<ArtifactView>,
    requested: Seq<DependencyView>,
    manifest: Seq<EntryView>,
) -> Result<Seq<ArtifactView>, Refusal> {
    match resolution_of(reg, requested) {
        Err(e) => Err(e),
        Ok(plan) => if first_clash(plan, manifest, 0) < plan.len() {
            Err(Refusal::Conflict(plan[first_clash(plan, manifest, 0)].name))
        } else {
            Ok(plan)
        },
    }
}

/// The requests resolve, and the resolution has the artifact called `name`
/// at another version than `manifest` records it at.
pub open spec fn is_stale(
    reg: Seq<ArtifactView>,
    requested: Seq<DependencyView>,
    manifest: Seq<EntryView>,
    name: Seq<char>,
) -> bool {
    exists|plan: Seq<ArtifactView>, p: int|
        #![trigger is_resolution(reg, requested, plan), plan[p]]
        is_resolution(reg, requested, plan) && 0 <= p < plan.len() && plan[p].name == name
            && records_other(manifest, name, plan[p].version)
}

/// `error` is a reason not to install `requested` into the directory that
/// `manifest` describes: a reason to refuse the requests themselves, or
/// the conflict between a resolved artifact and the other version of it
/// that is installed.
pub open spec fn is_rejection(
    reg: Seq<ArtifactView>,
    requested: Seq<DependencyView>,
    manifest: Seq<EntryView>,
    error: InstallError,
) -> bool {
    is_refusal(reg, requested, error) || match error {
        InstallError::VersionConflict { name } => is_stale(reg, requested, manifest, name@),
        _ => false,
    }
}

/// The action that installs `artifact`, where it has a strategy.
pub open spec fn action_for(artifact: ArtifactView) -> ActionView {
    match artifact.strategy {
        StrategyView::BinaryRelease(release) => ActionView::Fetch {
            name: artifact.name,
            version: artifact.version,
            release,
        },
        StrategyView::SelfContainedScript { script } => ActionView::RunScript {
            name: artifact.name,
            version: artifact.version,
            script,
        },
        StrategyView::Unsupported => ActionView::Finished,
    }
}

/// An installation under way: the order to install in, the place reached,
/// and the manifest as it stands.
pub struct Installer {
    pub plan: Vec<Artifact>,
    pub cursor: usize,
    pub manifest: Manifest,
}

impl Installer {
    /// The order to install in, by views.
    pub open spec fn plan_view(&self) -> Seq<ArtifactView> {
        artifact_views(self.plan@)
    }

    /// The manifest is well formed, and whatever stands before the place
    /// reached is recorded in it.
    pub open spec fn wf(&self) -> bool {
        &&& self.manifest.wf()
        &&& self.cursor <= self.plan@.len()
        &&& installed_before(self.plan_view(), self.manifest@, self.cursor as int)
    }

    /// An installation of `plan` into the directory that `manifest`
    /// describes, with nothing done yet.
    pub fn new(plan: Vec<Artifact>, manifest: Manifest) -> (r: Installer)
        requires
            manifest.wf(),
        ensures
            r.wf(),
            r.plan == plan,
            r.manifest == manifest,
            r.cursor == 0,
    {
        Installer { plan, cursor: 0, manifest }
    }

    /// Resolves `requested` over `registry` and sets out to install the
    /// result. Where the manifest records an artifact of the result at
    /// another version than it was resolved to, that is a
    /// `VersionConflict` which names the first such artifact: the installed
    /// one is neither taken as good nor joined by a second. Nothing is
    /// installed yet, and on an error the manifest is handed back as it was.
    pub fn prepare(manifest: Manifest, registry: &Registry, requested: &Vec<ArtifactDependency>) -> (r:
        Result<Installer, (InstallError, Manifest)>)
        requires
            manifest.wf(),
            registry.wf(),
        ensures
            match r {
                Ok(installer) => {
                    &&& installer.wf()
                    &&& installer.cursor == 0
                    &&& installer.manifest == manifest
                    &&& is_resolution(
                        registry@,
                        dependency_views(requested@),
                        installer.plan_view(),
                    )
                    &&& fits_before(
                        installer.plan_view(),
                        manifest@,
                        installer.plan_view().len() as int,
                    )
                },
                Err((e, m)) => m == manifest && is_rejection(
                    registry@,
                    dependency_views(requested@),
                    manifest@,
                    e,
                ),
            },
            match r {
                Ok(installer) => preparation_of(
                    registry@,
                    dependency_views(requested@),
                    manifest@,
                ) == Ok::<Seq<ArtifactView>, Refusal>(installer.plan_view()),
                Err((e, _)) => match preparation_of(
                    registry@,
                    dependency_views(requested@),
                    manifest@,
                ) {
                    Err(x) => refusal_view(e) == Some(x),
                    Ok(_) => false,
                },
            },
    {
        let plan = match resolve(registry, requested) {
            Ok(plan) => plan,
            Err(e) => {
                return Err((e, manifest));
            },
        };
        let ghost views = artifact_views(plan@);
        let mut p: usize = 0;
        while p < plan.len()
            invariant
                p <= plan@.len(),
                views == artifact_views(plan@),
                is_resolution(registry@, dependency_views(requested@), views),
                resolution_of(registry@, dependency_views(requested@)) == Ok::<
                    Seq<ArtifactView>,
                    Refusal,
                >(views),
                first_clash(views, manifest@, 0) == first_clash(views, manifest@, p as int),
                fits_before(views, manifest@, p as int),
            decreases plan@.len() - p,
        {
            assert(views[p as int] == plan@[p as int]@);
            if manifest.has_other_version(&plan[p].name, plan[p].version) {
                let name = plan[p].name.clone();
                assert(is_resolution(registry@, dependency_views(requested@), views) && views[p as int].name
                    == name@);
                assert(is_stale(registry@, dependency_views(requested@), manifest@, name@));
                return Err((InstallError::VersionConflict { name }, manifest));
            }
            p += 1;
        }
        Ok(Installer::new(plan, manifest))
    }

    /// Moves past what is installed already and says what is to be done
    /// for the first artifact that is not: the action that its strategy
    /// calls for, `Finished` where none is left, and the error
    /// `UnsupportedPlatform` with its name where it has no strategy. The
    /// manifest is not touched.
    pub fn next(&mut self) -> (r: Result<Action, InstallError>)
        requires
            old(self).wf(),
        ensures
            final(self).wf(),
            final(self).plan == old(self).plan,
            final(self).manifest == old(self).manifest,
            final(self).cursor == first_pending(
                old(self).plan_view(),
                old(self).manifest@,
                old(self).cursor as int,
            ),
            match r {
                Ok(action) => if final(self).cursor == final(self).plan@.len() {
                    action@ == ActionView::Finished
                } else {
                    &&& !(final(self).plan_view()[final(self).cursor as int].strategy is Unsupported)
                    &&& action@ == action_for(final(self).plan_view()[final(self).cursor as int])
                },
                Err(e) => {
                    &&& final(self).cursor < final(self).plan@.len()
                    &&& final(self).plan_view()[final(self).cursor as int].strategy is Unsupported
                    &&& match e {
                        InstallError::UnsupportedPlatform { name } => name@
                            == final(self).plan_view()[final(self).cursor as int].name,
                        _ => false,
                    }
                },
            },
    {
        let ghost start = self.cursor as int;
        let ghost plan = self.plan_view();
        let ghost manifest = self.manifest@;
        while self.cursor < self.plan.len() && self.manifest.is_installed(
            &self.plan[self.cursor].name,
            self.plan[self.cursor].version,
        )
            invariant
                self.wf(),
                self.plan == old(self).plan,
                self.manifest == old(self).manifest,
                plan == self.plan_view(),
                manifest == self.manifest@,
                start <= self.cursor,
                first_pending(plan, manifest, start) == first_pending(
                    plan,
                    manifest,
                    self.cursor as int,
                ),
            decreases self.plan@.len() - self.cursor,
        {
            assert(plan[self.cursor as int] == self.plan@[self.cursor as int]@);
            self.cursor += 1;
        }
        if self.cursor == self.plan.len() {
            return Ok(Action::Finished);
        }
        let artifact = &self.plan[self.cursor];
        assert(plan[self.cursor as int] == artifact@);
        match &artifact.strategy {
            Strategy::BinaryRelease(release) => Ok(
                Action::Fetch {
                    name: artifact.name.clone(),
                    version: artifact.version,
                    release: release.clone(),
                },
            ),
            Strategy::SelfContainedScript { script } => Ok(
                Action::RunScript {
                    name: artifact.name.clone(),
                    version: artifact.version,
                    script: script.clone(),
                },
            ),
            Strategy::Unsupported => Err(
                InstallError::UnsupportedPlatform { name: artifact.name.clone() },
            ),
        }
    }

    /// Takes the outcome of the action for the artifact at the place
    /// reached. A success is recorded in the manifest, at the path and time
    /// given, and the walk moves to the next place. A failure is returned as
    /// `FetchFailed` or `BuildFailed`, by the artifact's strategy, with its
    /// name and the cause; an artifact without a strategy gives
    /// `UnsupportedPlatform` whatever the outcome says. On an error nothing
    /// changes, and nothing changes where no artifact is left.
    pub fn complete(&mut self, outcome: Outcome) -> (r: Result<(), InstallError>)
        requires
            old(self).wf(),
        ensures
            final(self).wf(),
            final(self).plan == old(self).plan,
            old(self).cursor == old(self).plan@.len() ==> r is Ok && *final(self) == *old(self),
            old(self).cursor < old(self).plan@.len() ==> ({
                let artifact = old(self).plan_view()[old(self).cursor as int];
                match (artifact.strategy, outcome) {
                    (StrategyView::Unsupported, _) => {
                        &&& *final(self) == *old(self)
                        &&& match r {
                            Err(InstallError::UnsupportedPlatform { name }) => name@ == artifact.name,
                            _ => false,
                        }
                    },
                    (StrategyView::BinaryRelease(_), Outcome::Failed { cause }) => {
                        &&& *final(self) == *old(self)
                        &&& match r {
                            Err(InstallError::FetchFailed { name, cause: c }) => name@
                                == artifact.name && c@ == cause@,
                            _ => false,
                        }
                    },
                    (StrategyView::SelfContainedScript { .. }, Outcome::Failed { cause }) => {
                        &&& *final(self) == *old(self)
                        &&& match r {
                            Err(InstallError::BuildFailed { name, cause: c }) => name@
                                == artifact.name && c@ == cause@,
                            _ => false,
                        }
                    },
                    (_, Outcome::Succeeded { path, now }) => {
                        &&& r is Ok
                        &&& final(self).cursor == old(self).cursor + 1
                        &&& final(self).manifest@ == recorded(
                            old(self).manifest@,
                            artifact.name,
                            artifact.version,
                            path@,
                            now,
                        )
                    },
                }
            }),
    {
        if self.cursor == self.plan.len() {
            return Ok(());
        }
        let ghost plan = self.plan_view();
        let ghost before = self.manifest@;
        let artifact = &self.plan[self.cursor];
        assert(plan[self.cursor as int] == artifact@);
        match &artifact.strategy {
            Strategy::Unsupported => {
                return Err(InstallError::UnsupportedPlatform { name: artifact.name.clone() });
            },
            _ => {},
        }
        match outcome {
            Outcome::Failed { cause } => match &artifact.strategy {
                Strategy::BinaryRelease(_) => Err(
                    InstallError::FetchFailed { name: artifact.name.clone(), cause },
                ),
                _ => Err(InstallError::BuildFailed { name: artifact.name.clone(), cause }),
            },
            Outcome::Succeeded { path, now } => {
                let name = artifact.name.clone();
                let version = artifact.version;
                self.manifest.record(name, version, path, now);
                proof {
                    assert forall|p: int| 0 <= p < self.cursor + 1 && p < plan.len() implies records(
                        self.manifest@,
                        (#[trigger] plan[p]).name,
                        plan[p].version,
                    ) by {
                        if p < self.cursor {
                            lemma_recorded_keeps(
                                before,
                                name@,
                                version,
                                path@,
                                now,
                                plan[p].name,
                                plan[p].version,
                            );
                        } else {
                            lemma_recorded_records(before, name@, version, path@, now);
                        }
                    }
                }
                self.cursor += 1;
                Ok(())
            },
        }
    }
}

/// Once every artifact of an order is recorded, a walk over it from the
/// start finds nothing to do.
pub proof fn lemma_installed_plan_is_idle(plan: Seq<ArtifactView>, manifest: Seq<EntryView>, from: int)
    requires
        0 <= from <= plan.len(),
        installed_before(plan, manifest, plan.len() as int),
    ensures
        first_pending(plan, manifest, from) == plan.len(),
    decreases plan.len() - from,
{
    if from < plan.len() {
        assert(records(manifest, plan[from].name, plan[from].version));
        lemma_installed_plan_is_idle(plan, manifest, from + 1);
    }
}

/// The place that `first_pending` gives lies from `from` on, nothing
/// between the two is pending, and what stands there is not recorded.
pub proof fn lemma_first_pending(plan: Seq<ArtifactView>, manifest: Seq<EntryView>, from: int)
    requires
        0 <= from <= plan.len(),
    ensures
        from <= first_pending(plan, manifest, from) <= plan.len(),
        first_pending(plan, manifest, from) < plan.len() ==> !records(
            manifest,
            plan[first_pending(plan, manifest, from)].name,
            plan[first_pending(plan, manifest, from)].version,
        ),
        forall|p: int|
            from <= p < first_pending(plan, manifest, from) ==> records(
                manifest,
                (#[trigger] plan[p]).name,
                plan[p].version,
            ),
    decreases plan.len() - from,
{
    if from < plan.len() && records(manifest, plan[from].name, plan[from].version) {
        lemma_first_pending(plan, manifest, from + 1);
    }
}

/// When the artifact at `at` is recorded as installed at the time
/// `stamp(manifest, now)`, each of its dependencies is in the manifest
/// already, at a version that meets the reference and with a time that is
/// no later.
pub proof fn lemma_dependencies_are_recorded_earlier(
    reg: Seq<ArtifactView>,
    requested: Seq<DependencyView>,
    plan: Seq<ArtifactView>,
    manifest: Seq<EntryView>,
    at: int,
    j: int,
    now: u64,
) -> (i: int)
    requires
        is_resolution(reg, requested, plan),
        in_time_order(manifest),
        0 <= at < plan.len(),
        installed_before(plan, manifest, at),
        0 <= j < plan[at].dependencies.len(),
    ensures
        0 <= i < manifest.len(),
        manifest[i].name == plan[at].dependencies[j].name,
        satisfies(plan[at].dependencies[j].version, manifest[i].version),
        manifest[i].installed_at <= stamp(manifest, now),
{
    let d = plan[at].dependencies[j];
    assert(provided(plan, at, d));
    let q = choose|q: int| 0 <= q < at && q < plan.len() && #[trigger] answers(plan, q, d);
    assert(records(manifest, plan[q].name, plan[q].version));
    let i = choose|i: int|
        0 <= i < manifest.len() && #[trigger] is_record(manifest, i, plan[q].name, plan[q].version);
    if i < manifest.len() - 1 {
        assert(manifest[i].installed_at <= manifest[manifest.len() - 1].installed_at);
    }
    i
}

/// Whether the installed versions stand in the way does not depend on the
/// order resolved: where one resolution has an artifact that the manifest
/// records at another version, every resolution of the same requests has
/// it.
pub proof fn lemma_stale_in_every_resolution(
    reg: Seq<ArtifactView>,
    requested: Seq<DependencyView>,
    manifest: Seq<EntryView>,
    name: Seq<char>,
    plan: Seq<ArtifactView>,
)
    requires
        distinct_names(reg),
        is_stale(reg, requested, manifest, name),
        is_resolution(reg, requested, plan),
    ensures
        !fits_before(plan, manifest, plan.len() as int),
{
    let (other, p) = choose|other: Seq<ArtifactView>, p: int|
        #![trigger is_resolution(reg, requested, other), other[p]]
        is_resolution(reg, requested, other) && 0 <= p < other.len() && other[p].name == name
            && records_other(manifest, name, other[p].version);
    let q = lemma_resolutions_agree(reg, requested, other, plan, p);
    assert(records_other(manifest, plan[q].name, plan[q].version));
}

/// Installing the same requests twice does nothing the second time: once
/// every artifact of one resolution is recorded, a walk over any resolution
/// of the same requests finds nothing to do.
pub proof fn lemma_second_run_is_idle(
    reg: Seq<ArtifactView>,
    requested: Seq<DependencyView>,
    first: Seq<ArtifactView>,
    second: Seq<ArtifactView>,
    manifest: Seq<EntryView>,
)
    requires
        distinct_names(reg),
        is_resolution(reg, requested, first),
        is_resolution(reg, requested, second),
        installed_before(first, manifest, first.len() as int),
    ensures
        first_pending(second, manifest, 0) == second.len(),
{
    assert forall|p: int| 0 <= p < second.len() implies records(
        manifest,
        (#[trigger] second[p]).name,
        second[p].version,
    ) by {
        let q = lemma_resolutions_agree(reg, requested, second, first, p);
        assert(records(manifest, first[q].name, first[q].version));
    }
    lemma_installed_plan_is_idle(second, manifest, 0);
}

/// The record at `i` of `after` is a record of `before`, or records an
/// artifact of `plan` at the version the plan has it at.
pub open spec fn kept_or_planned(
    plan: Seq<ArtifactView>,
    before: Seq<EntryView>,
    after: Seq<EntryView>,
    i: int,
) -> bool {
    ||| exists|j: int| 0 <= j < before.len() && #[trigger] before[j] == after[i]
    ||| exists|p: int|
        0 <= p < plan.len() && (#[trigger] plan[p]).name == after[i].name && plan[p].version
            == after[i].version
}

/// `after` is `before` with nothing added but records of artifacts of
/// `plan`: what a walk over `plan` makes of the manifest it began with.
pub open spec fn grown_by(
    plan: Seq<ArtifactView>,
    before: Seq<EntryView>,
    after: Seq<EntryView>,
) -> bool {
    forall|i: int| 0 <= i < after.len() ==> #[trigger] kept_or_planned(plan, before, after, i)
}

/// A manifest is grown from itself, and what `complete` records for an
/// artifact of the plan keeps it grown from what the walk began with.
pub proof fn lemma_recording_grows(
    plan: Seq<ArtifactView>,
    begun: Seq<EntryView>,
    now_at: Seq<EntryView>,
    at: int,
    path: Seq<char>,
    now: u64,
)
    requires
        grown_by(plan, begun, now_at),
        0 <= at < plan.len(),
    ensures
        grown_by(plan, begun, begun),
        grown_by(plan, begun, recorded(now_at, plan[at].name, plan[at].version, path, now)),
{
    assert forall|i: int| 0 <= i < begun.len() implies #[trigger] kept_or_planned(
        plan,
        begun,
        begun,
        i,
    ) by {
        assert(begun[i] == begun[i]);
    }
    let next = recorded(now_at, plan[at].name, plan[at].version, path, now);
    assert forall|i: int| 0 <= i < next.len() implies #[trigger] kept_or_planned(
        plan,
        begun,
        next,
        i,
    ) by {
        if i < now_at.len() {
            assert(kept_or_planned(plan, begun, now_at, i));
            assert(next[i] == now_at[i]);
        } else {
            assert(plan[at].name == next[i].name && plan[at].version == next[i].version);
        }
    }
}

/// Where no artifact of `plan` is recorded at another version, no place
/// clashes.
pub proof fn lemma_fitting_plan_has_no_clash(
    plan: Seq<ArtifactView>,
    manifest: Seq<EntryView>,
    from: int,
)
    requires
        0 <= from <= plan.len(),
        fits_before(plan, manifest, plan.len() as int),
    ensures
        first_clash(plan, manifest, from) == plan.len(),
    decreases plan.len() - from,
{
    if from < plan.len() {
        assert(!records_other(manifest, plan[from].name, plan[from].version));
        lemma_fitting_plan_has_no_clash(plan, manifest, from + 1);
    }
}

/// Installing the same requests a second time succeeds and does nothing.
/// Where the first run was prepared on the manifest `before`, resolved to
/// `plan` and walked it to the end, leaving `after`, preparing the same
/// requests on `after` gives the same plan, and the walk over it finds
/// nothing to do.
pub proof fn lemma_second_run_is_accepted(
    reg: Seq<ArtifactView>,
    requested: Seq<DependencyView>,
    plan: Seq<ArtifactView>,
    before: Seq<EntryView>,
    after: Seq<EntryView>,
)
    requires
        preparation_of(reg, requested, before) == Ok::<Seq<ArtifactView>, Refusal>(plan),
        is_resolution(reg, requested, plan),
        fits_before(plan, before, plan.len() as int),
        grown_by(plan, before, after),
        installed_before(plan, after, plan.len() as int),
    ensures
        preparation_of(reg, requested, after) == Ok::<Seq<ArtifactView>, Refusal>(plan),
        first_pending(plan, after, 0) == plan.len(),
{
    assert forall|p: int| 0 <= p < plan.len() implies !records_other(
        after,
        (#[trigger] plan[p]).name,
        plan[p].version,
    ) by {
        if records_other(after, plan[p].name, plan[p].version) {
            let i = choose|i: int|
                0 <= i < after.len() && #[trigger] is_other_record(
                    after,
                    i,
                    plan[p].name,
                    plan[p].version,
                );
            assert(kept_or_planned(plan, before, after, i));
            if exists|j: int| 0 <= j < before.len() && #[trigger] before[j] == after[i] {
                let j = choose|j: int| 0 <= j < before.len() && #[trigger] before[j] == after[i];
                assert(is_other_record(before, j, plan[p].name, plan[p].version));
                assert(records_other(before, plan[p].name, plan[p].version));
            } else {
                let q = choose|q: int|
                    0 <= q < plan.len() && (#[trigger] plan[q]).name == after[i].name
                        && plan[q].version == after[i].version;
                if q < p {
                    assert(plan[q].name != plan[p].name);
                } else if p < q {
                    assert(plan[p].name != plan[q].name);
                }
            }
        }
    }
    lemma_fitting_plan_has_no_clash(plan, after, 0);
    lemma_installed_plan_is_idle(plan, after, 0);
}

} // verus!
