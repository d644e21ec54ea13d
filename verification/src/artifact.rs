//! Artifacts, their acquisition strategies and the references between them.

use vstd::prelude::*;

verus! {

/// A concrete version of a product.
#[derive(Clone, Copy, Debug, PartialEq, Eq, Structural)]
pub struct Version {
    pub major: u64,
    pub minor: u64,
    pub patch: u64,
}

/// The platforms on which an installation can run.
#[derive(Clone, Copy, Debug, PartialEq, Eq, Structural)]
pub enum Platform {
    Linux,
    MacOs,
    Windows,
}

/// Where a prebuilt binary is found: the owner and repository of the release
/// source, the product, and the qualifier of the platform's asset.
#[derive(Debug)]
pub struct Release {
    pub owner: String,
    pub repository: String,
    pub product: String,
    pub qualifier: String,
}

/// How an artifact is materialised.
#[derive(Debug)]
pub enum Strategy {
    /// Fetch a prebuilt binary.
    BinaryRelease(Release),
    /// Run an embedded, self-sufficient procedure.
    SelfContainedScript { script: String },
    /// Nothing can provide the artifact on this platform.
    Unsupported,
}

/// A reference to an artifact by name, with an optional version constraint.
#[derive(Debug)]
pub struct ArtifactDependency {
    pub name: String,
    pub version: Option<Version>,
}

/// A description of how one named product is obtained and what it needs first.
#[derive(Debug)]
pub struct Artifact {
    pub name: String,
    pub version: Option<Version>,
    pub strategy: Strategy,
    pub dependencies: Vec<ArtifactDependency>,
}

pub struct ReleaseView {
    pub owner: Seq<char>,
    pub repository: Seq<char>,
    pub product: Seq<char>,
    pub qualifier: Seq<char>,
}

pub enum StrategyView {
    BinaryRelease(ReleaseView),
    SelfContainedScript { script: Seq<char> },
    Unsupported,
}

pub struct DependencyView {
    pub name: Seq<char>,
    pub version: Option<Version>,
}

pub struct ArtifactView {
    pub name: Seq<char>,
    pub version: Option<Version>,
    pub strategy: StrategyView,
    pub dependencies: Seq<DependencyView>,
}

impl View for Release {
    type V = ReleaseView;

    open spec fn view(&self) -> ReleaseView {
        ReleaseView {
            owner: self.owner@,
            repository: self.repository@,
            product: self.product@,
            qualifier: self.qualifier@,
        }
    }
}

impl View for Strategy {
    type V = StrategyView;

    open spec fn view(&self) -> StrategyView {
        match self {
            Strategy::BinaryRelease(release) => StrategyView::BinaryRelease(release@),
            Strategy::SelfContainedScript { script } => StrategyView::SelfContainedScript {
                script: script@,
            },
            Strategy::Unsupported => StrategyView::Unsupported,
        }
    }
}

impl View for ArtifactDependency {
    type V = DependencyView;

    open spec fn view(&self) -> DependencyView {
        DependencyView { name: self.name@, version: self.version }
    }
}

/// The references of a list, each by its view.
pub open spec fn dependency_views(deps: Seq<ArtifactDependency>) -> Seq<DependencyView> {
    Seq::new(deps.len(), |i: int| deps[i]@)
}

impl View for Artifact {
    type V = ArtifactView;

    open spec fn view(&self) -> ArtifactView {
        ArtifactView {
            name: self.name@,
            version: self.version,
            strategy: self.strategy@,
            dependencies: dependency_views(self.dependencies@),
        }
    }
}

/// Whether some reference of `deps` carries the name `name`.
pub open spec fn names_dependency(deps: Seq<DependencyView>, name: Seq<char>) -> bool {
    exists|i: int| 0 <= i < deps.len() && (#[trigger] deps[i]).name == name
}

/// No two references of `deps` carry the same name.
pub open spec fn distinct_dependencies(deps: Seq<DependencyView>) -> bool {
    forall|i: int, j: int|
        0 <= i < j < deps.len() ==> (#[trigger] deps[i]).name != (#[trigger] deps[j]).name
}

/// `deps` with `dep` added at the end, unless a reference of that name is
/// already there.
pub open spec fn with_dependency_added(
    deps: Seq<DependencyView>,
    dep: DependencyView,
) -> Seq<DependencyView> {
    if names_dependency(deps, dep.name) {
        deps
    } else {
        deps.push(dep)
    }
}

/// `deps` with each reference of `more` added in turn.
pub open spec fn with_dependencies_added(
    deps: Seq<DependencyView>,
    more: Seq<DependencyView>,
) -> Seq<DependencyView>
    decreases more.len(),
{
    if more.len() == 0 {
        deps
    } else {
        with_dependency_added(with_dependencies_added(deps, more.drop_last()), more.last())
    }
}

/// A version constraint `wanted` is met by an artifact at version `have`:
/// no constraint is met by any version, a stated one only by itself.
pub open spec fn satisfies(wanted: Option<Version>, have: Option<Version>) -> bool {
    wanted is None || wanted == have
}

impl Release {
    /// A release on a hosted source, for the asset named by `qualifier`.
    pub fn github_platform_release(
        owner: String,
        repository: String,
        product: String,
        qualifier: String,
    ) -> (r: Release)
        ensures
            r@ == (ReleaseView {
                owner: owner@,
                repository: repository@,
                product: product@,
                qualifier: qualifier@,
            }),
    {
        Release { owner, repository, product, qualifier }
    }

    pub fn clone(&self) -> (r: Release)
        ensures
            r@ == self@,
    {
        Release {
            owner: self.owner.clone(),
            repository: self.repository.clone(),
            product: self.product.clone(),
            qualifier: self.qualifier.clone(),
        }
    }
}

impl Strategy {
    pub fn clone(&self) -> (r: Strategy)
        ensures
            r@ == self@,
    {
        match self {
            Strategy::BinaryRelease(release) => Strategy::BinaryRelease(release.clone()),
            Strategy::SelfContainedScript { script } => Strategy::SelfContainedScript {
                script: script.clone(),
            },
            Strategy::Unsupported => Strategy::Unsupported,
        }
    }
}

impl ArtifactDependency {
    /// A reference to whatever version of `name` is resolved.
    pub fn new(name: String) -> (r: ArtifactDependency)
        ensures
            r@ == (DependencyView { name: name@, version: None }),
    {
        ArtifactDependency { name, version: None }
    }

    /// A reference to `name` at exactly `version`.
    pub fn with_version(name: String, version: Version) -> (r: ArtifactDependency)
        ensures
            r@ == (DependencyView { name: name@, version: Some(version) }),
    {
        ArtifactDependency { name, version: Some(version) }
    }

    pub fn clone(&self) -> (r: ArtifactDependency)
        ensures
            r@ == self@,
    {
        ArtifactDependency { name: self.name.clone(), version: self.version }
    }
}

/// Whether a reference of `deps` carries `name`.
pub fn has_dependency(deps: &Vec<ArtifactDependency>, name: &String) -> (r: bool)
    ensures
        r == names_dependency(dependency_views(deps@), name@),
{
    let mut i: usize = 0;
    while i < deps.len()
        invariant
            i <= deps.len(),
            forall|k: int| 0 <= k < i ==> (#[trigger] dependency_views(deps@)[k]).name != name@,
        decreases deps.len() - i,
    {
        if deps[i].name == *name {
            assert(dependency_views(deps@)[i as int].name == name@);
            return true;
        }
        i += 1;
    }
    false
}

/// A copy of a list of references.
pub fn clone_dependencies(deps: &Vec<ArtifactDependency>) -> (r: Vec<ArtifactDependency>)
    ensures
        dependency_views(r@) == dependency_views(deps@),
{
    let mut out: Vec<ArtifactDependency> = Vec::new();
    let mut i: usize = 0;
    while i < deps.len()
        invariant
            i <= deps.len(),
            out@.len() == i,
            forall|k: int| 0 <= k < i ==> (#[trigger] out@[k])@ == deps@[k]@,
        decreases deps.len() - i,
    {
        out.push(deps[i].clone());
        i += 1;
    }
    assert(dependency_views(out@) =~= dependency_views(deps@));
    out
}

impl Artifact {
    /// The dependencies are a set by name: no two references carry the
    /// same name.
    pub open spec fn wf(&self) -> bool {
        distinct_dependencies(self@.dependencies)
    }

    /// An artifact fetched as a prebuilt binary, with no version and no
    /// dependencies.
    pub fn bin_release(name: String, release: Release) -> (r: Artifact)
        ensures
            r@ == (ArtifactView {
                name: name@,
                version: None,
                strategy: StrategyView::BinaryRelease(release@),
                dependencies: Seq::empty(),
            }),
            r.wf(),
    {
        let r = Artifact {
            name,
            version: None,
            strategy: Strategy::BinaryRelease(release),
            dependencies: Vec::new(),
        };
        assert(r@.dependencies =~= Seq::empty());
        r
    }

    /// An artifact built by running `script`, with no version and no
    /// dependencies.
    pub fn self_contained_script(name: String, script: String) -> (r: Artifact)
        ensures
            r@ == (ArtifactView {
                name: name@,
                version: None,
                strategy: StrategyView::SelfContainedScript { script: script@ },
                dependencies: Seq::empty(),
            }),
            r.wf(),
    {
        let r = Artifact {
            name,
            version: None,
            strategy: Strategy::SelfContainedScript { script },
            dependencies: Vec::new(),
        };
        assert(r@.dependencies =~= Seq::empty());
        r
    }

    /// The artifact that nothing can provide: it has the empty name, and
    /// installing it fails.
    pub fn unsupported() -> (r: Artifact)
        ensures
            r@ == (ArtifactView {
                name: Seq::empty(),
                version: None,
                strategy: StrategyView::Unsupported,
                dependencies: Seq::empty(),
            }),
            r.wf(),
    {
        let r = Artifact {
            name: String::new(),
            version: None,
            strategy: Strategy::Unsupported,
            dependencies: Vec::new(),
        };
        assert(r@.dependencies =~= Seq::empty());
        r
    }

    /// The same artifact under another name.
    pub fn with_name(self, name: String) -> (r: Artifact)
        ensures
            r@ == (ArtifactView { name: name@, ..self@ }),
            self.wf() ==> r.wf(),
    {
        Artifact {
            name,
            version: self.version,
            strategy: self.strategy,
            dependencies: self.dependencies,
        }
    }

    /// The same artifact stamped with `version`.
    pub fn with_version(self, version: Version) -> (r: Artifact)
        ensures
            r@ == (ArtifactView { version: Some(version), ..self@ }),
            self.wf() ==> r.wf(),
    {
        Artifact {
            name: self.name,
            version: Some(version),
            strategy: self.strategy,
            dependencies: self.dependencies,
        }
    }

    /// Adds `dep` unless the artifact already depends on that name.
    pub fn with_dependency(self, dep: ArtifactDependency) -> (r: Artifact)
        ensures
            r@ == (ArtifactView {
                dependencies: with_dependency_added(self@.dependencies, dep@),
                ..self@
            }),
            self.wf() ==> r.wf(),
    {
        let mut deps = self.dependencies;
        let ghost before = dependency_views(deps@);
        if !has_dependency(&deps, &dep.name) {
            deps.push(dep);
            assert(dependency_views(deps@) =~= before.push(dep@));
        }
        Artifact { name: self.name, version: self.version, strategy: self.strategy, dependencies: deps }
    }

    /// Adds each reference of `deps` in turn; of several with one name the
    /// first stays.
    pub fn with_dependencies(self, deps: Vec<ArtifactDependency>) -> (r: Artifact)
        ensures
            r@ == (ArtifactView {
                dependencies: with_dependencies_added(
                    self@.dependencies,
                    dependency_views(deps@),
                ),
                ..self@
            }),
            self.wf() ==> r.wf(),
    {
        let ghost start = self@;
        let ghost more = dependency_views(deps@);
        let mut out = self;
        let mut i: usize = 0;
        while i < deps.len()
            invariant
                i <= deps.len(),
                more == dependency_views(deps@),
                out@ == (ArtifactView {
                    dependencies: with_dependencies_added(
                        start.dependencies,
                        more.subrange(0, i as int),
                    ),
                    ..start
                }),
                distinct_dependencies(start.dependencies) ==> distinct_dependencies(
                    out@.dependencies,
                ),
            decreases deps.len() - i,
        {
            proof {
                assert(more.subrange(0, i + 1).drop_last() =~= more.subrange(0, i as int));
                assert(more.subrange(0, i + 1).last() == deps@[i as int]@);
            }
            out = out.with_dependency(deps[i].clone());
            i += 1;
        }
        assert(more.subrange(0, i as int) =~= more);
        out
    }

    pub fn clone(&self) -> (r: Artifact)
        ensures
            r@ == self@,
            r.wf() == self.wf(),
    {
        Artifact {
            name: self.name.clone(),
            version: self.version,
            strategy: self.strategy.clone(),
            dependencies: clone_dependencies(&self.dependencies),
        }
    }
}

} // verus!
