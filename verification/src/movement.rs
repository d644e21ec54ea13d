//! The `movement` command-line tool as an artifact.

use crate::artifact::{
    names_dependency, Artifact, ArtifactDependency, ArtifactView, DependencyView, Platform,
    Release, ReleaseView, StrategyView, Version,
};
use vstd::prelude::*;

verus! {

/// The caller's choice between building from source and downloading.
#[derive(Debug, Clone)]
pub struct Config {
    pub build: bool,
}

/// Produces the artifact that describes `movement`.
#[derive(Debug, Clone)]
pub struct Constructor;

/// The procedure that builds `movement` from the checked-out sources.
pub open spec fn build_procedure() -> Seq<char> {
    "
            source \"$HOME/.cargo/env\"
            echo $MOVEMENT_DIR
            cd $MOVEMENT_DIR/src/m1-with-submodules/movement-sdk
            cargo build -p movement
            # for now use the debug build
            cp target/debug/movement $MOVEMENT_DIR/bin
            "@
}

/// `movement` as a prebuilt binary of the project's releases.
pub open spec fn download_view() -> ArtifactView {
    ArtifactView {
        name: "movement"@,
        version: None,
        strategy: StrategyView::BinaryRelease(
            ReleaseView {
                owner: "movemntdev"@,
                repository: "m1"@,
                product: "movement"@,
                qualifier: ""@,
            },
        ),
        dependencies: Seq::empty(),
    }
}

/// `movement` built from source, which needs `cargo` and the sources first.
pub open spec fn build_view() -> ArtifactView {
    ArtifactView {
        name: "movement"@,
        version: None,
        strategy: StrategyView::SelfContainedScript { script: build_procedure() },
        dependencies: seq![
            DependencyView { name: "cargo"@, version: None },
            DependencyView { name: "m1-with-submodules"@, version: None },
        ],
    }
}

/// Whether `movement` can be had on `platform`: everywhere but on Windows.
pub open spec fn supported(platform: Platform) -> bool {
    platform != Platform::Windows
}

/// What the constructor yields on `platform` when nothing is configured:
/// the download on Linux, the build on macOS, nothing on Windows.
pub open spec fn default_view(platform: Platform) -> ArtifactView {
    match platform {
        Platform::Linux => download_view(),
        Platform::MacOs => build_view(),
        Platform::Windows => ArtifactView {
            name: Seq::empty(),
            version: None,
            strategy: StrategyView::Unsupported,
            dependencies: Seq::empty(),
        },
    }
}

impl Constructor {
    pub fn download() -> (r: Artifact)
        ensures
            r@ == download_view(),
            r.wf(),
    {
        Artifact::bin_release(
            "movement".to_owned(),
            Release::github_platform_release(
                "movemntdev".to_owned(),
                "m1".to_owned(),
                "movement".to_owned(),
                "".to_owned(),
            ),
        )
    }

    pub fn build() -> (r: Artifact)
        ensures
            r@ == build_view(),
            r.wf(),
    {
        let script = "
            source \"$HOME/.cargo/env\"
            echo $MOVEMENT_DIR
            cd $MOVEMENT_DIR/src/m1-with-submodules/movement-sdk
            cargo build -p movement
            # for now use the debug build
            cp target/debug/movement $MOVEMENT_DIR/bin
            ".to_owned();
        proof {
            reveal_strlit("cargo");
            reveal_strlit("m1-with-submodules");
        }
        let cargo = ArtifactDependency::new("cargo".to_owned());
        let sources = ArtifactDependency::new("m1-with-submodules".to_owned());
        assert(cargo@.name.len() != sources@.name.len());
        let bare = Artifact::self_contained_script("movement".to_owned(), script);
        assert(!names_dependency(bare@.dependencies, cargo@.name));
        let first = bare.with_dependency(cargo);
        assert(first@.dependencies =~= seq![cargo@]);
        assert(!names_dependency(first@.dependencies, sources@.name));
        let r = first.with_dependency(sources);
        assert(r@.dependencies =~= build_view().dependencies);
        r
    }

    /// The artifact for `platform`. Its strategy is `Unsupported` exactly
    /// where the product is not supported.
    pub fn default(platform: Platform) -> (r: Artifact)
        ensures
            r@ == default_view(platform),
            r@.strategy is Unsupported <==> !supported(platform),
            r.wf(),
    {
        match platform {
            Platform::Linux => Self::download(),
            Platform::MacOs => Self::build(),
            Platform::Windows => Artifact::unsupported(),
        }
    }

    /// As `default`, stamped with `version`.
    pub fn default_with_version(platform: Platform, version: &Version) -> (r: Artifact)
        ensures
            r@ == (ArtifactView { version: Some(*version), ..default_view(platform) }),
            r@.strategy is Unsupported <==> !supported(platform),
            r.wf(),
    {
        Self::default(platform).with_version(*version)
    }

    /// The build where `config` asks for it, else the download, whatever the
    /// platform.
    pub fn from_config(config: &Config) -> (r: Artifact)
        ensures
            r@ == if config.build {
                build_view()
            } else {
                download_view()
            },
            !(r@.strategy is Unsupported),
            r.wf(),
    {
        if config.build {
            Self::build()
        } else {
            Self::download()
        }
    }
}

} // verus!
