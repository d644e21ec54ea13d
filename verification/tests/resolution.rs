use artifact_installer::artifact::{Artifact, ArtifactDependency, Release, Strategy, Version};
use artifact_installer::error::InstallError;
use artifact_installer::registry::Registry;
use artifact_installer::resolve::resolve;

fn script(name: &str, deps: &[&str]) -> Artifact {
    Artifact::self_contained_script(name.to_string(), format!("echo {}", name))
        .with_dependencies(deps.iter().map(|d| ArtifactDependency::new(d.to_string())).collect())
}

fn binary(name: &str) -> Artifact {
    Artifact::bin_release(
        name.to_string(),
        Release::github_platform_release(
            "owner".to_string(),
            "repo".to_string(),
            name.to_string(),
            "".to_string(),
        ),
    )
}

fn registry_of(artifacts: Vec<Artifact>) -> Registry {
    let mut registry = Registry::new();
    for artifact in artifacts {
        assert!(registry.register(artifact));
    }
    registry
}

fn names(plan: &[Artifact]) -> Vec<String> {
    plan.iter().map(|a| a.name.clone()).collect()
}

fn v(major: u64) -> Version {
    Version { major, minor: 0, patch: 0 }
}

#[test]
fn dependency_is_ordered_before_dependent() {
    let registry = registry_of(vec![script("tool", &["lib"]), binary("lib")]);
    let requested =
        vec![ArtifactDependency::new("tool".to_string()), ArtifactDependency::new("lib".to_string())];
    let plan = resolve(&registry, &requested).unwrap();
    assert_eq!(names(&plan), vec!["lib".to_string(), "tool".to_string()]);
    assert!(matches!(plan[0].strategy, Strategy::BinaryRelease(_)));
    assert!(matches!(plan[1].strategy, Strategy::SelfContainedScript { .. }));
}

#[test]
fn transitive_dependencies_are_pulled_in_once() {
    let registry = registry_of(vec![
        script("app", &["mid", "base"]),
        script("mid", &["base"]),
        binary("base"),
        binary("unused"),
    ]);
    let requested = vec![ArtifactDependency::new("app".to_string())];
    let plan = resolve(&registry, &requested).unwrap();
    assert_eq!(names(&plan), vec!["base".to_string(), "mid".to_string(), "app".to_string()]);
}

#[test]
fn unrelated_artifacts_keep_the_order_of_the_requests() {
    let registry = registry_of(vec![binary("a"), binary("b"), binary("c")]);
    let requested = vec![
        ArtifactDependency::new("c".to_string()),
        ArtifactDependency::new("a".to_string()),
        ArtifactDependency::new("b".to_string()),
        ArtifactDependency::new("a".to_string()),
    ];
    let first = resolve(&registry, &requested).unwrap();
    let second = resolve(&registry, &requested).unwrap();
    assert_eq!(names(&first), vec!["c".to_string(), "a".to_string(), "b".to_string()]);
    assert_eq!(names(&first), names(&second));
}

#[test]
fn empty_request_resolves_to_nothing() {
    let registry = registry_of(vec![binary("a")]);
    let plan = resolve(&registry, &Vec::new()).unwrap();
    assert!(plan.is_empty());
}

#[test]
fn unknown_name_is_refused() {
    let registry = registry_of(vec![script("tool", &["missing"])]);
    let requested = vec![ArtifactDependency::new("tool".to_string())];
    match resolve(&registry, &requested) {
        Err(InstallError::UnknownArtifact { name }) => assert_eq!(name, "missing"),
        other => panic!("expected UnknownArtifact, got {:?}", other.map(|p| names(&p))),
    }
}

#[test]
fn mutual_dependency_is_refused() {
    let registry = registry_of(vec![script("A", &["B"]), script("B", &["A"])]);
    let requested = vec![ArtifactDependency::new("A".to_string())];
    match resolve(&registry, &requested) {
        Err(InstallError::CyclicDependency { members }) => {
            assert_eq!(members, vec!["A".to_string(), "B".to_string()])
        },
        other => panic!("expected CyclicDependency, got {:?}", other.map(|p| names(&p))),
    }
}

#[test]
fn self_dependency_is_refused() {
    let registry = registry_of(vec![script("A", &["A"])]);
    let requested = vec![ArtifactDependency::new("A".to_string())];
    match resolve(&registry, &requested) {
        Err(InstallError::CyclicDependency { members }) => assert_eq!(members, vec!["A".to_string()]),
        other => panic!("expected CyclicDependency, got {:?}", other.map(|p| names(&p))),
    }
}

#[test]
fn cycle_names_only_its_members() {
    let registry =
        registry_of(vec![script("top", &["x"]), script("x", &["y"]), script("y", &["z"]), script("z", &["x"])]);
    let requested = vec![ArtifactDependency::new("top".to_string())];
    match resolve(&registry, &requested) {
        Err(InstallError::CyclicDependency { members }) => {
            assert_eq!(members, vec!["x".to_string(), "y".to_string(), "z".to_string()])
        },
        other => panic!("expected CyclicDependency, got {:?}", other.map(|p| names(&p))),
    }
}

#[test]
fn two_versions_of_one_name_conflict() {
    let registry = registry_of(vec![binary("X")]);
    let requested = vec![
        ArtifactDependency::with_version("X".to_string(), v(1)),
        ArtifactDependency::with_version("X".to_string(), v(2)),
    ];
    match resolve(&registry, &requested) {
        Err(InstallError::VersionConflict { name }) => assert_eq!(name, "X"),
        other => panic!("expected VersionConflict, got {:?}", other.map(|p| names(&p))),
    }
}

#[test]
fn version_after_unversioned_resolution_conflicts() {
    let registry = registry_of(vec![binary("X")]);
    let requested = vec![
        ArtifactDependency::new("X".to_string()),
        ArtifactDependency::with_version("X".to_string(), v(2)),
    ];
    assert!(matches!(
        resolve(&registry, &requested),
        Err(InstallError::VersionConflict { .. })
    ));
}

#[test]
fn requested_version_is_stamped_on_the_artifact() {
    let registry = registry_of(vec![binary("X"), binary("Y").with_version(v(7))]);
    let requested = vec![
        ArtifactDependency::with_version("X".to_string(), v(3)),
        ArtifactDependency::new("X".to_string()),
        ArtifactDependency::with_version("X".to_string(), v(3)),
        ArtifactDependency::new("Y".to_string()),
    ];
    let plan = resolve(&registry, &requested).unwrap();
    assert_eq!(names(&plan), vec!["X".to_string(), "Y".to_string()]);
    assert_eq!(plan[0].version, Some(v(3)));
    assert_eq!(plan[1].version, Some(v(7)));
}

#[test]
fn registry_keeps_the_first_of_a_name() {
    let mut registry = Registry::new();
    assert!(registry.register(binary("a")));
    assert!(!registry.register(script("a", &[])));
    assert_eq!(registry.len(), 1);
    assert!(matches!(registry.get(0).strategy, Strategy::BinaryRelease(_)));
    assert_eq!(registry.find(&"a".to_string()), Some(0));
    assert_eq!(registry.find(&"b".to_string()), None);
}

#[test]
fn dependencies_are_a_set_by_name() {
    let artifact = Artifact::self_contained_script("t".to_string(), "true".to_string())
        .with_dependencies(vec![
            ArtifactDependency::new("a".to_string()),
            ArtifactDependency::with_version("b".to_string(), v(1)),
            ArtifactDependency::with_version("a".to_string(), v(2)),
        ])
        .with_dependency(ArtifactDependency::new("b".to_string()));
    assert_eq!(artifact.dependencies.len(), 2);
    assert_eq!(artifact.dependencies[0].name, "a");
    assert_eq!(artifact.dependencies[0].version, None);
    assert_eq!(artifact.dependencies[1].name, "b");
    assert_eq!(artifact.dependencies[1].version, Some(v(1)));
}

#[test]
fn clone_and_rename_keep_the_rest() {
    let artifact = script("t", &["a"]).with_version(v(4));
    let copy = artifact.clone().with_name("u".to_string());
    assert_eq!(copy.name, "u");
    assert_eq!(copy.version, Some(v(4)));
    assert_eq!(copy.dependencies.len(), 1);
    assert_eq!(copy.dependencies[0].name, "a");
    match (&artifact.strategy, &copy.strategy) {
        (Strategy::SelfContainedScript { script: a }, Strategy::SelfContainedScript { script: b }) => {
            assert_eq!(a, b)
        },
        _ => panic!("strategy changed"),
    }
}

#[test]
fn first_fault_met_is_the_one_reported() {
    let registry = registry_of(vec![script("a", &["missing"]), script("b", &["b"]), binary("X")]);
    let unknown_first = vec![
        ArtifactDependency::new("a".to_string()),
        ArtifactDependency::new("b".to_string()),
    ];
    assert!(matches!(
        resolve(&registry, &unknown_first),
        Err(InstallError::UnknownArtifact { .. })
    ));
    let cycle_first = vec![
        ArtifactDependency::new("b".to_string()),
        ArtifactDependency::new("a".to_string()),
    ];
    assert!(matches!(
        resolve(&registry, &cycle_first),
        Err(InstallError::CyclicDependency { .. })
    ));
    let versioned_first = vec![
        ArtifactDependency::with_version("X".to_string(), v(2)),
        ArtifactDependency::new("X".to_string()),
    ];
    let plan = resolve(&registry, &versioned_first).unwrap();
    assert_eq!(names(&plan), vec!["X".to_string()]);
    assert_eq!(plan[0].version, Some(v(2)));
}

#[test]
fn diamond_is_resolved_once_in_the_order_reached() {
    let registry = registry_of(vec![
        script("top", &["left", "right"]),
        script("left", &["base"]),
        script("right", &["base"]),
        binary("base"),
    ]);
    let requested = vec![ArtifactDependency::new("top".to_string())];
    let plan = resolve(&registry, &requested).unwrap();
    assert_eq!(
        names(&plan),
        vec!["base".to_string(), "left".to_string(), "right".to_string(), "top".to_string()]
    );
}
