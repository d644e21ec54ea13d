use artifact_installer::artifact::{Artifact, ArtifactDependency, Release, Version};
use artifact_installer::error::InstallError;
use artifact_installer::installer::{Action, Installer, Outcome};
use artifact_installer::manifest::{Manifest, ManifestEntry};
use artifact_installer::registry::Registry;

fn tool_and_lib() -> Registry {
    let mut registry = Registry::new();
    registry.register(
        Artifact::self_contained_script("tool".to_string(), "make tool".to_string())
            .with_dependency(ArtifactDependency::new("lib".to_string())),
    );
    registry.register(Artifact::bin_release(
        "lib".to_string(),
        Release::github_platform_release(
            "owner".to_string(),
            "repo".to_string(),
            "lib".to_string(),
            "linux".to_string(),
        ),
    ));
    registry
}

fn request() -> Vec<ArtifactDependency> {
    vec![ArtifactDependency::new("tool".to_string()), ArtifactDependency::new("lib".to_string())]
}

/// Runs every action as a success at the times `clock` gives, and returns
/// what was done, by name.
fn run(installer: &mut Installer, clock: &mut u64) -> Result<Vec<String>, InstallError> {
    let mut log = Vec::new();
    loop {
        let name = match installer.next()? {
            Action::Finished => return Ok(log),
            Action::Fetch { name, .. } => format!("fetch {}", name),
            Action::RunScript { name, .. } => format!("run {}", name),
        };
        log.push(name.clone());
        *clock += 10;
        installer.complete(Outcome::Succeeded { path: format!("/env/bin/{}", name), now: *clock })?;
    }
}

fn prepare(manifest: Manifest, registry: &Registry) -> Installer {
    match Installer::prepare(manifest, registry, &request()) {
        Ok(installer) => installer,
        Err((e, _)) => panic!("resolution failed: {:?}", e),
    }
}

#[test]
fn installs_lib_then_tool_and_then_nothing() {
    let registry = tool_and_lib();
    let mut clock = 100;
    let mut first = prepare(Manifest::new(), &registry);
    let log = run(&mut first, &mut clock).unwrap();
    assert_eq!(log, vec!["fetch lib".to_string(), "run tool".to_string()]);
    let manifest = first.manifest;
    assert_eq!(manifest.len(), 2);
    assert_eq!(manifest.get(0).name, "lib");
    assert_eq!(manifest.get(0).installed_at, 110);
    assert_eq!(manifest.get(0).path, "/env/bin/fetch lib");
    assert_eq!(manifest.get(1).name, "tool");
    assert_eq!(manifest.get(1).installed_at, 120);
    assert!(manifest.get(0).installed_at <= manifest.get(1).installed_at);

    let mut second = prepare(manifest, &registry);
    let log = run(&mut second, &mut clock).unwrap();
    assert!(log.is_empty());
    assert_eq!(clock, 120);
    assert_eq!(second.manifest.len(), 2);
    assert_eq!(second.manifest.get(0).name, "lib");
    assert_eq!(second.manifest.get(0).installed_at, 110);
    assert_eq!(second.manifest.get(1).name, "tool");
    assert_eq!(second.manifest.get(1).installed_at, 120);
}

#[test]
fn installed_artifacts_are_skipped() {
    let registry = tool_and_lib();
    let mut manifest = Manifest::new();
    assert!(manifest.record("lib".to_string(), None, "/env/bin/lib".to_string(), 7));
    let mut installer = prepare(manifest, &registry);
    let mut clock = 0;
    let log = run(&mut installer, &mut clock).unwrap();
    assert_eq!(log, vec!["run tool".to_string()]);
    assert_eq!(installer.manifest.len(), 2);
}

#[test]
fn cycle_leaves_the_manifest_as_it_was() {
    let mut registry = Registry::new();
    registry.register(
        Artifact::self_contained_script("A".to_string(), "a".to_string())
            .with_dependency(ArtifactDependency::new("B".to_string())),
    );
    registry.register(
        Artifact::self_contained_script("B".to_string(), "b".to_string())
            .with_dependency(ArtifactDependency::new("A".to_string())),
    );
    let mut manifest = Manifest::new();
    manifest.record("old".to_string(), None, "/env/bin/old".to_string(), 1);
    let requested = vec![ArtifactDependency::new("B".to_string())];
    match Installer::prepare(manifest, &registry, &requested) {
        Err((InstallError::CyclicDependency { members }, manifest)) => {
            assert_eq!(members, vec!["B".to_string(), "A".to_string()]);
            assert_eq!(manifest.len(), 1);
            assert_eq!(manifest.get(0).name, "old");
        },
        Err((e, _)) => panic!("expected CyclicDependency, got {:?}", e),
        Ok(_) => panic!("expected CyclicDependency, got a plan"),
    }
}

#[test]
fn conflict_installs_neither() {
    let registry = tool_and_lib();
    let requested = vec![
        ArtifactDependency::with_version("lib".to_string(), Version { major: 1, minor: 0, patch: 0 }),
        ArtifactDependency::with_version("lib".to_string(), Version { major: 2, minor: 0, patch: 0 }),
    ];
    match Installer::prepare(Manifest::new(), &registry, &requested) {
        Err((InstallError::VersionConflict { name }, manifest)) => {
            assert_eq!(name, "lib");
            assert_eq!(manifest.len(), 0);
        },
        Err((e, _)) => panic!("expected VersionConflict, got {:?}", e),
        Ok(_) => panic!("expected VersionConflict, got a plan"),
    }
}

#[test]
fn unsupported_artifact_stops_the_run() {
    let plan = vec![
        Artifact::self_contained_script("first".to_string(), "true".to_string()),
        Artifact::unsupported().with_name("nowhere".to_string()),
        Artifact::self_contained_script("last".to_string(), "true".to_string()),
    ];
    let mut installer = Installer::new(plan, Manifest::new());
    let mut clock = 0;
    match run(&mut installer, &mut clock) {
        Err(InstallError::UnsupportedPlatform { name }) => assert_eq!(name, "nowhere"),
        other => panic!("expected UnsupportedPlatform, got {:?}", other),
    }
    assert_eq!(installer.manifest.len(), 1);
    assert_eq!(installer.manifest.get(0).name, "first");
    assert_eq!(installer.cursor, 1);
    assert!(matches!(
        installer.complete(Outcome::Succeeded { path: "p".to_string(), now: 50 }),
        Err(InstallError::UnsupportedPlatform { .. })
    ));
    assert_eq!(installer.manifest.len(), 1);
}

#[test]
fn failed_actions_are_not_recorded() {
    let registry = tool_and_lib();
    let mut installer = prepare(Manifest::new(), &registry);
    assert!(matches!(installer.next(), Ok(Action::Fetch { .. })));
    match installer.complete(Outcome::Failed { cause: "not found".to_string() }) {
        Err(InstallError::FetchFailed { name, cause }) => {
            assert_eq!(name, "lib");
            assert_eq!(cause, "not found");
        },
        other => panic!("expected FetchFailed, got {:?}", other),
    }
    assert_eq!(installer.manifest.len(), 0);
    assert_eq!(installer.cursor, 0);

    assert!(matches!(installer.next(), Ok(Action::Fetch { .. })));
    installer.complete(Outcome::Succeeded { path: "/env/bin/lib".to_string(), now: 3 }).unwrap();
    match installer.next() {
        Ok(Action::RunScript { name, script, version }) => {
            assert_eq!(name, "tool");
            assert_eq!(script, "make tool");
            assert_eq!(version, None);
        },
        other => panic!("expected RunScript, got {:?}", other),
    }
    match installer.complete(Outcome::Failed { cause: "exit 1".to_string() }) {
        Err(InstallError::BuildFailed { name, cause }) => {
            assert_eq!(name, "tool");
            assert_eq!(cause, "exit 1");
        },
        other => panic!("expected BuildFailed, got {:?}", other),
    }
    assert_eq!(installer.manifest.len(), 1);
    assert_eq!(installer.manifest.get(0).name, "lib");
}

#[test]
fn complete_without_work_changes_nothing() {
    let mut installer = Installer::new(Vec::new(), Manifest::new());
    assert!(matches!(installer.next(), Ok(Action::Finished)));
    installer.complete(Outcome::Succeeded { path: "p".to_string(), now: 1 }).unwrap();
    assert_eq!(installer.manifest.len(), 0);
    assert_eq!(installer.cursor, 0);
}

#[test]
fn manifest_records_once_and_never_earlier() {
    let mut manifest = Manifest::new();
    assert_eq!(manifest.latest(), 0);
    let one = Version { major: 1, minor: 0, patch: 0 };
    assert!(manifest.record("a".to_string(), Some(one), "/a".to_string(), 10));
    assert!(!manifest.record("a".to_string(), Some(one), "/elsewhere".to_string(), 20));
    assert!(manifest.record("a".to_string(), None, "/a-latest".to_string(), 5));
    assert_eq!(manifest.len(), 2);
    assert_eq!(manifest.get(0).path, "/a");
    assert_eq!(manifest.get(0).installed_at, 10);
    assert_eq!(manifest.get(1).installed_at, 10);
    assert_eq!(manifest.latest(), 10);
    assert!(manifest.is_installed(&"a".to_string(), Some(one)));
    assert!(manifest.is_installed(&"a".to_string(), None));
    assert!(!manifest.is_installed(&"a".to_string(), Some(Version { major: 2, minor: 0, patch: 0 })));
    assert!(!manifest.is_installed(&"b".to_string(), None));
}

fn entry(name: &str, version: Option<Version>, at: u64) -> ManifestEntry {
    ManifestEntry {
        name: name.to_string(),
        version,
        path: format!("/env/bin/{}", name),
        installed_at: at,
    }
}

#[test]
fn load_takes_what_a_manifest_can_hold() {
    let one = Version { major: 1, minor: 0, patch: 0 };
    let manifest =
        Manifest::load(vec![entry("a", None, 3), entry("a", Some(one), 3), entry("b", None, 9)]).unwrap();
    assert_eq!(manifest.len(), 3);
    assert_eq!(manifest.get(1).name, "a");
    assert_eq!(manifest.get(1).version, Some(one));
    assert_eq!(manifest.get(2).path, "/env/bin/b");
    assert_eq!(manifest.latest(), 9);
    assert!(manifest.is_installed(&"b".to_string(), None));
    assert_eq!(Manifest::load(Vec::new()).unwrap().len(), 0);
}

#[test]
fn load_refuses_a_repeated_record() {
    assert!(Manifest::load(vec![entry("a", None, 1), entry("b", None, 2), entry("a", None, 3)]).is_none());
}

#[test]
fn load_refuses_records_out_of_time_order() {
    assert!(Manifest::load(vec![entry("a", None, 5), entry("b", None, 4)]).is_none());
}

#[test]
fn loaded_manifest_makes_the_run_idle() {
    let registry = tool_and_lib();
    let manifest = Manifest::load(vec![entry("lib", None, 1), entry("tool", None, 2)]).unwrap();
    let mut installer = prepare(manifest, &registry);
    assert!(matches!(installer.next(), Ok(Action::Finished)));
    assert_eq!(installer.cursor, 2);
    assert_eq!(installer.manifest.len(), 2);
}

#[test]
fn installed_version_mismatch_is_refused() {
    let registry = tool_and_lib();
    let one = Version { major: 1, minor: 0, patch: 0 };
    let two = Version { major: 2, minor: 0, patch: 0 };
    let manifest = Manifest::load(vec![entry("lib", Some(one), 4)]).unwrap();
    assert!(manifest.has_other_version(&"lib".to_string(), Some(two)));
    assert!(manifest.has_other_version(&"lib".to_string(), None));
    assert!(!manifest.has_other_version(&"lib".to_string(), Some(one)));
    assert!(!manifest.has_other_version(&"tool".to_string(), Some(two)));
    let requested = vec![ArtifactDependency::with_version("lib".to_string(), two)];
    match Installer::prepare(manifest, &registry, &requested) {
        Err((InstallError::VersionConflict { name }, manifest)) => {
            assert_eq!(name, "lib");
            assert_eq!(manifest.len(), 1);
            assert_eq!(manifest.get(0).version, Some(one));
            assert_eq!(manifest.get(0).installed_at, 4);
        },
        Err((e, _)) => panic!("expected VersionConflict, got {:?}", e),
        Ok(_) => panic!("expected VersionConflict, got a plan"),
    }
}

#[test]
fn mismatch_on_a_dependency_names_the_dependency() {
    let registry = tool_and_lib();
    let one = Version { major: 1, minor: 0, patch: 0 };
    let manifest = Manifest::load(vec![entry("lib", Some(one), 4)]).unwrap();
    let requested = vec![ArtifactDependency::new("tool".to_string())];
    match Installer::prepare(manifest, &registry, &requested) {
        Err((InstallError::VersionConflict { name }, manifest)) => {
            assert_eq!(name, "lib");
            assert_eq!(manifest.len(), 1);
        },
        Err((e, _)) => panic!("expected VersionConflict, got {:?}", e),
        Ok(_) => panic!("expected VersionConflict, got a plan"),
    }
}

#[test]
fn installed_at_the_requested_version_is_skipped() {
    let registry = tool_and_lib();
    let one = Version { major: 1, minor: 0, patch: 0 };
    let manifest = Manifest::load(vec![entry("lib", Some(one), 1)]).unwrap();
    let requested = vec![
        ArtifactDependency::with_version("lib".to_string(), one),
        ArtifactDependency::new("tool".to_string()),
    ];
    let mut installer = match Installer::prepare(manifest, &registry, &requested) {
        Ok(installer) => installer,
        Err((e, _)) => panic!("resolution failed: {:?}", e),
    };
    match installer.next() {
        Ok(Action::RunScript { name, version, script }) => {
            assert_eq!(name, "tool");
            assert_eq!(version, None);
            assert_eq!(script, "make tool");
        },
        other => panic!("expected RunScript, got {:?}", other),
    }
    installer.complete(Outcome::Succeeded { path: "/env/bin/tool".to_string(), now: 0 }).unwrap();
    assert_eq!(installer.manifest.len(), 2);
    assert_eq!(installer.manifest.get(1).name, "tool");
    assert_eq!(installer.manifest.get(1).installed_at, 1);
    assert!(matches!(installer.next(), Ok(Action::Finished)));
}
