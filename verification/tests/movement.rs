use artifact_installer::artifact::{Artifact, Platform, Strategy, Version};
use artifact_installer::commands::{Cli, StartCommand, SubCommands};
use artifact_installer::movement::{Config, Constructor};

#[test]
fn download_names_the_release() {
    let artifact = Constructor::download();
    assert_eq!(artifact.name, "movement");
    assert_eq!(artifact.version, None);
    assert!(artifact.dependencies.is_empty());
    match artifact.strategy {
        Strategy::BinaryRelease(release) => {
            assert_eq!(release.owner, "movemntdev");
            assert_eq!(release.repository, "m1");
            assert_eq!(release.product, "movement");
            assert_eq!(release.qualifier, "");
        },
        other => panic!("expected a binary release, got {:?}", other),
    }
}

#[test]
fn build_needs_cargo_and_the_sources() {
    let artifact = Constructor::build();
    assert_eq!(artifact.name, "movement");
    let deps: Vec<&str> = artifact.dependencies.iter().map(|d| d.name.as_str()).collect();
    assert_eq!(deps, vec!["cargo", "m1-with-submodules"]);
    match artifact.strategy {
        Strategy::SelfContainedScript { script } => {
            assert!(script.contains("cargo build -p movement"));
            assert!(script.contains("cp target/debug/movement $MOVEMENT_DIR/bin"));
        },
        other => panic!("expected a script, got {:?}", other),
    }
}

#[test]
fn default_has_a_strategy_on_every_supported_platform() {
    assert!(matches!(Constructor::default(Platform::Linux).strategy, Strategy::BinaryRelease(_)));
    assert!(matches!(
        Constructor::default(Platform::MacOs).strategy,
        Strategy::SelfContainedScript { .. }
    ));
    assert!(matches!(Constructor::default(Platform::Windows).strategy, Strategy::Unsupported));
}

#[test]
fn default_with_version_stamps_the_version() {
    let version = Version { major: 1, minor: 2, patch: 3 };
    for platform in [Platform::Linux, Platform::MacOs, Platform::Windows] {
        let plain = Constructor::default(platform);
        let stamped = Constructor::default_with_version(platform, &version);
        assert_eq!(stamped.version, Some(version));
        assert_eq!(stamped.name, plain.name);
        assert_eq!(stamped.dependencies.len(), plain.dependencies.len());
    }
}

#[test]
fn from_config_overrides_the_platform() {
    assert!(matches!(
        Constructor::from_config(&Config { build: true }).strategy,
        Strategy::SelfContainedScript { .. }
    ));
    assert!(matches!(
        Constructor::from_config(&Config { build: false }).strategy,
        Strategy::BinaryRelease(_)
    ));
}

#[test]
fn unsupported_has_no_name() {
    let artifact = Artifact::unsupported();
    assert_eq!(artifact.name, "");
    assert!(matches!(artifact.strategy, Strategy::Unsupported));
}

#[test]
fn commands_hold_what_they_are_given() {
    let cli = Cli {
        command: SubCommands::Start(StartCommand {
            validators: 5,
            staggered: false,
            verbose: true,
            grpc_endpoint: None,
        }),
    };
    match cli.clone().command {
        SubCommands::Start(start) => {
            assert_eq!(start.validators, 5);
            assert!(!start.staggered);
            assert!(start.verbose);
            assert_eq!(start.grpc_endpoint, None);
        },
        other => panic!("expected start, got {:?}", other),
    }
}
