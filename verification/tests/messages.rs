use buffrs_resolver::error::{fmt_reqs, fmt_versions, DependencyError};
use buffrs_resolver::package::PackageName;
use buffrs_resolver::version::{Version, VersionReq};

fn reqs(texts: &[&str]) -> Vec<VersionReq> {
    texts.iter().map(|t| VersionReq::parse(t).unwrap()).collect()
}

#[test]
fn no_compatible_version_diagnostic_lists_requirements() {
    let err = DependencyError::NoCompatibleVersion {
        package: PackageName::unchecked("leaf-lib"),
        requirements: vec![
            VersionReq::parse("^1.1.0").unwrap(),
            VersionReq::parse("<=1.2.0").unwrap(),
        ],
        available_versions: vec![Version::new(1, 0, 0), Version::new(1, 5, 0)],
    };
    let msg = err.message();
    assert!(msg.contains("leaf-lib"), "msg: {msg}");
    assert!(msg.contains("1.0.0"), "msg: {msg}");
    assert!(msg.contains("1.5.0"), "msg: {msg}");
    assert!(msg.contains("^1.1.0"), "msg: {msg}");
    assert!(msg.contains("<=1.2.0"), "msg: {msg}");
}

#[test]
fn no_compatible_version_message_is_exact() {
    let err = DependencyError::NoCompatibleVersion {
        package: PackageName::unchecked("leaf-lib"),
        requirements: reqs(&["^1.0.0", "^2.0.0"]),
        available_versions: vec![Version::new(2, 0, 0), Version::new(1, 0, 0)],
    };
    assert_eq!(
        err.message(),
        "no version of leaf-lib satisfies all requirements: [^1.0.0, ^2.0.0]; \
         available versions: [2.0.0, 1.0.0]"
    );
}

#[test]
fn no_compatible_version_message_without_versions() {
    let err = DependencyError::NoCompatibleVersion {
        package: PackageName::unchecked("p"),
        requirements: vec![],
        available_versions: vec![],
    };
    assert_eq!(
        err.message(),
        "no version of p satisfies all requirements: []; available versions: [(none published)]"
    );
}

#[test]
fn conflict_message() {
    let err = DependencyError::LocalRemoteConflict { package: PackageName::unchecked("p") };
    assert_eq!(err.message(), "local/remote dependency conflict for package p");
}

#[test]
fn package_type_message() {
    let err = DependencyError::InvalidPackageTypeDependency {
        parent: PackageName::unchecked("a"),
        dependency: PackageName::unchecked("b"),
    };
    assert_eq!(
        err.message(),
        "package of type lib cannot depend on package of type api: a -> b"
    );
}

#[test]
fn cycle_message() {
    let err = DependencyError::CircularDependency("a -> b".to_string());
    assert_eq!(err.message(), "circular dependency detected: a -> b");
}

#[test]
fn offline_message() {
    let err = DependencyError::Offline {
        name: PackageName::unchecked("p"),
        requirements: reqs(&["^1.0.0", "<2.0.0"]),
    };
    assert_eq!(
        err.message(),
        "cannot fetch p in offline mode (required: [^1.0.0, <2.0.0])"
    );
}

#[test]
fn lists_are_printed_with_commas() {
    assert_eq!(fmt_reqs(&vec![]), "");
    assert_eq!(fmt_reqs(&reqs(&["=1.0.0"])), "=1.0.0");
    assert_eq!(fmt_reqs(&reqs(&["=1.0.0", "*", "~1.2"])), "=1.0.0, *, ~1.2");
    assert_eq!(fmt_versions(&vec![]), "(none published)");
    assert_eq!(fmt_versions(&vec![Version::new(0, 0, 1)]), "0.0.1");
    assert_eq!(
        fmt_versions(&vec![Version::new(0, 0, 1), Version::new(10, 20, 30)]),
        "0.0.1, 10.20.30"
    );
}
