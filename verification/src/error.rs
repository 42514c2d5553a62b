//! Errors of dependency resolution.
use crate::package::{Name, PackageName};
use crate::version::{Version, VersionReq, VersionView};
use vstd::prelude::*;

verus! {

broadcast use crate::text::group_lists;

/// Errors that can occur during dependency resolution
#[derive(Debug)]
pub enum DependencyError {
    /// A local dependency conflicts with a remote dependency
    LocalRemoteConflict {
        /// The package that has the conflict
        package: PackageName,
    },
    /// A lib package cannot depend on an api package
    InvalidPackageTypeDependency {
        /// The parent lib package
        parent: PackageName,
        /// The api package being depended on
        dependency: PackageName,
    },
    /// A circular dependency was detected in the dependency graph
    CircularDependency(String),
    /// A network request was needed but offline mode is active
    Offline {
        /// Package name
        name: PackageName,
        /// Version requirements that could not be satisfied offline
        requirements: Vec<VersionReq>,
    },
    /// No single version satisfies the union of all requirements.
    NoCompatibleVersion {
        /// The package with conflicting requirements
        package: PackageName,
        /// The set of requirements that could not be jointly satisfied
        requirements: Vec<VersionReq>,
        /// All versions that were published for this package
        available_versions: Vec<Version>,
    },
}

/// What an error says.
pub enum ErrorView {
    LocalRemoteConflict { package: Name },
    InvalidPackageTypeDependency { parent: Name, dependency: Name },
    CircularDependency(Seq<char>),
    Offline { name: Name, requirements: Seq<Seq<char>> },
    NoCompatibleVersion {
        package: Name,
        requirements: Seq<Seq<char>>,
        available_versions: Seq<VersionView>,
    },
}

impl View for DependencyError {
    type V = ErrorView;

    open spec fn view(&self) -> ErrorView {
        match *self {
            DependencyError::LocalRemoteConflict { package } => ErrorView::LocalRemoteConflict {
                package: package@,
            },
            DependencyError::InvalidPackageTypeDependency { parent, dependency } =>
                ErrorView::InvalidPackageTypeDependency {
                parent: parent@,
                dependency: dependency@,
            },
            DependencyError::CircularDependency(names) => ErrorView::CircularDependency(names@),
            DependencyError::Offline { name, requirements } => ErrorView::Offline {
                name: name@,
                requirements: crate::text::views(requirements@),
            },
            DependencyError::NoCompatibleVersion { package, requirements, available_versions } =>
                ErrorView::NoCompatibleVersion {
                package: package@,
                requirements: crate::text::views(requirements@),
                available_versions: crate::text::views(available_versions@),
            },
        }
    }
}

/// A list of requirements as it is printed.
pub open spec fn reqs_text(reqs: Seq<Seq<char>>) -> Seq<char> {
    crate::text::joined(reqs, ", "@)
}

/// A list of versions as it is printed.
pub open spec fn versions_text(versions: Seq<VersionView>) -> Seq<char> {
    if versions.len() == 0 {
        "(none published)"@
    } else {
        crate::text::joined(
            versions.map_values(|v: VersionView| crate::version::version_text(v)),
            ", "@,
        )
    }
}

/// The message of an error.
pub open spec fn error_text(e: ErrorView) -> Seq<char> {
    match e {
        ErrorView::LocalRemoteConflict { package } =>
            "local/remote dependency conflict for package "@ + package,
        ErrorView::InvalidPackageTypeDependency { parent, dependency } =>
            "package of type lib cannot depend on package of type api: "@ + parent + " -> "@
            + dependency,
        ErrorView::CircularDependency(names) => "circular dependency detected: "@ + names,
        ErrorView::Offline { name, requirements } => "cannot fetch "@ + name
            + " in offline mode (required: ["@ + reqs_text(requirements) + "])"@,
        ErrorView::NoCompatibleVersion { package, requirements, available_versions } =>
            "no version of "@ + package + " satisfies all requirements: ["@ + reqs_text(
            requirements,
        ) + "]; available versions: ["@ + versions_text(available_versions) + "]"@,
    }
}

/// Prints a list of requirements.
pub fn fmt_reqs(reqs: &Vec<VersionReq>) -> (r: String)
    ensures
        r@ == reqs_text(crate::text::views(reqs@)),
{
    let mut parts: Vec<String> = Vec::new();
    let ghost all = crate::text::views(reqs@);
    for i in 0..reqs.len()
        invariant
            all == crate::text::views(reqs@),
            crate::text::views(parts@) =~= all.take(i as int),
    {
        parts.push(reqs[i].to_text());
        assert(crate::text::views(parts@) =~= all.take(i + 1));
    }
    assert(crate::text::views(parts@) =~= all);
    crate::text::join(&parts, ", ")
}

/// Prints a list of versions.
pub fn fmt_versions(versions: &Vec<Version>) -> (r: String)
    ensures
        r@ == versions_text(crate::text::views(versions@)),
{
    if versions.is_empty() {
        return "(none published)".to_string();
    }
    let mut parts: Vec<String> = Vec::new();
    let ghost all = crate::text::views(versions@).map_values(
        |v: VersionView| crate::version::version_text(v),
    );
    for i in 0..versions.len()
        invariant
            all == crate::text::views(versions@).map_values(
                |v: VersionView| crate::version::version_text(v),
            ),
            crate::text::views(parts@) =~= all.take(i as int),
    {
        parts.push(versions[i].to_text());
        assert(crate::text::views(parts@) =~= all.take(i + 1));
    }
    assert(crate::text::views(parts@) =~= all);
    crate::text::join(&parts, ", ")
}

impl DependencyError {
    /// The message of the error.
    pub fn message(&self) -> (r: String)
        ensures
            r@ == error_text(self@),
    {
        match self {
            DependencyError::LocalRemoteConflict { package } => {
                let text: String = "local/remote dependency conflict for package ".to_string();
                text.concat(package.as_str())
            },
            DependencyError::InvalidPackageTypeDependency { parent, dependency } => {
                let text: String =
                    "package of type lib cannot depend on package of type api: ".to_string();
                text.concat(parent.as_str()).concat(" -> ").concat(dependency.as_str())
            },
            DependencyError::CircularDependency(names) => {
                let text: String = "circular dependency detected: ".to_string();
                text.concat(names.as_str())
            },
            DependencyError::Offline { name, requirements } => {
                let text: String = "cannot fetch ".to_string();
                let text: String = text.concat(name.as_str());
                let text: String = text.concat(" in offline mode (required: [");
                text.concat(fmt_reqs(requirements).as_str()).concat("])")
            },
            DependencyError::NoCompatibleVersion { package, requirements, available_versions } => {
                let text: String = "no version of ".to_string();
                let text: String = text.concat(package.as_str());
                let text: String = text.concat(" satisfies all requirements: [");
                let text: String = text.concat(fmt_reqs(requirements).as_str());
                let text: String = text.concat("]; available versions: [");
                text.concat(fmt_versions(available_versions).as_str()).concat("]")
            },
        }
    }
}

} // verus!
