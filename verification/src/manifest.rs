//! Manifests: what a package says of itself and of the packages it depends on.
use crate::package::{Name, PackageName, PackageType};
use crate::version::VersionReq;
use vstd::prelude::*;

verus! {

broadcast use crate::text::group_lists;

/// The address of a registry.
#[derive(Debug)]
pub struct RegistryUri {
    pub text: String,
}

impl View for RegistryUri {
    type V = Seq<char>;

    open spec fn view(&self) -> Seq<char> {
        self.text@
    }
}

impl Clone for RegistryUri {
    fn clone(&self) -> (r: Self)
        ensures
            r == *self,
    {
        RegistryUri { text: self.text.clone() }
    }
}

/// A dependency on a package in the file system.
#[derive(Debug)]
pub struct LocalDependencyManifest {
    /// The path of the package, relative to the package that depends on it
    pub path: String,
}

/// A dependency on a package in a registry.
#[derive(Debug)]
pub struct RemoteDependencyManifest {
    /// The registry
    pub registry: RegistryUri,
    /// The repository within the registry
    pub repository: String,
    /// The versions that will do
    pub version: VersionReq,
}

/// Where a dependency is to be had.
#[derive(Debug)]
pub enum DependencyManifest {
    /// In the file system
    Local(LocalDependencyManifest),
    /// In a registry
    Remote(RemoteDependencyManifest),
}

/// A dependency.
#[derive(Debug)]
pub struct Dependency {
    /// The package that is depended on
    pub package: PackageName,
    /// Where it is to be had
    pub manifest: DependencyManifest,
}

/// What a package says of itself.
#[derive(Debug)]
pub struct PackageManifest {
    /// What the package is for
    pub kind: PackageType,
    /// The name of the package
    pub name: PackageName,
}

/// The manifest of a package.
#[derive(Debug)]
pub struct PackagesManifest {
    /// What the package says of itself, if it is one
    pub package: Option<PackageManifest>,
    /// The dependencies of the package
    pub dependencies: Option<Vec<Dependency>>,
}

/// What a dependency's manifest says.
pub enum DependencyManifestView {
    Local { path: Seq<char> },
    Remote { registry: Seq<char>, repository: Seq<char>, version: Seq<char> },
}

/// What a dependency says.
pub struct DependencyView {
    pub package: Name,
    pub manifest: DependencyManifestView,
}

/// What a manifest says, as far as resolution goes.
pub struct ManifestView {
    pub package_type: Option<PackageType>,
    pub dependencies: Seq<DependencyView>,
}

impl ManifestView {
    /// The names of the packages that are depended on, as they are listed.
    pub open spec fn dependency_names(self) -> Seq<Name> {
        self.dependencies.map_values(|d: DependencyView| d.package)
    }
}

impl View for DependencyManifest {
    type V = DependencyManifestView;

    open spec fn view(&self) -> DependencyManifestView {
        match *self {
            DependencyManifest::Local(local) => DependencyManifestView::Local { path: local.path@ },
            DependencyManifest::Remote(remote) => DependencyManifestView::Remote {
                registry: remote.registry@,
                repository: remote.repository@,
                version: remote.version@,
            },
        }
    }
}

impl View for Dependency {
    type V = DependencyView;

    open spec fn view(&self) -> DependencyView {
        DependencyView { package: self.package@, manifest: self.manifest@ }
    }
}

impl View for PackagesManifest {
    type V = ManifestView;

    open spec fn view(&self) -> ManifestView {
        ManifestView {
            package_type: match self.package {
                Some(package) => Some(package.kind),
                None => None,
            },
            dependencies: match self.dependencies {
                Some(dependencies) => crate::text::views(dependencies@),
                None => seq![],
            },
        }
    }
}

impl PackagesManifest {
    /// The type of the package, if the manifest is that of one.
    pub fn package_type(&self) -> (r: Option<PackageType>)
        ensures
            r == self@.package_type,
    {
        match &self.package {
            Some(package) => Some(package.kind),
            None => None,
        }
    }

    /// The names of the packages that this one depends on, as they are listed.
    pub fn get_dependency_package_names(&self) -> (r: Vec<PackageName>)
        ensures
            crate::text::views(r@) == self@.dependency_names(),
    {
        let mut r: Vec<PackageName> = Vec::new();
        let ghost all = self@.dependency_names();
        match &self.dependencies {
            Some(dependencies) => {
                for i in 0..dependencies.len()
                    invariant
                        all.len() == dependencies@.len(),
                        forall|j: int|
                            0 <= j < all.len() ==> #[trigger] all[j] == dependencies@[j].package@,
                        crate::text::views(r@) =~= all.take(i as int),
                {
                    r.push(dependencies[i].package.clone());
                    assert(crate::text::views(r@) =~= all.take(i + 1));
                }
            },
            None => {},
        }
        assert(crate::text::views(r@) =~= all);
        r
    }
}

} // verus!
