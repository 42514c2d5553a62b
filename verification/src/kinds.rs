//! Lib packages and api packages: no lib package of a graph depends on an api package.
use crate::error::ErrorView;
use crate::graph::NodeView;
use crate::manifest::{DependencyView, ManifestView};
use crate::model::BuilderView;
use crate::package::{Name, PackageType};
use vstd::prelude::*;

verus! {

/// Whether a package is an api package.
pub open spec fn is_api(nodes: Map<Name, NodeView>, name: Name) -> bool {
    nodes.contains_key(name) && nodes[name].package_type == Some(PackageType::Api)
}

/// Whether a package is an api package that a lib package, or a lib root (`None`), depends on.
pub open spec fn is_api_of_lib(b: BuilderView, parent: Option<Name>, name: Name) -> bool {
    is_api(b.nodes, name) && match parent {
        None => b.root_package_type == Some(PackageType::Lib) && crate::model::is_root(b, name),
        Some(p) => crate::graph::depends(b.nodes, p, name) && b.nodes[p].package_type == Some(
            PackageType::Lib,
        ),
    }
}

/// Whether `e` reports an api package that a lib package depends on. The root package goes by the
/// name `parent`.
pub open spec fn reports_api_of_lib(b: BuilderView, e: ErrorView) -> bool {
    exists|parent: Option<Name>, name: Name| #[trigger]
        is_api_of_lib(b, parent, name) && e == (ErrorView::InvalidPackageTypeDependency {
            parent: match parent {
                Some(p) => p,
                None => "parent"@,
            },
            dependency: name,
        })
}

/// Whether no lib package of a graph depends on an api package, and neither does the root package
/// if it is one.
pub open spec fn keeps_libs_off_apis(
    nodes: Map<Name, NodeView>,
    root_package_type: Option<PackageType>,
    root: Seq<DependencyView>,
) -> bool {
    &&& forall|n: Name, d: Name| #[trigger]
        crate::graph::depends(nodes, n, d) && nodes[n].package_type == Some(PackageType::Lib)
            ==> !is_api(nodes, d)
    &&& root_package_type == Some(PackageType::Lib) ==> forall|i: int|
        0 <= i < root.len() ==> !is_api(nodes, (#[trigger] root[i]).package)
}

/// Where there is no api package that a lib package depends on, none is a dependency of a lib root
/// either.
pub proof fn law_root_is_off_apis(
    b: BuilderView,
    root: Seq<DependencyView>,
    manifests: Map<Name, ManifestView>,
)
    requires
        crate::soundness::is_justified(b, root, manifests),
        forall|parent: Option<Name>, name: Name| !is_api_of_lib(b, parent, name),
    ensures
        keeps_libs_off_apis(b.nodes, b.root_package_type, root),
{
    assert forall|n: Name, d: Name| #[trigger]
        crate::graph::depends(b.nodes, n, d) && b.nodes[n].package_type == Some(
            PackageType::Lib,
        ) implies !is_api(b.nodes, d) by {
        assert(!is_api_of_lib(b, Some(n), d));
    }
    if b.root_package_type == Some(PackageType::Lib) {
        assert forall|i: int| 0 <= i < root.len() implies !is_api(
            b.nodes,
            (#[trigger] root[i]).package,
        ) by {
            let d = root[i].package;
            assert(crate::soundness::has_edge(b, None, root[i]));
            let edge = crate::model::EdgeView {
                from: None,
                req: crate::model::requirement_of(root[i]),
            };
            let k = b.requirements[d].index_of(edge);
            assert(b.requirements[d][k].from is None);
            assert(crate::model::is_root(b, d));
            assert(!is_api_of_lib(b, None, d));
        }
    }
}

} // verus!
