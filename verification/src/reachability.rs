//! Why a graph holds nothing that the root manifest does not lead to.
use crate::graph::NodeView;
use crate::manifest::{DependencyView, ManifestView};
use crate::model::BuilderView;
use crate::package::Name;
use vstd::prelude::*;

verus! {

/// Whether `path` leads from a dependency of the root manifest to `name`, from each package to one
/// that it depends on.
pub open spec fn is_path(
    nodes: Map<Name, NodeView>,
    root: Seq<DependencyView>,
    path: Seq<Name>,
    name: Name,
) -> bool {
    &&& path.len() > 0
    &&& crate::model::names_of(root).contains(path.first())
    &&& path.last() == name
    &&& crate::cycles::is_walk(nodes, path)
}

/// The root manifest leads to every package that is required, and so to every package of the graph:
/// what nothing leads to any more was dropped.
pub proof fn law_every_package_is_reachable(
    b: BuilderView,
    root: Seq<DependencyView>,
    manifests: Map<Name, ManifestView>,
    name: Name,
)
    requires
        crate::soundness::is_justified(b, root, manifests),
        b.requirements.contains_key(name) || b.nodes.contains_key(name),
    ensures
        exists|path: Seq<Name>| is_path(b.nodes, root, path, name),
{
    reveal(crate::soundness::is_reachable);
    assert(b.requirements.contains_key(name));
    let path = choose|path: Seq<Name>| #[trigger]
        crate::model::is_chain(b, None, path) && path.last() == name;
    assert(crate::model::is_root(b, path[0]));
    assert forall|i: int| 0 <= i < path.len() - 1 implies crate::graph::depends(
        b.nodes,
        #[trigger] path[i],
        path[i + 1],
    ) by {
        assert(crate::model::leads(b, path[i], path[i + 1]));
    }
    assert(is_path(b.nodes, root, path, name));
}

} // verus!
