# buffrs_resolver

Dependency resolution for protocol buffer packages, verified with Verus.

Given a manifest, the resolver gathers every requirement on every package, direct or transitive, and
settles each package on one version: the highest pinned version that meets all requirements on it,
or else the highest published one. A later requirement may lower an earlier pick; what only the
discarded version led to is dropped. A package for which no version fits is put off while another is
due, since the requirements on it may yet be retracted, and a requirement of a package that was
dropped causes no conflict. Of several conflicts the first is reported. Without the network nothing
is asked of a registry: a package that is not pinned, or whose pinned file is not in the cache, is
an error.

The packages of a finished graph meet every requirement of the root manifest and of each other. The
root manifest leads to each of them, no lib package depends on an api package, and they can be
installed in topological order; where they cannot, the error names packages on the way of a cycle.

Every resolution ends, packages and versions being limited in number. One that would go round in a
circle, because each version of a package rules out the version of another that led to it, fails
when it takes a package up again in a state in which it did so before.

The library looks nothing up. `DependencyGraph::begin` and the `Step` it returns say what is to be
looked up next (a manifest, the published versions, a cached file, a download), and take the answer;
`DependencyGraph::build` makes the graph of a complete resolution.

## Layout

- `src/version.rs`: versions and requirements, over the `semver` crate
- `src/pick.rs`, `src/lockfile.rs`: the choice of a version
- `src/package.rs`, `src/manifest.rs`, `src/error.rs`, `src/text.rs`: names, manifests, messages
- `src/graph.rs`, `src/cycles.rs`: the graph, topological orders and cycles
- `src/model.rs`: what the state of a resolution is, and what each operation makes of it
- `src/builder.rs` and `src/builder/`: the operations
- `src/resolver.rs`: the course of a resolution
- `src/laws.rs`, `src/soundness.rs`, `src/reachability.rs`, `src/kinds.rs`: what the operations keep,
  and what holds of every finished graph
- `src/choice.rs`, `src/conflicts.rs`: how picks fall, and what holds where no version fits
- `src/determinism.rs`: equal answers lead to equal graphs
- `src/progress.rs`, `src/termination.rs`: that a resolution ends, and after how many steps
- `src/lists.rs`, `src/finite.rs`: lists without duplicates, finite sets
- `app/`: registries, cache and file system around the library
