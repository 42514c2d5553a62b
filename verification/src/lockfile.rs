//! The lockfile: the versions that earlier resolutions settled on.
use crate::package::{Name, PackageName};
use crate::version::{Version, VersionReq, VersionView};
use vstd::prelude::*;

verus! {

broadcast use crate::text::group_lists;

/// The file of a package, as the lockfile records it.
#[derive(Debug)]
pub struct FileRequirement {
    /// The address the file was downloaded from
    pub url: String,
    /// The digest of the file
    pub digest: String,
}

/// What a file requirement says.
pub struct FileView {
    pub url: Seq<char>,
    pub digest: Seq<char>,
}

impl View for FileRequirement {
    type V = FileView;

    open spec fn view(&self) -> FileView {
        FileView { url: self.url@, digest: self.digest@ }
    }
}

impl Clone for FileRequirement {
    fn clone(&self) -> (r: Self)
        ensures
            r == *self,
    {
        FileRequirement { url: self.url.clone(), digest: self.digest.clone() }
    }
}

/// A package that the lockfile pins.
#[derive(Debug)]
pub struct LockedPackage {
    /// The name of the package
    pub name: PackageName,
    /// The version that is pinned
    pub version: Version,
    /// The file of that version
    pub file: FileRequirement,
}

/// What a pin says.
pub struct LockedView {
    pub name: Name,
    pub version: VersionView,
    pub file: FileView,
}

impl View for LockedPackage {
    type V = LockedView;

    open spec fn view(&self) -> LockedView {
        LockedView { name: self.name@, version: self.version@, file: self.file@ }
    }
}

/// The packages that earlier resolutions settled on. A package may be pinned at several versions.
#[derive(Debug)]
pub struct Lockfile {
    /// The pins
    pub packages: Vec<LockedPackage>,
}

impl View for Lockfile {
    type V = Seq<LockedView>;

    open spec fn view(&self) -> Seq<LockedView> {
        crate::text::views(self.packages@)
    }
}

/// Whether the pin at `i` is one of `name` that meets every requirement.
pub open spec fn pin_fits(
    pins: Seq<LockedView>,
    name: Name,
    reqs: Seq<Seq<char>>,
    i: int,
) -> bool {
    0 <= i < pins.len() && pins[i].name == name && crate::pick::satisfies_all(
        reqs,
        pins[i].version,
    )
}

/// Whether the pin at `i` is one of `name` that meets every requirement, comes after every other such
/// version, and is the first of its version.
pub open spec fn is_last_pin(
    pins: Seq<LockedView>,
    name: Name,
    reqs: Seq<Seq<char>>,
    i: int,
) -> bool {
    &&& pin_fits(pins, name, reqs, i)
    &&& forall|j: int| #[trigger]
        pin_fits(pins, name, reqs, j) && pins[j].version != pins[i].version
            ==> crate::version::precedes(pins[j].version, pins[i].version)
            && !crate::version::precedes(pins[i].version, pins[j].version)
    &&& forall|j: int| #[trigger]
        pin_fits(pins, name, reqs, j) && pins[j].version == pins[i].version ==> i <= j
}

/// Whether the pin at `i` is the highest of `name` that meets every requirement, and the first of
/// its version.
pub open spec fn is_pin(pins: Seq<LockedView>, name: Name, reqs: Seq<Seq<char>>, i: int) -> bool {
    &&& is_last_pin(pins, name, reqs, i)
    &&& forall|j: int| #[trigger]
        pin_fits(pins, name, reqs, j) && pins[j].version != pins[i].version
            ==> !crate::version::is_lesser(pins[i].version, pins[j].version)
}

/// One pin at most is the one to use.
pub proof fn law_pin_is_unique(
    pins: Seq<LockedView>,
    name: Name,
    reqs: Seq<Seq<char>>,
    i: int,
    j: int,
)
    requires
        is_last_pin(pins, name, reqs, i),
        is_last_pin(pins, name, reqs, j),
    ensures
        i == j,
{
    assert(pin_fits(pins, name, reqs, i));
    assert(pin_fits(pins, name, reqs, j));
}

/// A pin that is of another package, or fails a requirement, does not stand in the way of the
/// others.
pub proof fn law_unusable_pins_are_skipped(
    pins: Seq<LockedView>,
    extra: LockedView,
    name: Name,
    reqs: Seq<Seq<char>>,
    i: int,
)
    requires
        extra.name != name || !crate::pick::satisfies_all(reqs, extra.version),
    ensures
        is_pin(pins.push(extra), name, reqs, i) == is_pin(pins, name, reqs, i),
{
    let more = pins.push(extra);
    assert forall|j: int|
        #![trigger pin_fits(more, name, reqs, j)]
        #![trigger pin_fits(pins, name, reqs, j)]
        pin_fits(more, name, reqs, j) == pin_fits(pins, name, reqs, j) by {}
}

/// The only pin of a package that meets every requirement is the one to use.
pub proof fn law_only_pin_that_fits_is_used(
    pins: Seq<LockedView>,
    name: Name,
    reqs: Seq<Seq<char>>,
    i: int,
)
    requires
        pin_fits(pins, name, reqs, i),
        forall|j: int| #[trigger] pin_fits(pins, name, reqs, j) ==> j == i,
    ensures
        is_pin(pins, name, reqs, i),
{
}

/// The versions at which a package is pinned.
pub open spec fn versions_of(pins: Seq<LockedView>, name: Name) -> Seq<VersionView> {
    pins.filter(|p: LockedView| p.name == name).map_values(|p: LockedView| p.version)
}

/// The version of the pin to use is the highest of those at which the package is pinned.
pub proof fn law_pin_is_the_highest(
    pins: Seq<LockedView>,
    name: Name,
    reqs: Seq<Seq<char>>,
    i: int,
)
    requires
        is_pin(pins, name, reqs, i),
    ensures
        crate::pick::is_pick(versions_of(pins, name), reqs, Some(pins[i].version)),
{
    let of = |p: LockedView| p.name == name;
    let own = pins.filter(of);
    let versions = versions_of(pins, name);
    crate::lists::lemma_filter_contents(pins, of);
    assert(of(pins[i]));
    let k = own.index_of(pins[i]);
    assert(versions[k] == pins[i].version);
    assert forall|w: VersionView| #[trigger]
        versions.contains(w) && crate::pick::satisfies_all(reqs, w) && w
            != pins[i].version implies crate::version::precedes(w, pins[i].version)
        && !crate::version::precedes(pins[i].version, w) && !crate::version::is_lesser(
        pins[i].version,
        w,
    ) by {
        let l = versions.index_of(w);
        assert(of(own[l]));
        let j = pins.index_of(own[l]);
        assert(pin_fits(pins, name, reqs, j));
    }
}

impl Lockfile {
    /// The highest pinned version of `name` that meets every requirement, with its file.
    pub fn find_satisfying_all(&self, name: &PackageName, reqs: &Vec<VersionReq>) -> (r: Option<
        (Version, FileRequirement),
    >)
        ensures
            match r {
                Some(found) => exists|i: int| #[trigger]
                    is_pin(self@, name@, crate::text::views(reqs@), i) && found.0@
                        == self@[i].version && found.1@ == self@[i].file,
                None => forall|i: int| !pin_fits(self@, name@, crate::text::views(reqs@), i),
            },
    {
        let ghost pins = self@;
        let ghost wanted = crate::text::views(reqs@);
        let mut versions: Vec<Version> = Vec::new();
        let mut positions: Vec<usize> = Vec::new();
        for i in 0..self.packages.len()
            invariant
                pins == self@,
                versions@.len() == positions@.len(),
                forall|k: int|
                    0 <= k < positions@.len() ==> (#[trigger] positions@[k]) < i
                        && pins[positions@[k] as int].name == name@
                        && pins[positions@[k] as int].version == versions@[k]@,
                forall|k: int, l: int|
                    0 <= k < l < positions@.len() ==> positions@[k] < positions@[l],
                forall|j: int|
                    0 <= j < i && (#[trigger] pins[j]).name == name@ ==> exists|k: int|
                        0 <= k < positions@.len() && #[trigger] positions@[k] == j,
        {
            let ghost before = positions@;
            if self.packages[i].name.same(name) {
                versions.push(self.packages[i].version.clone());
                positions.push(i);
            }
            assert forall|j: int| 0 <= j < i + 1 && (#[trigger] pins[j]).name == name@ implies exists|
                k: int,
            | 0 <= k < positions@.len() && #[trigger] positions@[k] == j by {
                if j < i {
                    let k = choose|k: int| 0 <= k < before.len() && #[trigger] before[k] == j;
                    assert(positions@[k] == j);
                } else {
                    assert(positions@[before.len() as int] == j);
                }
            }
        }
        let ghost all = crate::text::views(versions@);
        proof {
            assert forall|j: int| pin_fits(pins, name@, wanted, j) implies exists|k: int|
                0 <= k < positions@.len() && #[trigger] positions@[k] == j by {
                assert(pins[j].name == name@);
            }
        }
        match crate::pick::highest_position(&versions, reqs) {
            Some(k) => {
                let i: usize = positions[k];
                proof {
                    assert(all[k as int] == versions@[k as int]@);
                    assert(pins[i as int].version == all[k as int]);
                    assert forall|j: int| #[trigger] pin_fits(pins, name@, wanted, j) implies (
                    pins[j].version != pins[i as int].version ==> crate::version::precedes(
                        pins[j].version,
                        pins[i as int].version,
                    ) && !crate::version::precedes(pins[i as int].version, pins[j].version)
                        && !crate::version::is_lesser(pins[i as int].version, pins[j].version)) && (
                    pins[j].version == pins[i as int].version ==> i <= j) by {
                        let l = choose|l: int| 0 <= l < positions@.len() && positions@[l] == j;
                        assert(all[l] == versions@[l]@);
                        assert(all.contains(all[l]));
                        assert(pins[positions@[l] as int].version == versions@[l]@);
                    }
                    assert(is_pin(pins, name@, wanted, i as int));
                }
                let pin = &self.packages[i];
                Some((pin.version.clone(), pin.file.clone()))
            },
            None => {
                proof {
                    assert forall|j: int| !pin_fits(pins, name@, wanted, j) by {
                        if pin_fits(pins, name@, wanted, j) {
                            let l = choose|l: int| 0 <= l < positions@.len() && positions@[l] == j;
                            assert(all[l] == versions@[l]@);
                            assert(all.contains(all[l]));
                            assert(pins[positions@[l] as int].version == versions@[l]@);
                        }
                    }
                }
                None
            },
        }
    }
}

} // verus!
