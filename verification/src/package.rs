//! Packages: their names, their types, and maps keyed by their names.
use vstd::prelude::*;

verus! {

/// What a package name is: its characters.
pub type Name = Seq<char>;

/// The name of a package.
#[derive(Debug)]
pub struct PackageName {
    text: String,
}

impl View for PackageName {
    type V = Name;

    closed spec fn view(&self) -> Name {
        self.text@
    }
}

impl Clone for PackageName {
    fn clone(&self) -> (r: Self)
        ensures
            r == *self,
    {
        PackageName { text: self.text.clone() }
    }
}

impl PackageName {
    /// The package name with this text.
    pub fn unchecked(text: &str) -> (r: Self)
        ensures
            r@ == text@,
    {
        PackageName { text: text.to_string() }
    }

    /// The text of the name.
    pub fn as_str(&self) -> (r: &str)
        ensures
            r@ == self@,
    {
        self.text.as_str()
    }

    /// Whether two names are the same.
    pub fn same(&self, other: &PackageName) -> (r: bool)
        ensures
            r == (self@ == other@),
    {
        self.text == other.text
    }

    /// Whether `list` holds this name.
    pub fn is_in(&self, list: &Vec<PackageName>) -> (r: bool)
        ensures
            r == crate::text::views(list@).contains(self@),
    {
        let ghost all = crate::text::views(list@);
        for i in 0..list.len()
            invariant
                all == crate::text::views(list@),
                forall|j: int| 0 <= j < i ==> #[trigger] all[j] != self@,
        {
            if self.same(&list[i]) {
                assert(all[i as int] == self@);
                return true;
            }
        }
        false
    }
}

/// Whether two lists of names are the same.
pub fn same_names(a: &Vec<PackageName>, b: &Vec<PackageName>) -> (r: bool)
    ensures
        r == (crate::text::views(a@) == crate::text::views(b@)),
{
    if a.len() != b.len() {
        assert(crate::text::views(a@).len() != crate::text::views(b@).len());
        return false;
    }
    for i in 0..a.len()
        invariant
            a@.len() == b@.len(),
            forall|j: int| 0 <= j < i ==> a@[j]@ == b@[j]@,
    {
        if !a[i].same(&b[i]) {
            assert(crate::text::views(a@)[i as int] != crate::text::views(b@)[i as int]);
            return false;
        }
    }
    assert(crate::text::views(a@) =~= crate::text::views(b@));
    true
}

/// What a package is for.
#[derive(Debug, Clone, Copy, PartialEq, Eq, Structural)]
pub enum PackageType {
    /// A package that declares an interface.
    Api,
    /// A package of shared definitions.
    Lib,
}

/// Whether the network may be used.
#[derive(Debug, Clone, Copy, PartialEq, Eq, Structural)]
pub enum NetworkMode {
    /// Packages may be downloaded.
    Online,
    /// Cached packages alone are used.
    Offline,
}

/// A map from package names, in which no name occurs twice.
#[derive(Debug)]
pub struct NameMap<T> {
    entries: Vec<(PackageName, T)>,
}

impl<T: View> View for NameMap<T> {
    type V = Map<Name, T::V>;

    closed spec fn view(&self) -> Map<Name, T::V> {
        Map::new(
            |k: Name| self.order().contains(k),
            |k: Name| self.entries@[self.order().index_of(k)].1@,
        )
    }
}

impl<T: View> NameMap<T> {
    /// The names, as they are stored.
    pub closed spec fn order(self) -> Seq<Name> {
        self.entries@.map_values(|e: (PackageName, T)| e.0@)
    }

    /// No name occurs twice.
    pub closed spec fn wf(self) -> bool {
        self.order().no_duplicates()
    }

    /// The names as they are stored are those of the map, each once.
    pub proof fn lemma_order(self)
        requires
            self.wf(),
        ensures
            self.order().no_duplicates(),
            self@.dom() == self.order().to_set(),
            self@.dom().finite(),
            self@.dom().len() == self.order().len(),
            self.order().len() <= usize::MAX,
    {
        assert(self.order().len() == self.entries.len());
        assert(self@.dom() =~= self.order().to_set());
        self.order().unique_seq_to_set();
        vstd::seq_lib::seq_to_set_is_finite(self.order());
    }

    proof fn lemma_at(self, i: int)
        requires
            self.wf(),
            0 <= i < self.entries@.len(),
        ensures
            self.order()[i] == self.entries@[i].0@,
            self@.contains_key(self.entries@[i].0@),
            self@[self.entries@[i].0@] == self.entries@[i].1@,
    {
        assert(self.order()[i] == self.entries@[i].0@);
        assert(self.order().contains(self.entries@[i].0@));
        let j = self.order().index_of(self.entries@[i].0@);
        assert(self.order()[j] == self.order()[i]);
    }

    /// The map without names.
    pub fn new() -> (r: Self)
        ensures
            r.wf(),
            r@ == Map::<Name, T::V>::empty(),
    {
        let r = NameMap { entries: Vec::new() };
        assert(r@ =~= Map::<Name, T::V>::empty());
        r
    }

    /// The number of names.
    pub fn len(&self) -> (r: usize)
        requires
            self.wf(),
        ensures
            r == self.order().len(),
            r == self@.dom().len(),
    {
        proof {
            self.lemma_order();
        }
        self.entries.len()
    }

    /// The name stored at a position.
    pub fn name_at(&self, i: usize) -> (r: &PackageName)
        requires
            self.wf(),
            i < self.order().len(),
        ensures
            r@ == self.order()[i as int],
            self@.contains_key(r@),
    {
        proof {
            self.lemma_at(i as int);
        }
        &self.entries[i].0
    }

    /// The value stored at a position.
    pub fn value_at(&self, i: usize) -> (r: &T)
        requires
            self.wf(),
            i < self.order().len(),
        ensures
            self@.contains_key(self.order()[i as int]),
            r@ == self@[self.order()[i as int]],
    {
        proof {
            self.lemma_at(i as int);
        }
        &self.entries[i].1
    }

    /// The position at which a name is stored.
    pub fn position(&self, name: &PackageName) -> (r: Option<usize>)
        requires
            self.wf(),
        ensures
            r is Some == self@.contains_key(name@),
            r matches Some(i) ==> i < self.order().len() && self.order()[i as int] == name@,
    {
        for i in 0..self.entries.len()
            invariant
                self.wf(),
                forall|j: int| 0 <= j < i ==> #[trigger] self.order()[j] != name@,
        {
            if self.entries[i].0.same(name) {
                proof {
                    self.lemma_at(i as int);
                }
                return Some(i);
            }
            assert(self.order()[i as int] == self.entries@[i as int].0@);
        }
        None
    }

    /// Whether the map has this name.
    pub fn contains(&self, name: &PackageName) -> (r: bool)
        requires
            self.wf(),
        ensures
            r == self@.contains_key(name@),
    {
        self.position(name).is_some()
    }

    /// The value at a name.
    pub fn get(&self, name: &PackageName) -> (r: Option<&T>)
        requires
            self.wf(),
        ensures
            r is Some == self@.contains_key(name@),
            r matches Some(v) ==> v@ == self@[name@],
    {
        match self.position(name) {
            Some(i) => Some(self.value_at(i)),
            None => None,
        }
    }

    /// Sets the value at a name.
    pub fn insert(&mut self, name: PackageName, value: T)
        requires
            old(self).wf(),
        ensures
            final(self).wf(),
            final(self)@ == old(self)@.insert(name@, value@),
    {
        let ghost before = *self;
        let ghost key = name@;
        let ghost set = value@;
        match self.position(&name) {
            Some(i) => {
                self.entries.set(i, (name, value));
                proof {
                    assert(self.order() =~= before.order());
                    assert forall|k: Name| self@.contains_key(k) implies self@[k] == before@.insert(
                        key,
                        set,
                    )[k] by {
                        let j = self.order().index_of(k);
                        before.lemma_at(j);
                        before.lemma_at(i as int);
                        self.lemma_at(j);
                    }
                    before.lemma_at(i as int);
                }
            },
            None => {
                self.entries.push((name, value));
                proof {
                    assert(self.order() =~= before.order().push(key));
                    assert(self.wf());
                    let last = before.entries@.len() as int;
                    self.lemma_at(last);
                    assert forall|k: Name| self@.contains_key(k) == before@.insert(
                        key,
                        set,
                    ).contains_key(k) by {
                        if before.order().contains(k) {
                            let j = before.order().index_of(k);
                            self.lemma_at(j);
                            assert(self.order()[j] == k);
                        }
                        if self.order().contains(k) && k != key {
                            let j = self.order().index_of(k);
                            assert(before.order()[j] == k);
                        }
                    }
                    assert forall|k: Name| self@.contains_key(k) implies self@[k] == before@.insert(
                        key,
                        set,
                    )[k] by {
                        let j = self.order().index_of(k);
                        self.lemma_at(j);
                        if j < last {
                            before.lemma_at(j);
                            assert(self.order()[j] == before.order()[j]);
                        }
                    }
                }
            },
        }
        assert(self@ =~= before@.insert(key, set));
    }

    /// Takes a name and its value out of the map.
    pub fn remove(&mut self, name: &PackageName) -> (r: Option<T>)
        requires
            old(self).wf(),
        ensures
            final(self).wf(),
            final(self)@ == old(self)@.remove(name@),
            r is Some == old(self)@.contains_key(name@),
            r matches Some(v) ==> v@ == old(self)@[name@],
    {
        let ghost before = *self;
        match self.position(name) {
            Some(i) => {
                let entry = self.entries.remove(i);
                proof {
                    before.lemma_at(i as int);
                    assert(self.order() =~= before.order().remove(i as int));
                    assert forall|a: int, b: int|
                        0 <= a < self.order().len() && 0 <= b < self.order().len() && a
                            != b implies self.order()[a] != self.order()[b] by {
                        let a0 = if a < i {
                            a
                        } else {
                            a + 1
                        };
                        let b0 = if b < i {
                            b
                        } else {
                            b + 1
                        };
                        assert(before.order()[a0] != before.order()[b0]);
                    }
                    assert(self.wf());
                    assert forall|k: Name| self@.contains_key(k) implies before@.remove(
                        name@,
                    ).contains_key(k) && self@[k] == before@[k] by {
                        let j = self.order().index_of(k);
                        self.lemma_at(j);
                        let j0 = if j < i {
                            j
                        } else {
                            j + 1
                        };
                        before.lemma_at(j0);
                        assert(before.order()[j0] == self.order()[j]);
                        assert(before.order()[j0] != before.order()[i as int]);
                    }
                    assert forall|k: Name| before@.remove(name@).contains_key(k) implies #[trigger]
                        self@.contains_key(k) by {
                        let j0 = before.order().index_of(k);
                        before.lemma_at(j0);
                        let j = if j0 < i {
                            j0
                        } else {
                            j0 - 1
                        };
                        assert(j0 != i);
                        self.lemma_at(j);
                        assert(self.order()[j] == k);
                    }
                }
                assert(self@ =~= before@.remove(name@));
                Some(entry.1)
            },
            None => {
                assert(self@ =~= before@.remove(name@));
                None
            },
        }
    }
}

/// A value that can be copied and told from others.
pub trait Kept: View + Sized {
    /// Whether two values need not be told from each other.
    spec fn alike(a: Self::V, b: Self::V) -> bool;

    /// The same value again.
    fn copy(&self) -> (r: Self)
        ensures
            r@ == self@,
    ;

    /// Whether two values need not be told from each other.
    fn is_like(&self, other: &Self) -> (r: bool)
        ensures
            r == Self::alike(self@, other@),
    ;
}

impl<T: Kept> NameMap<T> {
    /// The same map again.
    pub fn copy(&self) -> (r: Self)
        requires
            self.wf(),
        ensures
            r.wf(),
            r@ == self@,
    {
        let ghost names = self.order();
        let mut r: NameMap<T> = NameMap::new();
        proof {
            self.lemma_order();
        }
        let n: usize = self.len();
        for i in 0..n
            invariant
                self.wf(),
                names == self.order(),
                n == names.len(),
                names.no_duplicates(),
                self@.dom() == names.to_set(),
                r.wf(),
                forall|m: Name| #[trigger]
                    r@.contains_key(m) <==> names.take(i as int).contains(m),
                forall|m: Name| #[trigger] r@.contains_key(m) ==> r@[m] == self@[m],
        {
            let ghost before = r@;
            let name = self.name_at(i);
            let value = self.value_at(i);
            r.insert(name.clone(), value.copy());
            proof {
                assert forall|m: Name| #[trigger] r@.contains_key(m) <==> names.take(i + 1).contains(
                    m,
                ) by {
                    assert(names.take(i + 1) =~= names.take(i as int).push(names[i as int]));
                    crate::lists::lemma_push_contains(names.take(i as int), names[i as int], m);
                    assert(before.contains_key(m) <==> names.take(i as int).contains(m));
                }
                assert forall|m: Name| #[trigger] r@.contains_key(m) implies r@[m] == self@[m] by {
                    assert(m != name@ ==> before.contains_key(m));
                }
            }
        }
        proof {
            assert(names.take(n as int) =~= names);
            assert forall|m: Name| #[trigger] r@.dom().contains(m) == self@.dom().contains(m) by {
                assert(r@.contains_key(m) <==> names.take(n as int).contains(m));
                assert(names.to_set().contains(m) == names.contains(m));
            }
            assert(r@ =~= self@);
        }
        r
    }

    /// Whether two maps have the same names, with values that need not be told from each other.
    pub fn is_like(&self, other: &Self) -> (r: bool)
        requires
            self.wf(),
            other.wf(),
        ensures
            r == (self@.dom() == other@.dom() && forall|m: Name| #[trigger]
                self@.contains_key(m) ==> T::alike(self@[m], other@[m])),
    {
        let ghost names = self.order();
        let ghost theirs = other.order();
        proof {
            self.lemma_order();
            other.lemma_order();
        }
        let n: usize = self.len();
        for i in 0..n
            invariant
                self.wf(),
                other.wf(),
                names == self.order(),
                n == names.len(),
                forall|j: int|
                    0 <= j < i ==> other@.contains_key(#[trigger] names[j]) && T::alike(
                        self@[names[j]],
                        other@[names[j]],
                    ),
        {
            let name = self.name_at(i);
            match other.get(name) {
                Some(value) => {
                    if !self.value_at(i).is_like(value) {
                        assert(self@.contains_key(name@));
                        return false;
                    }
                },
                None => {
                    assert(self@.dom().contains(name@) && !other@.dom().contains(name@));
                    return false;
                },
            }
        }
        let n: usize = other.len();
        for i in 0..n
            invariant
                self.wf(),
                other.wf(),
                theirs == other.order(),
                n == theirs.len(),
                forall|j: int| 0 <= j < i ==> self@.contains_key(#[trigger] theirs[j]),
        {
            let name = other.name_at(i);
            if !self.contains(name) {
                assert(other@.dom().contains(name@) && !self@.dom().contains(name@));
                return false;
            }
        }
        proof {
            self.lemma_order();
            other.lemma_order();
            assert forall|m: Name| #[trigger] self@.contains_key(m) implies other@.contains_key(m)
                && T::alike(self@[m], other@[m]) by {
                assert(names.to_set().contains(m));
                let j = names.index_of(m);
                assert(names[j] == m);
            }
            assert forall|m: Name| #[trigger] other@.contains_key(m) implies self@.contains_key(
                m,
            ) by {
                assert(theirs.to_set().contains(m));
                let j = theirs.index_of(m);
                assert(theirs[j] == m);
            }
            assert(self@.dom() =~= other@.dom());
        }
        true
    }
}

} // verus!
