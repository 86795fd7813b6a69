use crate::unit::UnitName;
use vstd::prelude::*;

verus! {

/// No entry of `s` occurs twice.
pub open spec fn distinct(s: Seq<Seq<char>>) -> bool {
    forall|i: int, j: int| 0 <= i < j < s.len() ==> #[trigger] s[i] != #[trigger] s[j]
}

/// A set of unit names. It keeps the names in the order in which they were
/// added, each of them once.
#[derive(Debug)]
pub struct NameSet {
    names: Vec<UnitName>,
}

impl View for NameSet {
    type V = Set<Seq<char>>;

    closed spec fn view(&self) -> Set<Seq<char>> {
        Set::new(|name: Seq<char>| self.names.deep_view().contains(name))
    }
}

/// Where `name` stands in `names`, if it does.
pub fn position(names: &Vec<UnitName>, name: &UnitName) -> (res: Option<usize>)
    ensures
        match res {
            Some(i) => i < names.len() && names.deep_view()[i as int] == name@ && forall|k: int|
                0 <= k < i ==> #[trigger] names.deep_view()[k] != name@,
            None => !names.deep_view().contains(name@),
        },
{
    let mut i: usize = 0;
    while i < names.len()
        invariant
            i <= names.len(),
            forall|k: int| 0 <= k < i ==> #[trigger] names.deep_view()[k] != name@,
        decreases names.len() - i,
    {
        if names[i] == *name {
            return Some(i);
        }
        i += 1;
    }
    None
}

impl NameSet {
    #[verifier::type_invariant]
    spec fn well_formed(&self) -> bool {
        distinct(self.names.deep_view())
    }

    /// The names of the set in the order in which they were added.
    pub closed spec fn listing(&self) -> Seq<Seq<char>> {
        self.names.deep_view()
    }

    /// The empty set.
    pub fn new() -> (res: Self)
        ensures
            res@ == Set::<Seq<char>>::empty(),
            res.listing() == Seq::<Seq<char>>::empty(),
    {
        let res = NameSet { names: Vec::new() };
        assert(res.names.deep_view() =~= Seq::<Seq<char>>::empty());
        assert(res@ =~= Set::<Seq<char>>::empty());
        res
    }

    /// Whether `name` is in the set.
    pub fn contains(&self, name: &UnitName) -> (res: bool)
        ensures
            res == self@.contains(name@),
    {
        position(&self.names, name).is_some()
    }

    /// Adds `name` to the set, and says whether it was new.
    pub fn insert(&mut self, name: UnitName) -> (added: bool)
        ensures
            final(self)@ == old(self)@.insert(name@),
            added == !old(self)@.contains(name@),
            final(self).listing() == if added {
                old(self).listing().push(name@)
            } else {
                old(self).listing()
            },
    {
        proof {
            use_type_invariant(&*self);
        }
        if position(&self.names, &name).is_some() {
            assert(self@ =~= old(self)@.insert(name@));
            return false;
        }
        let ghost before = self.names.deep_view();
        let mut names: Vec<UnitName> = Vec::new();
        std::mem::swap(&mut names, &mut self.names);
        names.push(name);
        proof {
            assert(names.deep_view() =~= before.push(name@));
            assert forall|i: int, j: int| 0 <= i < j < names.deep_view().len() implies
                #[trigger] names.deep_view()[i] != #[trigger] names.deep_view()[j] by {
                if j == before.len() {
                    assert(before[i] != name@);
                } else {
                    assert(before[i] != before[j]);
                }
            }
        }
        self.names = names;
        proof {
            assert forall|n: Seq<char>| self@.contains(n) <==> old(self)@.insert(name@).contains(
                n,
            ) by {
                if before.push(name@).contains(n) {
                    let i = choose|i: int|
                        0 <= i < before.push(name@).len() && before.push(name@)[i] == n;
                    if i < before.len() {
                        assert(before[i] == n);
                    }
                }
                if before.contains(n) {
                    let i = choose|i: int| 0 <= i < before.len() && before[i] == n;
                    assert(before.push(name@)[i] == n);
                }
                if n == name@ {
                    assert(before.push(name@)[before.len() as int] == n);
                }
            }
            assert(self@ =~= old(self)@.insert(name@));
        }
        true
    }

    /// Takes `name` out of the set, and says whether it was there.
    pub fn remove(&mut self, name: &UnitName) -> (removed: bool)
        ensures
            final(self)@ == old(self)@.remove(name@),
            removed == old(self)@.contains(name@),
    {
        proof {
            use_type_invariant(&*self);
        }
        match position(&self.names, name) {
            None => {
                assert(self@ =~= old(self)@.remove(name@));
                false
            },
            Some(at) => {
                let ghost before = self.names.deep_view();
                let mut names: Vec<UnitName> = Vec::new();
                std::mem::swap(&mut names, &mut self.names);
                names.remove(at);
                proof {
                    assert(names.deep_view() =~= before.remove(at as int));
                    assert forall|i: int, j: int| 0 <= i < j < names.deep_view().len() implies
                        #[trigger] names.deep_view()[i] != #[trigger] names.deep_view()[j] by {
                        let i0 = if i < at {
                            i
                        } else {
                            i + 1
                        };
                        let j0 = if j < at {
                            j
                        } else {
                            j + 1
                        };
                        assert(before[i0] != before[j0]);
                    }
                }
                self.names = names;
                proof {
                    let after = before.remove(at as int);
                    assert forall|n: Seq<char>| self@.contains(n) <==> old(self)@.remove(
                        name@,
                    ).contains(n) by {
                        if after.contains(n) {
                            let i = choose|i: int| 0 <= i < after.len() && after[i] == n;
                            let i0 = if i < at {
                                i
                            } else {
                                i + 1
                            };
                            assert(before[i0] == n);
                            assert(before[i0] != before[at as int]);
                        }
                        if before.contains(n) && n != name@ {
                            let i = choose|i: int| 0 <= i < before.len() && before[i] == n;
                            let i1 = if i < at {
                                i
                            } else {
                                i - 1
                            };
                            assert(after[i1] == n);
                        }
                    }
                    assert(self@ =~= old(self)@.remove(name@));
                }
                true
            },
        }
    }

    /// The names of the set, each once, in the order in which they were
    /// added.
    pub fn names(&self) -> (res: &Vec<UnitName>)
        ensures
            res.deep_view() == self.listing(),
            distinct(res.deep_view()),
            forall|name: Seq<char>| self@.contains(name) <==> res.deep_view().contains(name),
    {
        proof {
            use_type_invariant(self);
        }
        &self.names
    }

    /// The set of the names in `names`.
    pub fn from_names(names: &Vec<UnitName>) -> (res: Self)
        ensures
            forall|name: Seq<char>| res@.contains(name) <==> names.deep_view().contains(name),
    {
        let mut res = NameSet::new();
        let mut i: usize = 0;
        while i < names.len()
            invariant
                i <= names.len(),
                forall|name: Seq<char>|
                    res@.contains(name) <==> exists|k: int|
                        0 <= k < i && #[trigger] names.deep_view()[k] == name,
            decreases names.len() - i,
        {
            let ghost before = res@;
            res.insert(names[i].clone());
            proof {
                assert forall|name: Seq<char>|
                    res@.contains(name) <==> exists|k: int|
                        0 <= k < i + 1 && #[trigger] names.deep_view()[k] == name by {
                    if name == names.deep_view()[i as int] {
                    }
                    if before.contains(name) {
                        let k = choose|k: int| 0 <= k < i && #[trigger] names.deep_view()[k] == name;
                        assert(0 <= k < i + 1 && names.deep_view()[k] == name);
                    }
                }
            }
            i += 1;
        }
        res
    }

    /// The names of this set that are not in `other`.
    pub fn difference(&self, other: &NameSet) -> (res: NameSet)
        ensures
            res@ == self@.difference(other@),
    {
        proof {
            use_type_invariant(self);
        }
        let mut res = NameSet::new();
        let mut i: usize = 0;
        while i < self.names.len()
            invariant
                i <= self.names.len(),
                forall|name: Seq<char>|
                    res@.contains(name) <==> !other@.contains(name) && exists|k: int|
                        0 <= k < i && #[trigger] self.names.deep_view()[k] == name,
            decreases self.names.len() - i,
        {
            let ghost before = res@;
            let ghost list = self.names.deep_view();
            if !other.contains(&self.names[i]) {
                res.insert(self.names[i].clone());
            }
            proof {
                assert forall|name: Seq<char>|
                    res@.contains(name) <==> !other@.contains(name) && exists|k: int|
                        0 <= k < i + 1 && #[trigger] list[k] == name by {
                    if before.contains(name) {
                        let k = choose|k: int| 0 <= k < i && #[trigger] list[k] == name;
                        assert(0 <= k < i + 1 && list[k] == name);
                    }
                    if name == list[i as int] {
                    }
                }
            }
            i += 1;
        }
        proof {
            assert forall|name: Seq<char>| res@.contains(name) <==> self@.difference(
                other@,
            ).contains(name) by {
                let list = self.names.deep_view();
                if list.contains(name) {
                    let k = choose|k: int| 0 <= k < list.len() && list[k] == name;
                    assert(list[k] == name);
                }
            }
            assert(res@ =~= self@.difference(other@));
        }
        res
    }
}

impl Clone for NameSet {
    fn clone(&self) -> (res: Self)
        ensures
            res@ == self@,
            res.listing() == self.listing(),
    {
        proof {
            use_type_invariant(self);
        }
        let names = crate::unit::clone_names(&self.names);
        let res = NameSet { names };
        assert(res@ =~= self@);
        res
    }
}

} // verus!
