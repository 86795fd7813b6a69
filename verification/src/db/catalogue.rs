use crate::sort::{denotes, find, known};
use crate::unit::{UnitInfo, UnitInfoView, UnitName};
use vstd::prelude::*;

verus! {

/// No two of `units` bear the same name.
pub open spec fn names_distinct(units: Seq<UnitInfoView>) -> bool {
    forall|i: int, j: int|
        0 <= i < j < units.len() ==> (#[trigger] units[i]).name != (#[trigger] units[j]).name
}

/// The units that are known, each under its own name and none twice.
#[derive(Debug)]
pub struct Catalogue {
    infos: Vec<UnitInfo>,
}

impl View for Catalogue {
    type V = Seq<UnitInfoView>;

    closed spec fn view(&self) -> Seq<UnitInfoView> {
        self.infos.deep_view()
    }
}

impl Catalogue {
    #[verifier::type_invariant]
    spec fn well_formed(&self) -> bool {
        names_distinct(self.infos.deep_view())
    }

    /// The catalogue without any unit.
    pub fn new() -> (res: Self)
        ensures
            res@ == Seq::<UnitInfoView>::empty(),
    {
        let res = Catalogue { infos: Vec::new() };
        assert(res.infos.deep_view() =~= Seq::<UnitInfoView>::empty());
        res
    }

    /// The units of the catalogue.
    pub fn infos(&self) -> (res: &Vec<UnitInfo>)
        ensures
            res.deep_view() == self@,
            names_distinct(self@),
    {
        proof {
            use_type_invariant(self);
        }
        &self.infos
    }

    /// How many units the catalogue holds.
    pub fn len(&self) -> (res: usize)
        ensures
            res == self@.len(),
    {
        self.infos.len()
    }

    /// Whether a unit of this name is known.
    pub fn contains_key(&self, name: &UnitName) -> (res: bool)
        ensures
            res == known(self@, name@),
    {
        find(&self.infos, name).is_some()
    }

    /// The unit of this name.
    pub fn get(&self, name: &UnitName) -> (res: Option<&UnitInfo>)
        ensures
            match res {
                Some(info) => exists|j: int| denotes(self@, name@, j) && info@ == self@[j],
                None => !known(self@, name@),
            },
    {
        match find(&self.infos, name) {
            Some(j) => {
                assert(denotes(self@, name@, j as int) && self.infos[j as int]@ == self@[j as int]);
                Some(&self.infos[j])
            },
            None => None,
        }
    }

    /// Puts `info` into the catalogue, in place of the unit of the same
    /// name if there is one; that unit is returned.
    pub fn insert(&mut self, info: UnitInfo) -> (res: Option<UnitInfo>)
        ensures
            match res {
                Some(previous) => exists|j: int|
                    denotes(old(self)@, info@.name, j) && previous@ == old(self)@[j] && final(self)@
                        == old(self)@.update(j, info@),
                None => !known(old(self)@, info@.name) && final(self)@ == old(self)@.push(info@),
            },
    {
        proof {
            use_type_invariant(&*self);
        }
        let ghost before = self.infos.deep_view();
        let ghost added = info@;
        let found = find(&self.infos, &info.name);
        let mut infos: Vec<UnitInfo> = Vec::new();
        std::mem::swap(&mut infos, &mut self.infos);
        match found {
            Some(j) => {
                let previous = infos.remove(j);
                infos.insert(j, info);
                proof {
                    assert(infos.deep_view() =~= before.update(j as int, added));
                    assert forall|a: int, b: int| 0 <= a < b < infos.deep_view().len() implies (
                    #[trigger] infos.deep_view()[a]).name != (#[trigger] infos.deep_view()[b]).name by {
                        assert(before[a].name != before[b].name);
                    }
                }
                self.infos = infos;
                assert(denotes(old(self)@, added.name, j as int) && previous@ == old(self)@[j as int]
                    && self@ == old(self)@.update(j as int, added));
                Some(previous)
            },
            None => {
                infos.push(info);
                proof {
                    assert(infos.deep_view() =~= before.push(added));
                    assert forall|a: int, b: int| 0 <= a < b < infos.deep_view().len() implies (
                    #[trigger] infos.deep_view()[a]).name != (#[trigger] infos.deep_view()[b]).name by {
                        if b == before.len() {
                            assert(before[a].name != added.name);
                        } else {
                            assert(before[a].name != before[b].name);
                        }
                    }
                }
                self.infos = infos;
                None
            },
        }
    }

    /// Takes the unit of this name out of the catalogue and returns it.
    pub fn remove(&mut self, name: &UnitName) -> (res: Option<UnitInfo>)
        ensures
            match res {
                Some(previous) => exists|j: int|
                    denotes(old(self)@, name@, j) && previous@ == old(self)@[j] && final(self)@
                        == old(self)@.remove(j),
                None => !known(old(self)@, name@) && final(self)@ == old(self)@,
            },
    {
        proof {
            use_type_invariant(&*self);
        }
        let ghost before = self.infos.deep_view();
        match find(&self.infos, name) {
            Some(j) => {
                let mut infos: Vec<UnitInfo> = Vec::new();
                std::mem::swap(&mut infos, &mut self.infos);
                let previous = infos.remove(j);
                proof {
                    assert(infos.deep_view() =~= before.remove(j as int));
                    assert forall|a: int, b: int| 0 <= a < b < infos.deep_view().len() implies (
                    #[trigger] infos.deep_view()[a]).name != (#[trigger] infos.deep_view()[b]).name by {
                        let a0 = if a < j {
                            a
                        } else {
                            a + 1
                        };
                        let b0 = if b < j {
                            b
                        } else {
                            b + 1
                        };
                        assert(before[a0].name != before[b0].name);
                    }
                }
                self.infos = infos;
                assert(denotes(old(self)@, name@, j as int) && previous@ == old(self)@[j as int]
                    && self@ == old(self)@.remove(j as int));
                Some(previous)
            },
            None => None,
        }
    }
}

impl Clone for Catalogue {
    fn clone(&self) -> (res: Self)
        ensures
            res@ == self@,
    {
        proof {
            use_type_invariant(self);
        }
        let mut infos: Vec<UnitInfo> = Vec::new();
        let mut i: usize = 0;
        while i < self.infos.len()
            invariant
                i <= self.infos.len(),
                infos.len() == i,
                forall|k: int| 0 <= k < i ==> (#[trigger] infos[k])@ == self.infos[k]@,
            decreases self.infos.len() - i,
        {
            infos.push(self.infos[i].clone());
            i += 1;
        }
        assert(infos.deep_view() =~= self.infos.deep_view());
        Catalogue { infos }
    }
}

} // verus!
