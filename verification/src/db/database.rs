use crate::db::catalogue::Catalogue;
use crate::db::level::{has_lacking, is_level_plan, lacking, level_is_cyclic, name_lists, Level};
use crate::db::unit::{DbUnit, DbUnitView};
use crate::error::{Error, ErrorKind, ErrorView, FailureView};
use crate::names::NameSet;
use crate::unit::{UnitInfoView, UnitName};
use vstd::prelude::*;

verus! {

/// The sets of names enabled at each level.
pub open spec fn enabled_sets(enabled: Seq<NameSet>) -> Seq<Set<Seq<char>>> {
    Seq::new(enabled.len(), |l: int| enabled[l]@)
}

/// The plans of the levels.
pub open spec fn level_views(levels: Seq<Level>) -> Seq<Seq<Seq<Seq<char>>>> {
    Seq::new(levels.len(), |l: int| levels[l]@)
}

/// No plan exists for a level with these enabled units.
pub open spec fn level_fails(cat: Seq<UnitInfoView>, on: Set<Seq<char>>) -> bool {
    has_lacking(cat, on) || level_is_cyclic(cat, on)
}

/// `e` is the error that planning a level with these enabled units ends
/// with: a needed unit that is not known, where there is one, else a cycle.
pub open spec fn is_build_failure(cat: Seq<UnitInfoView>, on: Set<Seq<char>>, e: ErrorView) -> bool {
    &&& e.kind == ErrorKind::Unrecoverable
    &&& e.context is None
    &&& if has_lacking(cat, on) {
        &&& e.original is AbsentDependency
        &&& lacking(cat, on, e.original->AbsentDependency_0)
    } else {
        &&& level_is_cyclic(cat, on)
        &&& e.original == FailureView::CyclicDependency
    }
}

/// The first `upto` levels have plans, and `levels` holds them.
pub open spec fn plans_match(
    cat: Seq<UnitInfoView>,
    enabled: Seq<Set<Seq<char>>>,
    levels: Seq<Seq<Seq<Seq<char>>>>,
    upto: int,
) -> bool {
    &&& upto <= enabled.len()
    &&& upto <= levels.len()
    &&& forall|l: int|
        0 <= l < upto ==> !level_fails(cat, #[trigger] enabled[l]) && is_level_plan(
            cat,
            enabled[l],
            levels[l],
        )
}

/// What is kept across boots: the units enabled at each level, the plan
/// of each level, and the known units.
#[derive(Debug)]
pub struct Database {
    pub enabled: Vec<NameSet>,
    pub levels: Vec<Level>,
    pub unit_infos: Catalogue,
    pub units: Vec<DbUnit>,
}

/// The mathematical content of a [`Database`].
pub ghost struct DatabaseView {
    pub enabled: Seq<Set<Seq<char>>>,
    pub levels: Seq<Seq<Seq<Seq<char>>>>,
    pub unit_infos: Seq<UnitInfoView>,
    pub units: Seq<DbUnitView>,
}

impl DatabaseView {
    /// The plans are those of the enabled units: there is one for every
    /// level, built from what is enabled there and from the known units.
    pub open spec fn coherent(self) -> bool {
        &&& self.levels.len() == self.enabled.len()
        &&& plans_match(self.unit_infos, self.enabled, self.levels, self.enabled.len() as int)
    }

    /// The plans stop at the first level that has none: `levels` holds the
    /// plans of the levels before it.
    pub open spec fn broken_at(self, l: int) -> bool {
        &&& 0 <= l < self.enabled.len()
        &&& self.levels.len() == l
        &&& plans_match(self.unit_infos, self.enabled, self.levels, l)
        &&& level_fails(self.unit_infos, self.enabled[l])
    }
}

impl View for Database {
    type V = DatabaseView;

    open spec fn view(&self) -> DatabaseView {
        DatabaseView {
            enabled: enabled_sets(self.enabled@),
            levels: level_views(self.levels@),
            unit_infos: self.unit_infos@,
            units: self.units.deep_view(),
        }
    }
}

/// Plans every level anew, up to the first that has no plan.
fn build_levels(unit_infos: &Catalogue, enabled: &Vec<NameSet>) -> (res: (Vec<Level>, Option<Error>))
    ensures
        match res.1 {
            None => res.0.len() == enabled.len() && plans_match(
                unit_infos@,
                enabled_sets(enabled@),
                level_views(res.0@),
                enabled.len() as int,
            ),
            Some(e) => {
                &&& res.0.len() < enabled.len()
                &&& plans_match(
                    unit_infos@,
                    enabled_sets(enabled@),
                    level_views(res.0@),
                    res.0.len() as int,
                )
                &&& is_build_failure(unit_infos@, enabled[res.0.len() as int]@, e@)
                &&& level_fails(unit_infos@, enabled[res.0.len() as int]@)
            },
        },
{
    let mut levels: Vec<Level> = Vec::new();
    let mut l: usize = 0;
    while l < enabled.len()
        invariant
            l <= enabled.len(),
            levels.len() == l,
            plans_match(unit_infos@, enabled_sets(enabled@), level_views(levels@), l as int),
        decreases enabled.len() - l,
    {
        let ghost before = level_views(levels@);
        match Level::build(unit_infos, &enabled[l]) {
            Ok(level) => {
                levels.push(level);
                proof {
                    let after = level_views(levels@);
                    let sets = enabled_sets(enabled@);
                    assert forall|k: int| 0 <= k < l + 1 implies !level_fails(
                        unit_infos@,
                        #[trigger] sets[k],
                    ) && is_level_plan(unit_infos@, sets[k], after[k]) by {
                        if k < l {
                            assert(after[k] == before[k]);
                        }
                    }
                }
            },
            Err(e) => {
                return (levels, Some(e));
            },
        }
        l += 1;
    }
    (levels, None)
}

impl Database {
    /// A database of these declared units, known units and enabled names,
    /// with the plans of its levels.
    pub fn new(units: Vec<DbUnit>, unit_infos: Catalogue, enabled: Vec<NameSet>) -> (res: Result<
        Self,
        Error,
    >)
        ensures
            match res {
                Ok(db) => {
                    &&& db@.coherent()
                    &&& db.units == units
                    &&& db.unit_infos == unit_infos
                    &&& db.enabled == enabled
                },
                Err(e) => exists|l: int|
                    {
                        &&& 0 <= l < enabled.len()
                        &&& #[trigger] is_build_failure(unit_infos@, enabled[l]@, e@)
                        &&& forall|k: int|
                            0 <= k < l ==> !level_fails(
                                unit_infos@,
                                #[trigger] enabled_sets(enabled@)[k],
                            )
                    },
            },
    {
        let (levels, failure) = build_levels(&unit_infos, &enabled);
        match failure {
            None => Ok(Database { enabled, levels, unit_infos, units }),
            Some(e) => {
                proof {
                    let l = levels.len() as int;
                    assert(is_build_failure(unit_infos@, enabled[l]@, e@));
                }
                Err(e)
            },
        }
    }

    /// Plans every level anew from what is enabled and known now. Planning
    /// stops at the first level that has no plan; the plans of the levels
    /// before it are kept.
    pub fn rebuild_levels(&mut self) -> (res: Result<(), Error>)
        ensures
            final(self).enabled == old(self).enabled,
            final(self).unit_infos == old(self).unit_infos,
            final(self).units == old(self).units,
            match res {
                Ok(()) => final(self)@.coherent(),
                Err(e) => final(self)@.broken_at(final(self).levels.len() as int) && is_build_failure(
                    final(self)@.unit_infos,
                    final(self)@.enabled[final(self).levels.len() as int],
                    e@,
                ),
            },
    {
        let (levels, failure) = build_levels(&self.unit_infos, &self.enabled);
        self.levels = levels;
        match failure {
            None => Ok(()),
            Some(e) => Err(e),
        }
    }

    /// Hands out the declared units, and keeps none.
    pub fn get_base_map(&mut self) -> (res: Vec<DbUnit>)
        ensures
            res == old(self).units,
            final(self).units@ == Seq::<DbUnit>::empty(),
            final(self).enabled == old(self).enabled,
            final(self).levels == old(self).levels,
            final(self).unit_infos == old(self).unit_infos,
    {
        let mut units: Vec<DbUnit> = Vec::new();
        std::mem::swap(&mut units, &mut self.units);
        units
    }

    /// How many levels have a plan.
    pub fn get_levels(&self) -> (res: usize)
        ensures
            res == self.levels.len(),
    {
        self.levels.len()
    }

    /// The waves of a level, each with those of its units only that `map`
    /// holds; no wave at all where there is no such level.
    pub fn get_level(&self, map: &NameSet, level: usize) -> (res: Vec<Vec<UnitName>>)
        ensures
            name_lists(res@) == if level < self.levels.len() {
                kept_waves(self.levels[level as int]@, map@)
            } else {
                Seq::empty()
            },
    {
        let mut res: Vec<Vec<UnitName>> = Vec::new();
        if level >= self.levels.len() {
            assert(name_lists(res@) =~= Seq::<Seq<Seq<char>>>::empty());
            return res;
        }
        let groups = self.levels[level].get_order();
        let ghost waves = self.levels[level as int]@;
        let mut k: usize = 0;
        while k < groups.len()
            invariant
                k <= groups.len(),
                waves == name_lists(groups@),
                res.len() == k,
                forall|t: int| 0 <= t < k ==> (#[trigger] res[t]).deep_view() == kept(waves[t], map@),
            decreases groups.len() - k,
        {
            let group = &groups[k];
            let ghost wave = group.deep_view();
            let mut found: Vec<UnitName> = Vec::new();
            let mut p: usize = 0;
            assert(wave.subrange(0, 0) =~= Seq::<Seq<char>>::empty());
            assert(found.deep_view() =~= kept(wave.subrange(0, 0), map@));
            while p < group.len()
                invariant
                    p <= group.len(),
                    wave == group.deep_view(),
                    found.deep_view() == kept(wave.subrange(0, p as int), map@),
                decreases group.len() - p,
            {
                let ghost before = found.deep_view();
                proof {
                    let longer = wave.subrange(0, p + 1);
                    assert(longer.drop_last() =~= wave.subrange(0, p as int));
                    assert(longer.last() == group[p as int]@);
                }
                if map.contains(&group[p]) {
                    found.push(group[p].clone());
                    assert(found.deep_view() =~= before.push(group[p as int]@));
                }
                p += 1;
            }
            assert(wave.subrange(0, group.len() as int) =~= wave);
            res.push(found);
            k += 1;
        }
        assert(name_lists(res@) =~= kept_waves(waves, map@));
        res
    }
}

/// The names of `wave` that `map` holds, in their order.
pub open spec fn kept(wave: Seq<Seq<char>>, map: Set<Seq<char>>) -> Seq<Seq<char>>
    decreases wave.len(),
{
    if wave.len() == 0 {
        Seq::empty()
    } else if map.contains(wave.last()) {
        kept(wave.drop_last(), map).push(wave.last())
    } else {
        kept(wave.drop_last(), map)
    }
}

/// Every wave of `level` with the names that `map` holds.
pub open spec fn kept_waves(level: Seq<Seq<Seq<char>>>, map: Set<Seq<char>>) -> Seq<
    Seq<Seq<char>>,
> {
    Seq::new(level.len(), |k: int| kept(level[k], map))
}

/// Copies a list of name sets.
pub fn clone_sets(sets: &Vec<NameSet>) -> (res: Vec<NameSet>)
    ensures
        enabled_sets(res@) == enabled_sets(sets@),
{
    let mut res: Vec<NameSet> = Vec::new();
    let mut i: usize = 0;
    while i < sets.len()
        invariant
            i <= sets.len(),
            res.len() == i,
            forall|k: int| 0 <= k < i ==> (#[trigger] res[k])@ == sets[k]@,
        decreases sets.len() - i,
    {
        res.push(sets[i].clone());
        i += 1;
    }
    assert(enabled_sets(res@) =~= enabled_sets(sets@));
    res
}

impl Clone for Database {
    fn clone(&self) -> (res: Self)
        ensures
            res@ == self@,
    {
        let mut levels: Vec<Level> = Vec::new();
        let mut i: usize = 0;
        while i < self.levels.len()
            invariant
                i <= self.levels.len(),
                levels.len() == i,
                forall|k: int| 0 <= k < i ==> (#[trigger] levels[k])@ == self.levels[k]@,
            decreases self.levels.len() - i,
        {
            levels.push(self.levels[i].clone());
            i += 1;
        }
        let mut units: Vec<DbUnit> = Vec::new();
        let mut j: usize = 0;
        while j < self.units.len()
            invariant
                j <= self.units.len(),
                units.len() == j,
                forall|k: int| 0 <= k < j ==> (#[trigger] units[k])@ == self.units[k]@,
            decreases self.units.len() - j,
        {
            units.push(self.units[j].clone());
            j += 1;
        }
        assert(level_views(levels@) =~= level_views(self.levels@));
        assert(units.deep_view() =~= self.units.deep_view());
        Database {
            enabled: clone_sets(&self.enabled),
            levels,
            unit_infos: self.unit_infos.clone(),
            units,
        }
    }
}

} // verus!
