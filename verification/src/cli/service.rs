use crate::db::database::{enabled_sets, is_build_failure, Database, DatabaseView};
use crate::db::level::name_lists;
use crate::db::unit::{DbUnit, DbUnitView};
use crate::error::{Error, ErrorKind, ErrorView, Failure, FailureView, StaticError, WithError};
use crate::names::NameSet;
use crate::sort::{denotes, known};
use crate::text::{decimal, to_decimal};
use crate::unit::{UnitInfoView, UnitName};
use vstd::prelude::*;
use vstd::string::*;

verus! {

/// The level that is meant where none is named.
pub open spec fn level_of(runlevel: Option<usize>) -> usize {
    match runlevel {
        Some(level) => level,
        None => 1,
    }
}

/// The first of `units` that is called `name` stands at `j`.
pub open spec fn unit_at(units: Seq<DbUnitView>, name: Seq<char>, j: int) -> bool {
    &&& 0 <= j < units.len()
    &&& units[j].name == name
    &&& forall|k: int| 0 <= k < j ==> (#[trigger] units[k]).name != name
}

/// `after` is `before` with `unit` put in: in place of the first unit of
/// its name, or at the end where there is none.
pub open spec fn unit_put(before: Seq<DbUnitView>, unit: DbUnitView, after: Seq<DbUnitView>) -> bool {
    if exists|j: int| unit_at(before, unit.name, j) {
        exists|j: int| #[trigger] unit_at(before, unit.name, j) && after == before.update(j, unit)
    } else {
        after == before.push(unit)
    }
}

/// `after` is `before` without the first unit called `name`.
pub open spec fn unit_taken(before: Seq<DbUnitView>, name: Seq<char>, after: Seq<DbUnitView>) -> bool {
    if exists|j: int| unit_at(before, name, j) {
        exists|j: int| #[trigger] unit_at(before, name, j) && after == before.remove(j)
    } else {
        after == before
    }
}

/// `after` is `before` with `info` put in: in place of the unit of its
/// name, or at the end where there is none.
pub open spec fn info_put(
    before: Seq<UnitInfoView>,
    info: UnitInfoView,
    after: Seq<UnitInfoView>,
) -> bool {
    if known(before, info.name) {
        exists|j: int| #[trigger] denotes(before, info.name, j) && after == before.update(j, info)
    } else {
        after == before.push(info)
    }
}

/// `after` is `before` without the unit called `name`.
pub open spec fn info_taken(
    before: Seq<UnitInfoView>,
    name: Seq<char>,
    after: Seq<UnitInfoView>,
) -> bool {
    if known(before, name) {
        exists|j: int| #[trigger] denotes(before, name, j) && after == before.remove(j)
    } else {
        after == before
    }
}

fn find_unit(units: &Vec<DbUnit>, name: &UnitName) -> (res: Option<usize>)
    ensures
        match res {
            Some(j) => unit_at(units.deep_view(), name@, j as int),
            None => forall|j: int| !unit_at(units.deep_view(), name@, j),
        },
{
    let mut i: usize = 0;
    while i < units.len()
        invariant
            i <= units.len(),
            forall|k: int| 0 <= k < i ==> (#[trigger] units.deep_view()[k]).name != name@,
        decreases units.len() - i,
    {
        if units[i].name == *name {
            assert(units.deep_view()[i as int].name == name@);
            return Some(i);
        }
        assert(units.deep_view()[i as int].name != name@);
        i += 1;
    }
    None
}

fn put_unit(units: &mut Vec<DbUnit>, unit: DbUnit)
    ensures
        unit_put(old(units).deep_view(), unit@, final(units).deep_view()),
{
    let ghost before = units.deep_view();
    match find_unit(units, &unit.name) {
        Some(j) => {
            units.remove(j);
            units.insert(j, unit);
            assert(units.deep_view() =~= before.update(j as int, unit@));
            assert(unit_at(before, unit@.name, j as int));
        },
        None => {
            units.push(unit);
            assert(units.deep_view() =~= before.push(unit@));
        },
    }
}

fn take_unit(units: &mut Vec<DbUnit>, name: &UnitName)
    ensures
        unit_taken(old(units).deep_view(), name@, final(units).deep_view()),
{
    let ghost before = units.deep_view();
    match find_unit(units, name) {
        Some(j) => {
            units.remove(j);
            assert(units.deep_view() =~= before.remove(j as int));
            assert(unit_at(before, name@, j as int));
        },
        None => {},
    }
}

/// The levels once there is room for `level`: one more, empty, where
/// `level` comes right after the last.
pub open spec fn with_room(enabled: Seq<Set<Seq<char>>>, level: int) -> Seq<Set<Seq<char>>> {
    if level == enabled.len() {
        enabled.push(Set::empty())
    } else {
        enabled
    }
}

/// The database `after` is `before` with `unit` enabled at `level`, its
/// plans apart.
pub open spec fn enabled_in(
    before: DatabaseView,
    unit: DbUnitView,
    level: int,
    after: DatabaseView,
) -> bool {
    let room = with_room(before.enabled, level);
    &&& after.enabled == room.update(level, room[level].insert(unit.name))
    &&& info_put(
        before.unit_infos,
        UnitInfoView { name: unit.name, dependencies: unit.dependencies },
        after.unit_infos,
    )
    &&& unit_put(before.units, unit, after.units)
}

/// The database `after` is `before` with the unit `name` disabled at
/// `level` and forgotten, its plans apart.
pub open spec fn disabled_in(
    before: DatabaseView,
    name: Seq<char>,
    level: int,
    after: DatabaseView,
) -> bool {
    &&& after.enabled == before.enabled.update(level, before.enabled[level].remove(name))
    &&& info_taken(before.unit_infos, name, after.unit_infos)
    &&& unit_taken(before.units, name, after.units)
}

/// Enables a declared unit at a level, the second where none is named, and
/// plans the levels anew.
///
/// The level right after the last is made for the unit; a level further
/// on cannot be made. A unit that is enabled at the level already is not
/// enabled again. In both cases the database stays as it is.
pub fn enable(db: &mut Database, unit: DbUnit, runlevel: Option<usize>) -> (res: Result<(), Error>)
    ensures
        if level_of(runlevel) > old(db).enabled.len() {
            &&& *final(db) == *old(db)
            &&& res is Err
            &&& res->Err_0@ == ErrorView::plain(
                FailureView::Message("cannot create level "@ + decimal(level_of(runlevel) as nat)),
            )
        } else if level_of(runlevel) < old(db).enabled.len() && old(db)@.enabled[level_of(
            runlevel,
        ) as int].contains(unit@.name) {
            &&& *final(db) == *old(db)
            &&& res is Err
            &&& res->Err_0@ == ErrorView::plain(FailureView::Message("unit already enabled"@))
        } else {
            &&& enabled_in(old(db)@, unit@, level_of(runlevel) as int, final(db)@)
            &&& match res {
                Ok(()) => final(db)@.coherent(),
                Err(e) => final(db)@.broken_at(final(db).levels.len() as int) && is_build_failure(
                    final(db)@.unit_infos,
                    final(db)@.enabled[final(db).levels.len() as int],
                    e@,
                ),
            }
        },
{
    let level = match runlevel {
        Some(level) => level,
        None => 1,
    };
    if level > db.enabled.len() {
        let text = String::from_str("cannot create level ").concat(to_decimal(level as u64).as_str());
        return Err(Error::new(ErrorKind::Unrecoverable, None, Failure::With(WithError(text))));
    }
    if level < db.enabled.len() && db.enabled[level].contains(&unit.name) {
        return Err(
            Error::new(
                ErrorKind::Unrecoverable,
                None,
                Failure::Static(StaticError("unit already enabled")),
            ),
        );
    }
    let ghost before = db@.enabled;
    if level == db.enabled.len() {
        db.enabled.push(NameSet::new());
    }
    let ghost room = with_room(before, level as int);
    assert(enabled_sets(db.enabled@) =~= room);
    db.enabled[level].insert(unit.name.clone());
    assert(enabled_sets(db.enabled@) =~= room.update(level as int, room[level as int].insert(unit@.name)));
    let info = unit.get_unit_info();
    db.unit_infos.insert(info);
    put_unit(&mut db.units, unit);
    db.rebuild_levels()
}

/// Disables a unit at a level, the second where none is named, forgets
/// what is known of it, and plans the levels anew. A unit that is not
/// enabled at the level cannot be disabled; the database then stays as it
/// is.
pub fn disable(db: &mut Database, name: &UnitName, runlevel: Option<usize>) -> (res: Result<
    (),
    Error,
>)
    requires
        level_of(runlevel) < old(db).enabled.len(),
    ensures
        if !old(db)@.enabled[level_of(runlevel) as int].contains(name@) {
            &&& *final(db) == *old(db)
            &&& res is Err
            &&& res->Err_0@ == ErrorView::plain(FailureView::Message("unit was not enabled"@))
        } else {
            &&& disabled_in(old(db)@, name@, level_of(runlevel) as int, final(db)@)
            &&& match res {
                Ok(()) => final(db)@.coherent(),
                Err(e) => final(db)@.broken_at(final(db).levels.len() as int) && is_build_failure(
                    final(db)@.unit_infos,
                    final(db)@.enabled[final(db).levels.len() as int],
                    e@,
                ),
            }
        },
{
    let level = match runlevel {
        Some(level) => level,
        None => 1,
    };
    if !db.enabled[level].contains(name) {
        return Err(
            Error::new(
                ErrorKind::Unrecoverable,
                None,
                Failure::Static(StaticError("unit was not enabled")),
            ),
        );
    }
    let ghost before = db@.enabled;
    db.enabled[level].remove(name);
    assert(enabled_sets(db.enabled@) =~= before.update(
        level as int,
        before[level as int].remove(name@),
    ));
    db.unit_infos.remove(name);
    take_unit(&mut db.units, name);
    db.rebuild_levels()
}

/// A line for each of `names`: the name behind `prefix`.
pub open spec fn name_lines(names: Seq<Seq<char>>, prefix: Seq<char>) -> Seq<Seq<char>>
    decreases names.len(),
{
    if names.len() == 0 {
        Seq::empty()
    } else {
        name_lines(names.drop_last(), prefix).push(prefix + names.last())
    }
}

/// The lines of the waves of a level, each wave under a heading with its
/// number.
pub open spec fn plan_lines(waves: Seq<Seq<Seq<char>>>) -> Seq<Seq<char>>
    decreases waves.len(),
{
    if waves.len() == 0 {
        Seq::empty()
    } else {
        plan_lines(waves.drop_last()).push("|> group "@ + decimal((waves.len() - 1) as nat))
            + name_lines(waves.last(), "    |> "@)
    }
}

/// The lines of the units of a level, wave after wave without headings.
pub open spec fn flat_lines(waves: Seq<Seq<Seq<char>>>) -> Seq<Seq<char>>
    decreases waves.len(),
{
    if waves.len() == 0 {
        Seq::empty()
    } else {
        flat_lines(waves.drop_last()) + name_lines(waves.last(), "|> "@)
    }
}

/// The lines that list the levels: each level under a heading with its
/// number, with its waves set apart where `plan` asks for that.
pub open spec fn list_lines(levels: Seq<Seq<Seq<Seq<char>>>>, plan: bool) -> Seq<Seq<char>>
    decreases levels.len(),
{
    if levels.len() == 0 {
        Seq::empty()
    } else {
        list_lines(levels.drop_last(), plan).push("level "@ + decimal((levels.len() - 1) as nat)) + if plan {
            plan_lines(levels.last())
        } else {
            flat_lines(levels.last())
        }
    }
}

fn push_names(names: &Vec<UnitName>, prefix: &str, lines: &mut Vec<String>)
    ensures
        final(lines).deep_view() == old(lines).deep_view() + name_lines(names.deep_view(), prefix@),
{
    let ghost list = names.deep_view();
    let ghost base = lines.deep_view();
    let mut i: usize = 0;
    assert(list.subrange(0, 0) =~= Seq::<Seq<char>>::empty());
    assert(lines.deep_view() =~= base + name_lines(list.subrange(0, 0), prefix@));
    while i < names.len()
        invariant
            i <= names.len(),
            list == names.deep_view(),
            lines.deep_view() == base + name_lines(list.subrange(0, i as int), prefix@),
        decreases names.len() - i,
    {
        let ghost before = lines.deep_view();
        proof {
            let longer = list.subrange(0, i + 1);
            assert(longer.drop_last() =~= list.subrange(0, i as int));
            assert(longer.last() == names[i as int]@);
        }
        let line = String::from_str(prefix).concat(names[i].as_str());
        lines.push(line);
        assert(lines.deep_view() =~= before.push(prefix@ + names[i as int]@));
        assert(lines.deep_view() =~= base + name_lines(list.subrange(0, i + 1), prefix@));
        i += 1;
    }
    assert(list.subrange(0, names.len() as int) =~= list);
}

fn push_level(groups: &Vec<Vec<UnitName>>, plan: bool, lines: &mut Vec<String>)
    ensures
        final(lines).deep_view() == old(lines).deep_view() + if plan {
            plan_lines(name_lists(groups@))
        } else {
            flat_lines(name_lists(groups@))
        },
{
    let ghost waves = name_lists(groups@);
    let ghost base = lines.deep_view();
    let mut o: usize = 0;
    assert(waves.subrange(0, 0) =~= Seq::<Seq<Seq<char>>>::empty());
    assert(lines.deep_view() =~= base + plan_lines(waves.subrange(0, 0)));
    assert(lines.deep_view() =~= base + flat_lines(waves.subrange(0, 0)));
    while o < groups.len()
        invariant
            o <= groups.len(),
            waves == name_lists(groups@),
            lines.deep_view() == base + if plan {
                plan_lines(waves.subrange(0, o as int))
            } else {
                flat_lines(waves.subrange(0, o as int))
            },
        decreases groups.len() - o,
    {
        let ghost before = lines.deep_view();
        proof {
            let longer = waves.subrange(0, o + 1);
            assert(longer.drop_last() =~= waves.subrange(0, o as int));
            assert(longer.last() == groups[o as int].deep_view());
        }
        if plan {
            let head = String::from_str("|> group ").concat(to_decimal(o as u64).as_str());
            lines.push(head);
            let ghost headed = lines.deep_view();
            assert(headed =~= before.push("|> group "@ + decimal(o as nat)));
            push_names(&groups[o], "    |> ", lines);
            proof {
                let shorter = plan_lines(waves.subrange(0, o as int));
                let names = name_lines(groups[o as int].deep_view(), "    |> "@);
                assert(lines.deep_view() =~= base + (shorter.push("|> group "@ + decimal(o as nat))
                    + names));
            }
        } else {
            push_names(&groups[o], "|> ", lines);
            proof {
                let shorter = flat_lines(waves.subrange(0, o as int));
                let names = name_lines(groups[o as int].deep_view(), "|> "@);
                assert(lines.deep_view() =~= base + (shorter + names));
            }
        }
        o += 1;
    }
    assert(waves.subrange(0, groups.len() as int) =~= waves);
}

/// Lists the levels of a database with their units, line by line.
pub fn list(db: &Database, plan: bool) -> (lines: Vec<String>)
    ensures
        lines.deep_view() == list_lines(db@.levels, plan),
{
    let ghost levels = db@.levels;
    let mut lines: Vec<String> = Vec::new();
    let mut i: usize = 0;
    assert(levels.subrange(0, 0) =~= Seq::<Seq<Seq<Seq<char>>>>::empty());
    assert(lines.deep_view() =~= list_lines(levels.subrange(0, 0), plan));
    while i < db.levels.len()
        invariant
            i <= db.levels.len(),
            levels == db@.levels,
            lines.deep_view() == list_lines(levels.subrange(0, i as int), plan),
        decreases db.levels.len() - i,
    {
        let ghost before = lines.deep_view();
        proof {
            let longer = levels.subrange(0, i + 1);
            assert(longer.drop_last() =~= levels.subrange(0, i as int));
            assert(longer.last() == db.levels[i as int]@);
        }
        let head = String::from_str("level ").concat(to_decimal(i as u64).as_str());
        lines.push(head);
        assert(lines.deep_view() =~= before.push("level "@ + decimal(i as nat)));
        push_level(db.levels[i].get_order(), plan, &mut lines);
        i += 1;
    }
    assert(levels.subrange(0, db.levels.len() as int) =~= levels);
    lines
}

} // verus!
