use crate::db::database::{enabled_sets, kept_waves, Database, DatabaseView};
use crate::db::level::name_lists;
use crate::db::unit::DbUnit;
use crate::error::Error;
use crate::names::NameSet;
use crate::unit::UnitName;
use vstd::prelude::*;

verus! {

/// What was found where the database is kept.
#[derive(Debug)]
pub enum Stored {
    /// There is no database yet.
    Missing,
    /// There is one, and it cannot be read.
    Unreadable,
    /// The database that was read.
    Loaded(Database),
}

/// The state of the running system: the database, the units that can be
/// started and stopped, and the units that are up at each level.
#[derive(Debug)]
pub struct Loader {
    /// Whether the system runs on the built-in database because none was
    /// kept so far.
    pub defaulted: bool,
    /// The units that are up, level by level.
    pub started: Vec<NameSet>,
    /// The names of the units that can be started and stopped.
    pub map: NameSet,
    pub database: Database,
}

/// The mathematical content of a [`Loader`].
pub ghost struct LoaderView {
    pub defaulted: bool,
    pub started: Seq<Set<Seq<char>>>,
    pub map: Set<Seq<char>>,
    pub database: DatabaseView,
}

impl View for Loader {
    type V = LoaderView;

    open spec fn view(&self) -> LoaderView {
        LoaderView {
            defaulted: self.defaulted,
            started: enabled_sets(self.started@),
            map: self.map@,
            database: self.database@,
        }
    }
}

/// The names of `units`.
pub open spec fn unit_names(units: Seq<DbUnit>) -> Set<Seq<char>> {
    Set::new(|name: Seq<char>| exists|i: int| 0 <= i < units.len() && (#[trigger] units[i]).name@ == name)
}

/// Collects the names of the declared units.
pub fn names_of(units: &Vec<DbUnit>) -> (res: NameSet)
    ensures
        res@ == unit_names(units@),
{
    let mut res = NameSet::new();
    let mut i: usize = 0;
    while i < units.len()
        invariant
            i <= units.len(),
            forall|name: Seq<char>|
                res@.contains(name) <==> exists|k: int|
                    0 <= k < i && (#[trigger] units[k]).name@ == name,
        decreases units.len() - i,
    {
        let ghost before = res@;
        res.insert(units[i].name.clone());
        proof {
            assert forall|name: Seq<char>|
                res@.contains(name) <==> exists|k: int|
                    0 <= k < i + 1 && (#[trigger] units[k]).name@ == name by {
                if before.contains(name) {
                    let k = choose|k: int| 0 <= k < i && (#[trigger] units[k]).name@ == name;
                    assert(0 <= k < i + 1 && units[k].name@ == name);
                }
                if name == units[i as int].name@ {
                }
            }
        }
        i += 1;
    }
    assert(res@ =~= unit_names(units@));
    res
}

/// As many empty sets as `count`.
fn empty_sets(count: usize) -> (res: Vec<NameSet>)
    ensures
        res.len() == count,
        forall|l: int| 0 <= l < count ==> (#[trigger] res[l])@ == Set::<Seq<char>>::empty(),
{
    let mut res: Vec<NameSet> = Vec::new();
    let mut i: usize = 0;
    while i < count
        invariant
            i <= count,
            res.len() == i,
            forall|l: int| 0 <= l < i ==> (#[trigger] res[l])@ == Set::<Seq<char>>::empty(),
        decreases count - i,
    {
        res.push(NameSet::new());
        i += 1;
    }
    res
}

impl Loader {
    /// A loader on `database`, with nothing started. The declared units of
    /// the database are handed out, to be started and stopped under their
    /// names.
    pub fn with_database(database: Database, defaulted: bool) -> (res: (Self, Vec<DbUnit>))
        ensures
            res.1 == database.units,
            res.0.defaulted == defaulted,
            res.0.database@ == (DatabaseView { units: Seq::empty(), ..database@ }),
            res.0.database.levels == database.levels,
            res.0.map@ == unit_names(database.units@),
            res.0.started.len() == database.levels.len(),
            forall|l: int|
                0 <= l < res.0.started.len() ==> (#[trigger] res.0.started[l])@ == Set::<
                    Seq<char>,
                >::empty(),
    {
        let mut database = database;
        let units = database.get_base_map();
        let map = names_of(&units);
        let started = empty_sets(database.levels.len());
        assert(database.units.deep_view() =~= Seq::empty());
        (Loader { defaulted, started, map, database }, units)
    }

    /// Sets the loader up from what was found where the database is kept.
    ///
    /// A database that was read is taken. Where none could be read, the
    /// one that `default` makes is taken; it counts as not kept so far
    /// only where none was found at all, so that one that cannot be read
    /// is never written over.
    pub fn initialize<F: FnOnce() -> Result<Database, Error>>(stored: Stored, default: F) -> (res:
        Result<(Self, Vec<DbUnit>), Error>)
        requires
            !(stored is Loaded) ==> default.requires(()),
        ensures
            match stored {
                Stored::Loaded(db) => res is Ok && !res->Ok_0.0.defaulted && res->Ok_0.1 == db.units
                    && res->Ok_0.0.database@ == (DatabaseView { units: Seq::empty(), ..db@ }),
                _ => exists|made: Result<Database, Error>|
                    {
                        &&& #[trigger] default.ensures((), made)
                        &&& match made {
                            Ok(db) => res is Ok && res->Ok_0.0.defaulted == (stored is Missing)
                                && res->Ok_0.1 == db.units && res->Ok_0.0.database@ == (DatabaseView {
                                units: Seq::empty(),
                                ..db@
                            }),
                            Err(e) => res is Err && res->Err_0 == e,
                        }
                    },
            },
            res is Ok ==> res->Ok_0.0.map@ == unit_names(res->Ok_0.1@) && res->Ok_0.0.started.len()
                == res->Ok_0.0.database.levels.len() && forall|l: int|
                0 <= l < res->Ok_0.0.started.len() ==> (#[trigger] res->Ok_0.0.started[l])@ == Set::<
                    Seq<char>,
                >::empty(),
    {
        match stored {
            Stored::Loaded(db) => Ok(Loader::with_database(db, false)),
            Stored::Missing => {
                match default() {
                    Ok(db) => Ok(Loader::with_database(db, true)),
                    Err(e) => Err(e),
                }
            },
            Stored::Unreadable => {
                match default() {
                    Ok(db) => Ok(Loader::with_database(db, false)),
                    Err(e) => Err(e),
                }
            },
        }
    }

    /// Takes over a database that was read anew. What is started stays as
    /// it is; the units that can be started and stopped are from now on
    /// the declared units of that database, which are handed out.
    pub fn reload(&mut self, database: Database) -> (res: Vec<DbUnit>)
        ensures
            res == database.units,
            final(self).started == old(self).started,
            final(self).defaulted == old(self).defaulted,
            final(self).map@ == unit_names(database.units@),
            final(self).database@ == (DatabaseView { units: Seq::empty(), ..database@ }),
    {
        let mut database = database;
        let units = database.get_base_map();
        self.map = names_of(&units);
        self.database = database;
        assert(self.database.units.deep_view() =~= Seq::empty());
        units
    }

    /// Adds units that can be started and stopped.
    pub fn extend_map(&mut self, names: Vec<UnitName>)
        ensures
            final(self).started == old(self).started,
            final(self).defaulted == old(self).defaulted,
            final(self).database == old(self).database,
            forall|name: Seq<char>|
                final(self).map@.contains(name) <==> old(self).map@.contains(name)
                    || names.deep_view().contains(name),
    {
        let mut i: usize = 0;
        while i < names.len()
            invariant
                i <= names.len(),
                self.started == old(self).started,
                self.defaulted == old(self).defaulted,
                self.database == old(self).database,
                forall|name: Seq<char>|
                    self.map@.contains(name) <==> old(self).map@.contains(name) || exists|k: int|
                        0 <= k < i && #[trigger] names.deep_view()[k] == name,
            decreases names.len() - i,
        {
            let ghost before = self.map@;
            self.map.insert(names[i].clone());
            proof {
                assert forall|name: Seq<char>|
                    self.map@.contains(name) <==> old(self).map@.contains(name) || exists|k: int|
                        0 <= k < i + 1 && #[trigger] names.deep_view()[k] == name by {
                    if before.contains(name) && !old(self).map@.contains(name) {
                        let k = choose|k: int| 0 <= k < i && #[trigger] names.deep_view()[k] == name;
                        assert(0 <= k < i + 1 && names.deep_view()[k] == name);
                    }
                    if name == names.deep_view()[i as int] {
                    }
                }
            }
            i += 1;
        }
    }

    /// How many levels there are.
    pub fn get_levels(&self) -> (res: usize)
        ensures
            res == self.database.levels.len(),
    {
        self.database.get_levels()
    }

    /// The waves of a level, each with those of its units that can be
    /// started and stopped.
    pub fn get_level(&self, level: usize) -> (res: Vec<Vec<UnitName>>)
        ensures
            name_lists(res@) == if level < self.database.levels.len() {
                kept_waves(self.database.levels[level as int]@, self.map@)
            } else {
                Seq::empty()
            },
    {
        self.database.get_level(&self.map, level)
    }

    /// Whether `name` can be started and stopped.
    pub fn get_unit(&self, name: &UnitName) -> (res: bool)
        ensures
            res == self.map@.contains(name@),
    {
        self.map.contains(name)
    }

    /// Notes that `name` is up at `level`; nothing where there is no such
    /// level.
    pub fn mark_started(&mut self, level: usize, name: UnitName)
        ensures
            final(self).defaulted == old(self).defaulted,
            final(self).map == old(self).map,
            final(self).database == old(self).database,
            final(self)@.started == if level < old(self).started.len() {
                old(self)@.started.update(level as int, old(self)@.started[level as int].insert(name@))
            } else {
                old(self)@.started
            },
    {
        if level < self.started.len() {
            self.started[level].insert(name);
            assert(self@.started =~= old(self)@.started.update(
                level as int,
                old(self)@.started[level as int].insert(name@),
            ));
        }
    }

    /// Notes that `name` is down at `level`; nothing where there is no
    /// such level.
    pub fn mark_stopped(&mut self, level: usize, name: &UnitName)
        ensures
            final(self).defaulted == old(self).defaulted,
            final(self).map == old(self).map,
            final(self).database == old(self).database,
            final(self)@.started == if level < old(self).started.len() {
                old(self)@.started.update(level as int, old(self)@.started[level as int].remove(name@))
            } else {
                old(self)@.started
            },
    {
        if level < self.started.len() {
            self.started[level].remove(name);
            assert(self@.started =~= old(self)@.started.update(
                level as int,
                old(self)@.started[level as int].remove(name@),
            ));
        }
    }

    /// Whether `name` is up at `level`.
    pub fn is_started(&self, level: usize, name: &UnitName) -> (res: bool)
        ensures
            res == (level < self.started.len() && self@.started[level as int].contains(name@)),
    {
        if level < self.started.len() {
            self.started[level].contains(name)
        } else {
            false
        }
    }

    /// The database of the running system.
    pub fn database(&self) -> (res: &Database)
        ensures
            *res == self.database,
    {
        &self.database
    }
}

} // verus!
