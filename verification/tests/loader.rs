use kanit::db::catalogue::Catalogue;
use kanit::db::{Database, DbUnit};
use kanit::error::{Error, ErrorKind, Failure};
use kanit::loader::{names_of, Loader, Stored};
use kanit::names::NameSet;
use kanit::supervisor::SupervisorBuilder;
use kanit::unit::{Dependencies, UnitInfo, UnitKind};

fn info(name: &str, needs: &[&str]) -> UnitInfo {
    let mut dependencies = Dependencies::new();
    for need in needs {
        dependencies.need(need.to_string());
    }
    UnitInfo {
        name: name.to_string(),
        dependencies,
    }
}

fn set(names: &[&str]) -> NameSet {
    NameSet::from_names(&names.iter().map(|n| n.to_string()).collect())
}

fn declared(name: &str) -> DbUnit {
    DbUnit {
        name: name.to_string(),
        kind: UnitKind::Daemon,
        description: None,
        before: vec![],
        after: vec![],
        needs: vec![],
        uses: vec![],
        wants: vec![],
        supervisor_opts: SupervisorBuilder::new(name.to_string(), vec![]).build(),
        pid: 0,
    }
}

fn database(units: Vec<DbUnit>) -> Database {
    let mut cat = Catalogue::new();
    cat.insert(info("a", &["b"]));
    cat.insert(info("b", &[]));
    for unit in units.iter() {
        cat.insert(unit.get_unit_info());
    }
    Database::new(units, cat, vec![set(&["a"]), set(&["svc"])]).unwrap()
}

fn started(loader: &Loader) -> Vec<Vec<String>> {
    loader.started.iter().map(|s| s.names().clone()).collect()
}

#[test]
fn a_database_that_was_read_is_taken() {
    let (loader, units) =
        Loader::initialize(Stored::Loaded(database(vec![declared("svc")])), || {
            Err(Error::new(ErrorKind::Unrecoverable, None, Failure::Absent))
        })
        .unwrap();
    assert!(!loader.defaulted);
    assert_eq!(units.len(), 1);
    assert!(loader.get_unit(&"svc".to_string()));
    assert!(!loader.get_unit(&"a".to_string()));
    assert_eq!(loader.get_levels(), 2);
    assert_eq!(started(&loader), vec![Vec::<String>::new(), vec![]]);
    assert!(loader.database().units.is_empty());
}

#[test]
fn without_a_database_the_default_is_taken_and_kept_later() {
    let (loader, units) = Loader::initialize(Stored::Missing, || Ok(database(vec![]))).unwrap();
    assert!(loader.defaulted);
    assert!(units.is_empty());
    assert_eq!(loader.get_levels(), 2);
}

#[test]
fn a_database_that_cannot_be_read_is_not_written_over() {
    let (loader, _) = Loader::initialize(Stored::Unreadable, || Ok(database(vec![]))).unwrap();
    assert!(!loader.defaulted);
}

#[test]
fn a_default_that_cannot_be_made_fails_the_loader() {
    let failed = Loader::initialize(Stored::Missing, || {
        Err(Error::new(ErrorKind::Unrecoverable, None, Failure::CyclicDependency))
    });
    assert!(matches!(failed.unwrap_err().original, Failure::CyclicDependency));
}

#[test]
fn started_units_are_noted_level_by_level() {
    let (mut loader, _) = Loader::with_database(database(vec![]), false);
    assert!(!loader.is_started(0, &"a".to_string()));
    loader.mark_started(0, "a".to_string());
    loader.mark_started(0, "a".to_string());
    loader.mark_started(1, "b".to_string());
    loader.mark_started(7, "c".to_string());
    assert!(loader.is_started(0, &"a".to_string()));
    assert!(!loader.is_started(1, &"a".to_string()));
    assert!(loader.is_started(1, &"b".to_string()));
    assert!(!loader.is_started(7, &"c".to_string()));
    assert_eq!(started(&loader), vec![vec!["a"], vec!["b"]]);
    loader.mark_stopped(0, &"a".to_string());
    loader.mark_stopped(0, &"never".to_string());
    loader.mark_stopped(9, &"b".to_string());
    assert_eq!(started(&loader), vec![vec![], vec!["b".to_string()]]);
}

#[test]
fn the_map_says_what_a_level_yields() {
    let (mut loader, _) = Loader::with_database(database(vec![declared("svc")]), false);
    assert_eq!(loader.get_level(0), vec![Vec::<String>::new(), vec![]]);
    loader.extend_map(vec!["a".to_string(), "b".to_string(), "a".to_string()]);
    assert_eq!(loader.get_level(0), vec![vec!["b"], vec!["a"]]);
    assert_eq!(loader.get_level(1), vec![vec!["svc"]]);
    assert!(loader.get_level(2).is_empty());
    assert_eq!(loader.map.names().len(), 3);
}

#[test]
fn reloading_the_same_database_changes_neither_plans_nor_what_is_up() {
    let (mut loader, _) = Loader::with_database(database(vec![declared("svc")]), true);
    loader.extend_map(vec!["a".to_string()]);
    loader.mark_started(0, "a".to_string());
    loader.mark_started(1, "svc".to_string());
    let up = started(&loader);
    let plans: Vec<_> = loader
        .database()
        .levels
        .iter()
        .map(|l| l.get_order().clone())
        .collect();
    let units = loader.reload(database(vec![declared("svc")]));
    assert_eq!(units.len(), 1);
    assert_eq!(started(&loader), up);
    let again: Vec<_> = loader
        .database()
        .levels
        .iter()
        .map(|l| l.get_order().clone())
        .collect();
    assert_eq!(again, plans);
    assert!(loader.defaulted);
    // the units that can be started are those of the database from now on
    assert!(loader.get_unit(&"svc".to_string()));
    assert!(!loader.get_unit(&"a".to_string()));
}

#[test]
fn names_of_declared_units() {
    let names = names_of(&vec![declared("x"), declared("y"), declared("x")]);
    assert_eq!(names.names(), &vec!["x".to_string(), "y".to_string()]);
}
