use kanit::cli::service::{disable, enable, list};
use kanit::db::catalogue::Catalogue;
use kanit::db::{Database, DbUnit};
use kanit::error::Failure;
use kanit::names::NameSet;
use kanit::supervisor::{RestartPolicy, SupervisorBuilder};
use kanit::unit::{Dependencies, Unit, UnitInfo, UnitKind};

fn info(name: &str, build: impl FnOnce(&mut Dependencies)) -> UnitInfo {
    let mut dependencies = Dependencies::new();
    build(&mut dependencies);
    UnitInfo {
        name: name.to_string(),
        dependencies,
    }
}

fn catalogue(units: Vec<UnitInfo>) -> Catalogue {
    let mut cat = Catalogue::new();
    for unit in units {
        cat.insert(unit);
    }
    cat
}

fn set(names: &[&str]) -> NameSet {
    NameSet::from_names(&names.iter().map(|n| n.to_string()).collect())
}

fn declared(name: &str, kind: UnitKind, needs: &[&str]) -> DbUnit {
    DbUnit {
        name: name.to_string(),
        kind,
        description: Some(format!("the unit {}", name)),
        before: vec![],
        after: vec![],
        needs: needs.iter().map(|n| n.to_string()).collect(),
        uses: vec![],
        wants: vec![],
        supervisor_opts: SupervisorBuilder::new(name.to_string(), vec![]).build(),
        pid: 0,
    }
}

fn order(db: &Database, level: usize) -> Vec<Vec<String>> {
    db.levels[level].get_order().clone()
}

fn sample() -> Database {
    let cat = catalogue(vec![
        info("net", |d| {
            d.need("dev".to_string());
        }),
        info("dev", |_| {}),
        info("tty", |d| {
            d.after("net".to_string());
        }),
    ]);
    Database::new(vec![], cat, vec![set(&["net"]), set(&["tty", "net"])]).unwrap()
}

#[test]
fn a_new_database_holds_the_plan_of_every_level() {
    let db = sample();
    assert_eq!(db.get_levels(), 2);
    assert_eq!(order(&db, 0), vec![vec!["dev"], vec!["net"]]);
    assert_eq!(order(&db, 1), vec![vec!["dev"], vec!["net"], vec!["tty"]]);
}

#[test]
fn a_database_with_a_broken_level_is_not_made() {
    let cat = catalogue(vec![info("a", |d| {
        d.need("ghost".to_string());
    })]);
    let err = Database::new(vec![], cat, vec![set(&[]), set(&["a"])]).unwrap_err();
    assert!(matches!(err.original, Failure::AbsentDependency(_)));
}

#[test]
fn rebuilding_follows_what_is_enabled() {
    let mut db = sample();
    db.enabled[0].insert("tty".to_string());
    // the plan is stale until the levels are planned anew
    assert_eq!(order(&db, 0).len(), 2);
    db.rebuild_levels().unwrap();
    assert_eq!(order(&db, 0), vec![vec!["dev"], vec!["net"], vec!["tty"]]);
    let same = db.clone();
    db.rebuild_levels().unwrap();
    assert_eq!(order(&db, 0), order(&same, 0));
    assert_eq!(order(&db, 1), order(&same, 1));
}

#[test]
fn rebuilding_stops_at_the_first_level_without_a_plan() {
    let mut db = sample();
    db.unit_infos.insert(info("dev", |d| {
        d.need("net".to_string());
    }));
    db.enabled.insert(0, set(&[]));
    let err = db.rebuild_levels().unwrap_err();
    assert!(matches!(err.original, Failure::CyclicDependency));
    assert_eq!(db.levels.len(), 1);
    assert!(order(&db, 0).is_empty());
    assert_eq!(db.enabled.len(), 3);
}

#[test]
fn get_level_leaves_out_what_the_map_does_not_hold() {
    let db = sample();
    assert_eq!(
        db.get_level(&set(&["dev", "tty"]), 1),
        vec![vec!["dev".to_string()], vec![], vec!["tty".to_string()]]
    );
    assert!(db.get_level(&set(&["dev"]), 2).is_empty());
}

#[test]
fn get_base_map_hands_out_the_declared_units() {
    let cat = catalogue(vec![]);
    let mut db = Database::new(
        vec![declared("x", UnitKind::Daemon, &[])],
        cat,
        vec![],
    )
    .unwrap();
    let units = db.get_base_map();
    assert_eq!(units.len(), 1);
    assert_eq!(units[0].name, "x");
    assert!(db.units.is_empty());
}

#[test]
fn a_declared_unit_tells_its_relations_and_starts_its_supervisor() {
    let mut unit = declared("job", UnitKind::Oneshot, &["net"]);
    unit.wants.push("log".to_string());
    unit.before.push("late".to_string());
    unit.after.push("early".to_string());
    unit.uses.push("tool".to_string());
    let info = unit.get_unit_info();
    assert_eq!(info.name, "job");
    assert_eq!(info.dependencies.needs, vec!["net"]);
    assert_eq!(info.dependencies.wants, vec!["log"]);
    assert_eq!(info.dependencies.before, vec!["late"]);
    assert_eq!(info.dependencies.after, vec!["early"]);
    assert_eq!(info.dependencies.uses, vec!["tool"]);
    assert_eq!(unit.name(), "job");
    assert_eq!(unit.description(), Some("the unit job".to_string()));
    let launch = unit.start();
    assert_eq!(launch.program, "kanit-supervisor");
    assert_eq!(launch.args, vec!["-P", "on-failure", "--", "job"]);
    assert_eq!(
        unit.supervisor_opts.restart_policy,
        Some(RestartPolicy::OnFailure)
    );
    unit.started(41);
    assert_eq!(unit.pid(), 41);

    let mut daemon = declared("svc", UnitKind::Daemon, &[]);
    assert_eq!(daemon.start().args, vec!["--", "svc"]);
    assert_eq!(daemon.supervisor_opts.restart_policy, None);
    assert_eq!(daemon.clone().name, "svc");
}

#[test]
fn enabling_adds_the_unit_and_plans_anew() {
    let mut db = sample();
    enable(&mut db, declared("shell", UnitKind::Daemon, &["tty"]), None).unwrap();
    assert_eq!(
        order(&db, 1),
        vec![vec!["dev"], vec!["net"], vec!["tty"], vec!["shell"]]
    );
    assert!(db.enabled[1].contains(&"shell".to_string()));
    assert!(db.unit_infos.contains_key(&"shell".to_string()));
    assert_eq!(db.units.len(), 1);
    // a second time at the same level it is refused
    let err = enable(&mut db, declared("shell", UnitKind::Daemon, &[]), Some(1)).unwrap_err();
    assert_eq!(err.to_string(), "unit already enabled");
    assert_eq!(db.units[0].needs, vec!["tty"]);
    // at another level it takes the place of the unit of its name
    enable(&mut db, declared("shell", UnitKind::Daemon, &[]), Some(0)).unwrap();
    assert_eq!(db.units.len(), 1);
    assert!(db.units[0].needs.is_empty());
    assert_eq!(order(&db, 0), vec![vec!["dev", "shell"], vec!["net"]]);
}

#[test]
fn enabling_makes_the_level_after_the_last_and_none_further_on() {
    let mut db = sample();
    enable(&mut db, declared("x", UnitKind::Oneshot, &[]), Some(2)).unwrap();
    assert_eq!(db.enabled.len(), 3);
    assert_eq!(order(&db, 2), vec![vec!["x"]]);
    let err = enable(&mut db, declared("y", UnitKind::Oneshot, &[]), Some(4)).unwrap_err();
    assert_eq!(err.to_string(), "cannot create level 4");
    assert_eq!(db.enabled.len(), 3);
    assert!(!db.unit_infos.contains_key(&"y".to_string()));
}

#[test]
fn enabling_a_unit_that_breaks_the_plan_fails() {
    let mut db = sample();
    let err = enable(&mut db, declared("x", UnitKind::Oneshot, &["ghost"]), Some(0)).unwrap_err();
    assert!(matches!(&err.original, Failure::AbsentDependency(n) if n == "ghost"));
}

#[test]
fn disabling_forgets_the_unit() {
    let mut db = sample();
    enable(&mut db, declared("shell", UnitKind::Daemon, &["tty"]), None).unwrap();
    disable(&mut db, &"shell".to_string(), None).unwrap();
    assert!(!db.enabled[1].contains(&"shell".to_string()));
    assert!(!db.unit_infos.contains_key(&"shell".to_string()));
    assert!(db.units.is_empty());
    assert_eq!(order(&db, 1), vec![vec!["dev"], vec!["net"], vec!["tty"]]);
    let err = disable(&mut db, &"shell".to_string(), Some(1)).unwrap_err();
    assert_eq!(err.to_string(), "unit was not enabled");
    // a unit that is not known any more is passed over where it is enabled
    disable(&mut db, &"net".to_string(), Some(0)).unwrap();
    assert!(order(&db, 0).is_empty());
    assert_eq!(order(&db, 1), vec![vec!["tty"]]);
}

#[test]
fn disabling_a_unit_that_is_needed_breaks_the_plan() {
    let mut db = sample();
    enable(&mut db, declared("dev", UnitKind::Oneshot, &[]), Some(0)).unwrap();
    let err = disable(&mut db, &"dev".to_string(), Some(0)).unwrap_err();
    assert!(matches!(&err.original, Failure::AbsentDependency(n) if n == "dev"));
    assert!(db.levels.is_empty());
}

#[test]
fn listing_shows_levels_waves_and_units() {
    let db = sample();
    assert_eq!(
        list(&db, false),
        vec!["level 0", "|> dev", "|> net", "level 1", "|> dev", "|> net", "|> tty"]
    );
    assert_eq!(
        list(&db, true),
        vec![
            "level 0",
            "|> group 0",
            "    |> dev",
            "|> group 1",
            "    |> net",
            "level 1",
            "|> group 0",
            "    |> dev",
            "|> group 1",
            "    |> net",
            "|> group 2",
            "    |> tty",
        ]
    );
}
