use kanit::control::{
    after_prepare, after_start, boot_order, critical_unit_fail, teardown_order, Critical, Prepared,
    Started, Wave,
};
use kanit::db::catalogue::Catalogue;
use kanit::db::level::Level;
use kanit::db::Database;
use kanit::error::{Error, ErrorKind, Failure};
use kanit::loader::Loader;
use kanit::names::NameSet;
use kanit::unit::{Dependencies, UnitInfo};

fn info(name: &str, needs: &[&str]) -> UnitInfo {
    let mut dependencies = Dependencies::new();
    for need in needs {
        dependencies.need(need.to_string());
    }
    UnitInfo {
        name: name.to_string(),
        dependencies,
    }
}

fn set(names: &[&str]) -> NameSet {
    NameSet::from_names(&names.iter().map(|n| n.to_string()).collect())
}

fn loader() -> Loader {
    let mut cat = Catalogue::new();
    cat.insert(info("a", &[]));
    cat.insert(info("b", &["a"]));
    cat.insert(info("c", &["a"]));
    cat.insert(info("x", &[]));
    cat.insert(info("hidden", &[]));
    let db = Database::new(
        vec![],
        cat,
        vec![set(&["b", "c", "hidden"]), set(&[]), set(&["x"])],
    )
    .unwrap();
    let (mut loader, _) = Loader::with_database(db, true);
    loader.extend_map(vec![
        "a".to_string(),
        "b".to_string(),
        "c".to_string(),
        "x".to_string(),
    ]);
    loader
}

fn flat(order: &Vec<Wave>) -> Vec<(usize, usize, Vec<String>)> {
    order
        .iter()
        .map(|w| (w.level, w.group, w.units.clone()))
        .collect()
}

#[test]
fn boot_walks_the_levels_up_and_each_level_wave_by_wave() {
    assert_eq!(
        flat(&boot_order(&loader())),
        vec![
            (0, 0, vec!["a".to_string()]),
            (0, 1, vec!["c".to_string(), "b".to_string()]),
            (2, 0, vec!["x".to_string()]),
        ]
    );
}

#[test]
fn teardown_walks_the_levels_down_and_each_level_as_planned() {
    assert_eq!(
        flat(&teardown_order(&loader())),
        vec![
            (2, 0, vec!["x".to_string()]),
            (0, 0, vec!["a".to_string()]),
            (0, 1, vec!["c".to_string(), "b".to_string()]),
        ]
    );
}

#[test]
fn a_wave_without_units_to_start_stays_in_the_order() {
    let mut loader = loader();
    loader.map.remove(&"a".to_string());
    assert_eq!(
        flat(&boot_order(&loader)),
        vec![
            (0, 0, vec![]),
            (0, 1, vec!["c".to_string(), "b".to_string()]),
            (2, 0, vec!["x".to_string()]),
        ]
    );
}

#[test]
fn preparations_decide_whether_a_unit_starts() {
    assert!(matches!(after_prepare(Ok(true)), Prepared::Go));
    assert!(matches!(after_prepare(Ok(false)), Prepared::Skip));
}

#[test]
fn a_unit_whose_preparation_fails_lightly_is_passed_over() {
    let light = Error::new(
        ErrorKind::Recoverable,
        Some("mounting".to_string()),
        Failure::Absent,
    );
    match after_prepare(Err(light)) {
        Prepared::Failed(e) => {
            assert!(e.is_recoverable());
            assert_eq!(e.context, Some("mounting".to_string()));
            assert!(matches!(e.original, Failure::Absent));
        }
        other => panic!("unexpected {other:?}"),
    }
}

#[test]
fn a_unit_whose_preparation_fails_gravely_is_critical() {
    let grave = Error::new(ErrorKind::Unrecoverable, None, Failure::UnknownUnit);
    match after_prepare(Err(grave)) {
        Prepared::Critical(e) => {
            assert!(!e.is_recoverable());
            assert_eq!(e.context, None);
            assert!(matches!(e.original, Failure::UnknownUnit));
            assert!(matches!(critical_unit_fail(e, Some("y")), Critical::Continue));
        }
        other => panic!("unexpected {other:?}"),
    }
}

#[test]
fn a_unit_of_two_levels_is_started_at_the_first_only() {
    let mut cat = Catalogue::new();
    cat.insert(info("a", &[]));
    cat.insert(info("b", &["a"]));
    cat.insert(info("d", &["a"]));
    let db = Database::new(vec![], cat, vec![set(&["b"]), set(&["d", "b"])]).unwrap();
    let (mut loader, _) = Loader::with_database(db, true);
    loader.extend_map(vec!["a".to_string(), "b".to_string(), "d".to_string()]);
    assert_eq!(
        flat(&boot_order(&loader)),
        vec![
            (0, 0, vec!["a".to_string()]),
            (0, 1, vec!["b".to_string()]),
            (1, 0, vec![]),
            (1, 1, vec!["d".to_string()]),
        ]
    );
}

#[test]
fn a_name_that_a_plan_holds_twice_is_started_once() {
    let mut loader = loader();
    loader.database.levels = vec![
        Level(vec![
            vec!["a".to_string(), "a".to_string()],
            vec!["b".to_string(), "a".to_string()],
        ]),
        Level(vec![vec!["hidden".to_string(), "b".to_string(), "x".to_string()]]),
        Level(vec![vec!["x".to_string(), "c".to_string()]]),
    ];
    let order = boot_order(&loader);
    assert_eq!(
        flat(&order),
        vec![
            (0, 0, vec!["a".to_string()]),
            (0, 1, vec!["b".to_string()]),
            (1, 0, vec!["x".to_string()]),
            (2, 0, vec!["c".to_string()]),
        ]
    );
    let mut all: Vec<String> = order.iter().flat_map(|w| w.units.clone()).collect();
    let n = all.len();
    all.sort();
    all.dedup();
    assert_eq!(all.len(), n);
}

#[test]
fn a_failed_start_is_critical_unless_it_can_be_recovered_from() {
    assert!(matches!(after_start(Ok(())), Started::Up));
    let light = Error::new(ErrorKind::Recoverable, None, Failure::Absent);
    assert!(matches!(after_start(Err(light)), Started::Failed(_)));
    let grave = Error::new(ErrorKind::Unrecoverable, None, Failure::CyclicDependency);
    assert!(matches!(
        after_start(Err(grave)),
        Started::Critical(e) if matches!(e.original, Failure::CyclicDependency)
    ));
}

#[test]
fn a_critical_failure_is_put_to_the_operator() {
    let error = || Error::new(ErrorKind::Unrecoverable, None, Failure::UnknownUnit);
    assert!(matches!(critical_unit_fail(error(), None), Critical::Abort(_)));
    assert!(matches!(critical_unit_fail(error(), Some("y\n")), Critical::Continue));
    assert!(matches!(critical_unit_fail(error(), Some("yes")), Critical::Continue));
    assert!(matches!(
        critical_unit_fail(error(), Some("n\n")),
        Critical::Abort(e) if matches!(e.original, Failure::UnknownUnit)
    ));
    assert!(matches!(critical_unit_fail(error(), Some("")), Critical::Ask(_)));
    assert!(matches!(critical_unit_fail(error(), Some("\n")), Critical::Ask(_)));
    assert!(matches!(critical_unit_fail(error(), Some("Y")), Critical::Ask(_)));
    assert!(matches!(critical_unit_fail(error(), Some(" n")), Critical::Ask(_)));
}
