use kanit::db::catalogue::Catalogue;
use kanit::db::level::{close_over, Level};
use kanit::error::Failure;
use kanit::names::NameSet;
use kanit::unit::{Dependencies, UnitInfo};

fn info(name: &str, build: impl FnOnce(&mut Dependencies)) -> UnitInfo {
    let mut dependencies = Dependencies::new();
    build(&mut dependencies);
    UnitInfo {
        name: name.to_string(),
        dependencies,
    }
}

fn catalogue(units: Vec<UnitInfo>) -> Catalogue {
    let mut cat = Catalogue::new();
    for unit in units {
        cat.insert(unit);
    }
    cat
}

fn set(names: &[&str]) -> NameSet {
    NameSet::from_names(&names.iter().map(|n| n.to_string()).collect())
}

fn sorted(level: &Level) -> Vec<Vec<String>> {
    level
        .get_order()
        .iter()
        .map(|w| {
            let mut w = w.clone();
            w.sort();
            w
        })
        .collect()
}

fn chain() -> Catalogue {
    catalogue(vec![
        info("a", |d| {
            d.need("b".to_string());
        }),
        info("b", |d| {
            d.need("c".to_string());
            d.want("w".to_string());
        }),
        info("c", |_| {}),
        info("w", |d| {
            d.need("deep".to_string());
        }),
        info("deep", |_| {}),
        info("idle", |_| {}),
    ])
}

#[test]
fn level_holds_what_is_needed_and_wanted_all_the_way_down() {
    let level = Level::build(&chain(), &set(&["a"])).unwrap();
    assert_eq!(
        sorted(&level),
        vec![vec!["c", "deep"], vec!["w"], vec!["b"], vec!["a"]]
    );
}

#[test]
fn level_passes_over_enabled_names_that_are_not_known() {
    let level = Level::build(&chain(), &set(&["c", "nobody"])).unwrap();
    assert_eq!(sorted(&level), vec![vec!["c"]]);
}

#[test]
fn level_of_nothing_is_empty() {
    let level = Level::build(&chain(), &set(&[])).unwrap();
    assert!(level.get_order().is_empty());
}

#[test]
fn level_passes_over_wants_and_uses_that_are_not_known() {
    let cat = catalogue(vec![
        info("a", |d| {
            d.want("ghost".to_string());
            d.uses("b".to_string());
            d.uses("phantom".to_string());
        }),
        info("b", |_| {}),
    ]);
    let level = Level::build(&cat, &set(&["a"])).unwrap();
    assert_eq!(sorted(&level), vec![vec!["a"]]);
}

#[test]
fn level_fails_where_a_need_is_not_known() {
    let cat = catalogue(vec![
        info("a", |d| {
            d.need("b".to_string());
        }),
        info("b", |d| {
            d.need("ghost".to_string());
        }),
        info("c", |d| {
            d.need("phantom".to_string());
        }),
    ]);
    let err = Level::build(&cat, &set(&["a"])).unwrap_err();
    assert!(matches!(&err.original, Failure::AbsentDependency(n) if n == "ghost"));
    assert_eq!(err.to_string(), "failed to find dependency `ghost`");
    assert!(!err.is_recoverable());
    // what is not loaded may need what it likes
    assert!(Level::build(&cat, &set(&["c"])).is_err());
    let free = catalogue(vec![
        info("a", |_| {}),
        info("c", |d| {
            d.need("phantom".to_string());
        }),
    ]);
    assert!(Level::build(&free, &set(&["a"])).is_ok());
}

#[test]
fn level_fails_where_the_loaded_units_go_in_a_circle() {
    let cat = catalogue(vec![
        info("a", |d| {
            d.need("b".to_string());
        }),
        info("b", |d| {
            d.after("a".to_string());
        }),
        info("c", |_| {}),
    ]);
    let err = Level::build(&cat, &set(&["a"])).unwrap_err();
    assert!(matches!(err.original, Failure::CyclicDependency));
    assert!(Level::build(&cat, &set(&["c"])).is_ok());
}

#[test]
fn relations_to_units_that_are_not_loaded_do_not_count() {
    let cat = catalogue(vec![
        info("a", |d| {
            d.after("late".to_string());
        }),
        info("late", |d| {
            d.after("a".to_string());
        }),
    ]);
    // with both loaded this is a circle; with `a` alone it is none
    assert!(Level::build(&cat, &set(&["a", "late"])).is_err());
    let level = Level::build(&cat, &set(&["a"])).unwrap();
    assert_eq!(sorted(&level), vec![vec!["a"]]);
}

#[test]
fn close_over_lists_the_loaded_units_once() {
    let cat = chain();
    let mut work = close_over(cat.infos(), &set(&["a", "b", "a"])).unwrap();
    work.sort();
    assert_eq!(work, vec![0, 1, 2, 3, 4]);
    let missing = catalogue(vec![info("a", |d| {
        d.need("ghost".to_string());
    })]);
    assert_eq!(
        close_over(missing.infos(), &set(&["a"])).unwrap_err(),
        "ghost"
    );
}

#[test]
fn catalogue_keeps_one_unit_of_a_name() {
    let mut cat = Catalogue::new();
    assert!(cat.insert(info("a", |_| {})).is_none());
    assert!(cat.insert(info("b", |_| {})).is_none());
    let previous = cat
        .insert(info("a", |d| {
            d.need("b".to_string());
        }))
        .unwrap();
    assert!(previous.dependencies.needs.is_empty());
    assert_eq!(cat.len(), 2);
    assert_eq!(cat.get(&"a".to_string()).unwrap().dependencies.needs, vec!["b"]);
    assert!(cat.contains_key(&"b".to_string()));
    assert!(!cat.contains_key(&"c".to_string()));
    assert!(cat.get(&"c".to_string()).is_none());
    assert_eq!(cat.remove(&"a".to_string()).unwrap().name, "a");
    assert!(cat.remove(&"a".to_string()).is_none());
    assert_eq!(cat.len(), 1);
    assert_eq!(cat.clone().infos()[0].name, "b");
}

#[test]
fn name_sets_hold_each_name_once() {
    let mut names = NameSet::new();
    assert!(names.insert("a".to_string()));
    assert!(!names.insert("a".to_string()));
    assert!(names.insert("b".to_string()));
    assert!(names.contains(&"a".to_string()));
    assert_eq!(names.names(), &vec!["a".to_string(), "b".to_string()]);
    assert!(names.remove(&"a".to_string()));
    assert!(!names.remove(&"a".to_string()));
    assert!(!names.contains(&"a".to_string()));
    let left = set(&["a", "b", "c"]).difference(&set(&["b", "x"]));
    assert_eq!(left.names(), &vec!["a".to_string(), "c".to_string()]);
    assert_eq!(left.clone().names(), left.names());
}
