use kanit::sort::obtain_load_order;
use kanit::unit::{Dependencies, UnitInfo, UnitName};

struct NullUnit(&'static str, Dependencies);

impl NullUnit {
    fn name(&self) -> UnitName {
        UnitName::from(self.0)
    }

    fn dependencies(&self) -> Dependencies {
        self.1.clone()
    }
}

fn print_plan(units: &Vec<Vec<UnitInfo>>) {
    for (i, order) in units.iter().enumerate() {
        println!("group {}", i);
        order.iter().for_each(|s| println!("|> {}", s.name));
    }
}

fn to_unit_info(units: Vec<NullUnit>) -> Vec<UnitInfo> {
    units
        .iter()
        .map(|u| UnitInfo {
            name: u.name(),
            dependencies: u.dependencies(),
        })
        .collect()
}

fn names(order: &Vec<Vec<UnitInfo>>) -> Vec<Vec<String>> {
    order
        .iter()
        .map(|wave| wave.iter().map(|u| u.name.clone()).collect())
        .collect()
}

#[test]
fn simple_generate_order() {
    let c = NullUnit("c", Dependencies::new());
    let d = NullUnit("d", Dependencies::new());
    let b = NullUnit("b", Dependencies::new().need(d.name()).clone());
    let a = NullUnit(
        "a",
        Dependencies::new().need(b.name()).need(c.name()).clone(),
    );

    let units = vec![a, b, c, d];

    if let Ok(order) = obtain_load_order(to_unit_info(units)) {
        print_plan(&order);
    }
}

#[test]
fn complex_generate_order() {
    let f = NullUnit("2", Dependencies::new());
    let g = NullUnit("9", Dependencies::new());
    let h = NullUnit("10", Dependencies::new());
    let e = NullUnit("8", Dependencies::new().need(g.name()).clone());

    let c = NullUnit(
        "3",
        Dependencies::new().need(e.name()).need(h.name()).clone(),
    );
    let d = NullUnit(
        "11",
        Dependencies::new()
            .need(f.name())
            .need(g.name())
            .need(h.name())
            .clone(),
    );
    let b = NullUnit(
        "7",
        Dependencies::new().need(d.name()).need(e.name()).clone(),
    );

    let a = NullUnit("5", Dependencies::new().need(d.name()).clone());

    let units = vec![a, b, c, d, e, f, g, h];

    if let Ok(order) = obtain_load_order(to_unit_info(units)) {
        print_plan(&order);
    }
}

#[test]
fn cyclic_chain() {
    let a = NullUnit("a", Dependencies::new().need(UnitName::from("b")).clone());
    let b = NullUnit("b", Dependencies::new().need(UnitName::from("a")).clone());

    let units = vec![a, b];

    assert!(obtain_load_order(to_unit_info(units)).is_err());
}

#[test]
fn example_resolves_to_three_waves() {
    let c = NullUnit("c", Dependencies::new());
    let d = NullUnit("d", Dependencies::new());
    let b = NullUnit("b", Dependencies::new().need(d.name()).clone());
    let a = NullUnit(
        "a",
        Dependencies::new().need(b.name()).need(c.name()).clone(),
    );
    let order = obtain_load_order(to_unit_info(vec![a, b, c, d])).unwrap();
    let mut waves = names(&order);
    assert_eq!(waves.len(), 3);
    waves[0].sort();
    assert_eq!(waves[0], vec!["c".to_string(), "d".to_string()]);
    assert_eq!(waves[1], vec!["b".to_string()]);
    assert_eq!(waves[2], vec!["a".to_string()]);
}

fn info(name: &str, build: impl FnOnce(&mut Dependencies)) -> UnitInfo {
    let mut dependencies = Dependencies::new();
    build(&mut dependencies);
    UnitInfo {
        name: name.to_string(),
        dependencies,
    }
}

fn resolved(units: Vec<UnitInfo>) -> Vec<Vec<String>> {
    names(&obtain_load_order(units).unwrap())
}

#[test]
fn waves_list_later_units_first() {
    let units = vec![info("x", |_| {}), info("y", |_| {}), info("z", |_| {})];
    assert_eq!(resolved(units), vec![vec!["z", "y", "x"]]);
}

#[test]
fn empty_input_gives_no_wave() {
    assert!(resolved(vec![]).is_empty());
}

#[test]
fn missing_need_fails_with_its_name() {
    let units = vec![
        info("a", |d| {
            d.need("ghost".to_string());
        }),
        info("b", |d| {
            d.need("phantom".to_string());
        }),
    ];
    let err = obtain_load_order(units).unwrap_err();
    assert!(!err.is_recoverable());
    assert!(matches!(&err.original, kanit::error::Failure::MissingDependency(n) if n == "ghost"));
    assert_eq!(
        err.to_string(),
        "failed to find needed dependency `ghost`"
    );
}

#[test]
fn missing_need_is_reported_before_a_cycle() {
    let units = vec![
        info("a", |d| {
            d.need("b".to_string());
        }),
        info("b", |d| {
            d.need("a".to_string());
            d.need("ghost".to_string());
        }),
    ];
    let err = obtain_load_order(units).unwrap_err();
    assert!(matches!(err.original, kanit::error::Failure::MissingDependency(_)));
}

#[test]
fn missing_want_is_passed_over() {
    let units = vec![
        info("a", |d| {
            d.want("ghost".to_string());
        }),
        info("b", |_| {}),
    ];
    assert_eq!(resolved(units), vec![vec!["b", "a"]]);
}

#[test]
fn want_orders_like_need() {
    let units = vec![
        info("a", |d| {
            d.want("b".to_string());
        }),
        info("b", |_| {}),
    ];
    assert_eq!(resolved(units), vec![vec!["b"], vec!["a"]]);
}

#[test]
fn after_orders_and_missing_after_is_passed_over() {
    let units = vec![
        info("a", |d| {
            d.after("b".to_string());
            d.after("ghost".to_string());
        }),
        info("b", |_| {}),
    ];
    assert_eq!(resolved(units), vec![vec!["b"], vec!["a"]]);
}

#[test]
fn before_orders_the_other_way() {
    let units = vec![
        info("a", |_| {}),
        info("b", |d| {
            d.before("a".to_string());
            d.before("ghost".to_string());
        }),
    ];
    assert_eq!(resolved(units), vec![vec!["b"], vec!["a"]]);
}

#[test]
fn uses_has_no_effect() {
    let units = vec![
        info("a", |d| {
            d.uses("b".to_string());
            d.uses("ghost".to_string());
        }),
        info("b", |_| {}),
    ];
    assert_eq!(resolved(units), vec![vec!["b", "a"]]);
}

#[test]
fn cycle_fails_as_cyclic() {
    let units = vec![
        info("a", |d| {
            d.need("b".to_string());
        }),
        info("b", |d| {
            d.after("c".to_string());
        }),
        info("c", |d| {
            d.before("a".to_string());
            d.want("a".to_string());
        }),
        info("free", |_| {}),
    ];
    let err = obtain_load_order(units).unwrap_err();
    assert!(matches!(err.original, kanit::error::Failure::CyclicDependency));
    assert!(!err.is_recoverable());
    assert_eq!(err.to_string(), "cyclic dependency detected");
}

#[test]
fn unit_that_needs_itself_is_cyclic() {
    let units = vec![info("a", |d| {
        d.need("a".to_string());
    })];
    let err = obtain_load_order(units).unwrap_err();
    assert!(matches!(err.original, kanit::error::Failure::CyclicDependency));
}

#[test]
fn a_name_stands_for_the_last_unit_that_bears_it() {
    let units = vec![
        info("dup", |d| {
            d.need("late".to_string());
        }),
        info("late", |_| {}),
        info("user", |d| {
            d.need("dup".to_string());
        }),
        info("dup", |_| {}),
    ];
    // `user` waits for the second `dup` only, which waits for nothing
    assert_eq!(
        resolved(units),
        vec![vec!["dup", "late"], vec!["user", "dup"]]
    );
}

#[test]
fn every_unit_comes_out_once_and_after_its_needs() {
    let units = vec![
        info("5", |d| {
            d.need("11".to_string());
        }),
        info("7", |d| {
            d.need("11".to_string());
            d.need("8".to_string());
        }),
        info("3", |d| {
            d.need("8".to_string());
            d.need("10".to_string());
        }),
        info("11", |d| {
            d.need("2".to_string());
            d.need("9".to_string());
            d.need("10".to_string());
        }),
        info("8", |d| {
            d.need("9".to_string());
        }),
        info("2", |_| {}),
        info("9", |_| {}),
        info("10", |_| {}),
    ];
    let waves = resolved(units);
    assert_eq!(
        waves,
        vec![
            vec!["10", "9", "2"],
            vec!["8", "11"],
            vec!["3", "7", "5"],
        ]
    );
}

#[test]
fn plan_waves_gives_positions() {
    let units = vec![
        info("a", |d| {
            d.need("b".to_string());
        }),
        info("b", |_| {}),
    ];
    assert_eq!(
        kanit::sort::plan_waves(&units).unwrap(),
        vec![vec![1usize], vec![0usize]]
    );
    assert_eq!(kanit::sort::find(&units, &"b".to_string()), Some(1));
    assert_eq!(kanit::sort::find(&units, &"c".to_string()), None);
}
