use kanit::db::catalogue::Catalogue;
use kanit::db::Database;
use kanit::error::{Error, ErrorKind, Failure};
use kanit::event::{
    command_of, conclude_step, nth_field, parse_command, pick_backward, pick_forward, plan_change,
    require_unit, starts_with, Command, StepResult,
};
use kanit::loader::Loader;
use kanit::names::NameSet;
use kanit::unit::{Dependencies, UnitInfo};

fn info(name: &str, build: impl FnOnce(&mut Dependencies)) -> UnitInfo {
    let mut dependencies = Dependencies::new();
    build(&mut dependencies);
    UnitInfo {
        name: name.to_string(),
        dependencies,
    }
}

fn set(names: &[&str]) -> NameSet {
    NameSet::from_names(&names.iter().map(|n| n.to_string()).collect())
}

fn loader(enabled: Vec<NameSet>) -> Loader {
    let mut cat = Catalogue::new();
    cat.insert(info("a", |_| {}));
    cat.insert(info("b", |d| {
        d.need("a".to_string());
    }));
    cat.insert(info("c", |d| {
        d.need("b".to_string());
        d.want("d".to_string());
    }));
    cat.insert(info("d", |_| {}));
    cat.insert(info("broken", |d| {
        d.need("ghost".to_string());
    }));
    let db = Database::new(vec![], cat, enabled).unwrap();
    let (mut loader, _) = Loader::with_database(db, false);
    loader.extend_map(vec![
        "a".to_string(),
        "b".to_string(),
        "c".to_string(),
        "d".to_string(),
    ]);
    loader
}

fn started(loader: &Loader, level: usize) -> Vec<String> {
    let mut names = loader.started[level].names().clone();
    names.sort();
    names
}

#[test]
fn teardown_verbs() {
    assert!(matches!(parse_command(&b"halt".to_vec()), Ok(Command::Halt)));
    assert!(matches!(parse_command(&b"poweroff\n".to_vec()), Ok(Command::Poweroff)));
    assert!(matches!(parse_command(&b"reboot now".to_vec()), Ok(Command::Reboot)));
    assert!(matches!(parse_command(&b"kexec\0\0".to_vec()), Ok(Command::Kexec)));
    assert!(matches!(parse_command(&b"db-reload".to_vec()), Ok(Command::Reload)));
}

#[test]
fn anything_else_asks_for_nothing() {
    for text in ["", "hal", "Halt", " halt", "restart:a:1", "db-reloa", "sto:a:1"] {
        assert!(
            matches!(parse_command(&text.as_bytes().to_vec()), Ok(Command::Nothing)),
            "{:?}",
            text
        );
    }
}

#[test]
fn start_and_stop_name_a_unit_and_a_level() {
    assert!(matches!(
        parse_command(&b"start:tty:1".to_vec()),
        Ok(Command::Start { name, level: 1 }) if name == "tty"
    ));
    assert!(matches!(
        parse_command(&b"stop:getty@tty1: 12 \n".to_vec()),
        Ok(Command::Stop { name, level: 12 }) if name == "getty@tty1"
    ));
    assert!(matches!(
        parse_command(&b"start::0:more".to_vec()),
        Ok(Command::Start { name, level: 0 }) if name.is_empty()
    ));
    assert!(matches!(
        parse_command(&b"starting:x:+3".to_vec()),
        Ok(Command::Start { name, level: 3 }) if name == "x"
    ));
    assert!(matches!(
        parse_command(&[b"start:".as_slice(), &[0xff, b'z'], b":2".as_slice()].concat()),
        Ok(Command::Start { name, level: 2 }) if name == "\u{fffd}z"
    ));
}

#[test]
fn start_and_stop_lacking_parts_fail() {
    let e = parse_command(&b"start".to_vec()).unwrap_err();
    assert_eq!(
        e.to_string(),
        "failed to get name: attempted to unwrap 'None' value"
    );
    let e = parse_command(&b"stop:tty".to_vec()).unwrap_err();
    assert_eq!(
        e.to_string(),
        "failed to get level: attempted to unwrap 'None' value"
    );
    for text in ["start:tty:", "start:tty:one", "start:tty:-1", "start:tty:1\0", "stop:a:1 2"] {
        let e = parse_command(&text.as_bytes().to_vec()).unwrap_err();
        assert!(matches!(e.original, Failure::InvalidNumber), "{:?}", text);
        assert_eq!(e.context.as_deref(), Some("failed to parse level"));
        assert!(!e.is_recoverable());
    }
    let e = parse_command(&b"start:a:99999999999999999999999999".to_vec()).unwrap_err();
    assert!(matches!(e.original, Failure::InvalidNumber));
}

#[test]
fn command_of_reads_the_level() {
    assert!(matches!(
        command_of(true, "u".to_string(), "4"),
        Ok(Command::Start { name, level: 4 }) if name == "u"
    ));
    assert!(matches!(
        command_of(false, "u".to_string(), "0"),
        Ok(Command::Stop { name, level: 0 }) if name == "u"
    ));
    assert!(command_of(true, "u".to_string(), " 4").is_err());
    assert!(command_of(true, "u".to_string(), "").is_err());
}

#[test]
fn framing_of_messages() {
    let data = b"a::bc:".to_vec();
    assert_eq!(nth_field(&data, 0), Some(b"a".to_vec()));
    assert_eq!(nth_field(&data, 1), Some(vec![]));
    assert_eq!(nth_field(&data, 2), Some(b"bc".to_vec()));
    assert_eq!(nth_field(&data, 3), Some(vec![]));
    assert_eq!(nth_field(&data, 4), None);
    assert_eq!(nth_field(&vec![], 0), Some(vec![]));
    assert_eq!(nth_field(&vec![], 1), None);
    assert!(starts_with(&data, "a:"));
    assert!(starts_with(&data, ""));
    assert!(!starts_with(&data, "a::bc::"));
    assert!(!starts_with(&data, "b"));
}

#[test]
fn starting_acts_on_what_is_new_only() {
    let mut loader = loader(vec![set(&[]), set(&["b"])]);
    loader.mark_started(1, "a".to_string());
    loader.mark_started(1, "b".to_string());
    let change = plan_change(&loader, true, 1, &"c".to_string()).unwrap();
    assert!(change.start);
    assert_eq!(change.level, 1);
    assert_eq!(change.steps, vec!["c"]);
    for name in change.steps {
        require_unit(&loader, &name).unwrap();
        conclude_step(&mut loader, true, 1, name, StepResult::Done).unwrap();
    }
    assert_eq!(started(&loader, 1), vec!["a", "b", "c"]);
    // the database of the loader is not touched
    assert!(!loader.database().enabled[1].contains(&"c".to_string()));
}

#[test]
fn starting_takes_the_enabled_units_wave_by_wave() {
    let loader = loader(vec![set(&[]), set(&[])]);
    let change = plan_change(&loader, true, 0, &"b".to_string()).unwrap();
    // what a unit pulls in is planned, and only what is enabled is started
    assert_eq!(change.steps, vec!["b"]);
    let loader = self::loader(vec![set(&["a", "d"]), set(&[])]);
    let change = plan_change(&loader, true, 0, &"c".to_string()).unwrap();
    assert_eq!(change.steps, vec!["d", "a", "c"]);
}

#[test]
fn stopping_goes_from_the_last_wave_to_the_first() {
    let mut loader = loader(vec![set(&["a", "b", "c", "d"])]);
    for name in ["a", "b", "c", "d", "stray"] {
        loader.mark_started(0, name.to_string());
    }
    let change = plan_change(&loader, false, 0, &"b".to_string()).unwrap();
    assert!(!change.start);
    assert_eq!(change.steps, vec!["b"]);
    conclude_step(&mut loader, false, 0, "b".to_string(), StepResult::Done).unwrap();
    assert_eq!(started(&loader, 0), vec!["a", "c", "d", "stray"]);
    // units that are up without being enabled go down with the next stop
    loader.database.enabled[0].remove(&"a".to_string());
    loader.database.enabled[0].remove(&"d".to_string());
    let change = plan_change(&loader, false, 0, &"c".to_string()).unwrap();
    assert_eq!(change.steps, vec!["c", "d", "a"]);
}

#[test]
fn a_unit_cannot_enter_the_state_it_is_in() {
    let mut loader = loader(vec![set(&["a"])]);
    let e = plan_change(&loader, false, 0, &"a".to_string()).unwrap_err();
    assert!(matches!(e.original, Failure::AlreadyInState));
    assert_eq!(e.to_string(), "unit already started/stopped");
    loader.mark_started(0, "a".to_string());
    let e = plan_change(&loader, true, 0, &"a".to_string()).unwrap_err();
    assert!(matches!(e.original, Failure::AlreadyInState));
    // at a level that is not there nothing is up
    let e = plan_change(&loader, false, 5, &"a".to_string()).unwrap_err();
    assert!(matches!(e.original, Failure::AlreadyInState));
}

#[test]
fn a_level_that_is_not_there_cannot_be_changed() {
    let loader = loader(vec![set(&["a"])]);
    let e = plan_change(&loader, true, 1, &"b".to_string()).unwrap_err();
    assert!(matches!(e.original, Failure::Absent));
    assert_eq!(e.context.as_deref(), Some("failed to get level"));
}

#[test]
fn a_unit_that_is_not_known_cannot_be_started() {
    let loader = loader(vec![set(&["a"])]);
    let e = plan_change(&loader, true, 0, &"nobody".to_string()).unwrap_err();
    assert!(matches!(e.original, Failure::UnknownUnit));
    assert_eq!(e.to_string(), "failed to find unit in database");
}

#[test]
fn a_change_that_breaks_the_plan_is_refused() {
    let loader = loader(vec![set(&["a"])]);
    let e = plan_change(&loader, true, 0, &"broken".to_string()).unwrap_err();
    assert!(matches!(&e.original, Failure::AbsentDependency(n) if n == "ghost"));
    assert!(loader.database().enabled[0].names().len() == 1);
}

#[test]
fn steps_that_fail_or_are_passed_over_note_nothing() {
    let mut loader = loader(vec![set(&["a"])]);
    conclude_step(&mut loader, true, 0, "a".to_string(), StepResult::Unprepared).unwrap();
    assert!(started(&loader, 0).is_empty());
    let failure = Error::new(ErrorKind::Recoverable, None, Failure::Absent);
    let e = conclude_step(&mut loader, true, 0, "a".to_string(), StepResult::Failed(failure))
        .unwrap_err();
    assert!(e.is_recoverable());
    assert!(started(&loader, 0).is_empty());
    let e = require_unit(&loader, &"ghost".to_string()).unwrap_err();
    assert_eq!(
        e.to_string(),
        "failed to get unit: attempted to unwrap 'None' value"
    );
}

#[test]
fn picking_keeps_the_order_of_the_waves() {
    let waves = vec![
        vec!["a".to_string(), "b".to_string()],
        vec![],
        vec!["c".to_string(), "d".to_string(), "e".to_string()],
    ];
    let diff = set(&["e", "a", "c", "zz"]);
    assert_eq!(pick_forward(&waves, &diff), vec!["a", "c", "e"]);
    assert_eq!(pick_backward(&waves, &diff), vec!["c", "e", "a"]);
    assert!(pick_forward(&vec![], &diff).is_empty());
}
