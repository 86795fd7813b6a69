use kanit::diagnostics::logger::{Level, LevelFilter};
use kanit::diagnostics::tap::{bail, enter_subtest, exit_subtest, header, not_ok, ok, plan};
use kanit::diagnostics::timing::{get_scopes, pop_scope, push_scope, register, write_scope};
use kanit::diagnostics::{Colors, InitializationLogger};

#[test]
fn tap_lines() {
    assert_eq!(header(), "TAP version 14");
    assert_eq!(plan(0, 4), "1..4");
    assert_eq!(plan(2, 10), "        1..10");
    assert_eq!(ok(0, 1, Some("unit:clock")), "ok 1 - unit:clock");
    assert_eq!(ok(1, 12, None), "    ok 12");
    assert_eq!(not_ok(1, 2, Some("failed preparations")), "    not ok 2 - failed preparations");
    assert_eq!(not_ok(0, 3, None), "not ok 3");
    assert_eq!(bail(0, Some("panic")), "Bail out! panic");
    assert_eq!(bail(1, None), "    Bail out!");
}

#[test]
fn tap_subtests_nest() {
    let mut level = 0;
    assert_eq!(enter_subtest(&mut level, Some("level:0")), "# Subtest: level:0");
    assert_eq!(level, 1);
    assert_eq!(enter_subtest(&mut level, None), "    # Subtest");
    assert_eq!(level, 2);
    exit_subtest(&mut level);
    exit_subtest(&mut level);
    assert_eq!(level, 0);
    exit_subtest(&mut level);
    assert_eq!(level, usize::MAX);
    let mut top = usize::MAX;
    top = top.wrapping_add(1);
    assert_eq!(enter_subtest(&mut top, None), "# Subtest");
}

#[test]
fn scopes_are_timed() {
    let mut timer = register();
    assert!(get_scopes(&timer).is_empty());
    let boot = push_scope(&mut timer, "initialize".to_string(), 100);
    let unit = push_scope(&mut timer, "unit:clock".to_string(), 250);
    assert_eq!((boot, unit), (0, 1));
    assert_eq!(timer.level, 2);
    pop_scope(&mut timer, Some(unit), 1750);
    pop_scope(&mut timer, None, 1800);
    assert_eq!(timer.level, 0);
    let scopes = get_scopes(&timer);
    assert_eq!(scopes.len(), 2);
    assert_eq!(scopes[0].name, "initialize");
    assert_eq!(scopes[0].duration, None);
    assert_eq!(scopes[0].level, 0);
    assert_eq!(scopes[1].start, 250);
    assert_eq!(scopes[1].duration, Some(1500));
    assert_eq!(scopes[1].level, 1);
    assert_eq!(write_scope(&scopes[1]), "unit:clock 1500 1\n");
    assert_eq!(write_scope(&scopes[0]), "initialize 0 0\n");
}

#[test]
fn a_scope_that_ends_before_it_began_took_no_time() {
    let mut timer = register();
    let id = push_scope(&mut timer, "odd".to_string(), 500);
    pop_scope(&mut timer, Some(id), 400);
    assert_eq!(timer.scopes[0].duration, Some(0));
}

#[test]
fn colours() {
    assert_eq!(Colors::reset(), "\x1b[0m");
    assert_eq!(Colors::Black.to_string(), "\x1b[38;5;0m");
    assert_eq!(Colors::BrightRed.to_string(), "\x1b[38;5;9m");
    assert_eq!(Colors::BrightWhite.to_string(), "\x1b[38;5;15m");
    assert_eq!(Colors::Cyan.number(), 6);
}

#[test]
fn the_logger_shows_what_is_grave_enough() {
    let logger = InitializationLogger::init(LevelFilter::Info);
    assert!(logger.enabled(Level::Error));
    assert!(logger.enabled(Level::Info));
    assert!(!logger.enabled(Level::Debug));
    assert_eq!(
        logger.log(Level::Warn, "failed preparations for clock"),
        Some("\x1b[38;5;11m=\x1b[0m failed preparations for clock".to_string())
    );
    assert_eq!(
        logger.log(Level::Error, "x"),
        Some("\x1b[38;5;9m!\x1b[0m x".to_string())
    );
    assert_eq!(
        logger.log(Level::Info, ""),
        Some("\x1b[38;5;10m*\x1b[0m ".to_string())
    );
    assert_eq!(logger.log(Level::Trace, "x"), None);
    let all = InitializationLogger::init(LevelFilter::Trace);
    assert_eq!(
        all.log(Level::Debug, "d"),
        Some("\x1b[38;5;14m&\x1b[0m d".to_string())
    );
    assert_eq!(
        all.log(Level::Trace, "t"),
        Some("\x1b[38;5;13m#\x1b[0m t".to_string())
    );
    let off = InitializationLogger::init(LevelFilter::Off);
    assert!(!off.enabled(Level::Error));
}
