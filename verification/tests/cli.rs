use kanit::cli::blame::{entries_from_lines, entry_from_parts, parse_blame, BlameEntry};
use kanit::cli::teardown::{teardown, RebootMode};
use kanit::error::Failure;

#[test]
fn only_the_superuser_brings_the_machine_down() {
    let e = teardown("poweroff", false, false).unwrap_err();
    assert_eq!(e.to_string(), "operation not permitted");
    assert!(teardown("reboot", true, false).is_err());
}

#[test]
fn teardown_goes_to_the_running_system_or_is_forced() {
    let plan = teardown("halt", false, true).unwrap();
    assert_eq!(plan.message, "halt");
    assert_eq!(plan.force, None);
    for (word, mode) in [
        ("poweroff", RebootMode::PowerOff),
        ("reboot", RebootMode::Autoboot),
        ("halt", RebootMode::HaltSystem),
        ("kexec", RebootMode::Kexec),
    ] {
        let plan = teardown(word, true, true).unwrap();
        assert_eq!(plan.message, word);
        assert_eq!(plan.force, Some(mode));
    }
}

#[test]
fn a_line_of_timings_holds_name_duration_and_level() {
    let entry = BlameEntry::parse_single_entry("unit:clock 1532 2").unwrap();
    assert_eq!(entry.name, "unit:clock");
    assert_eq!(entry.duration, 1532);
    assert_eq!(entry.level, 2);
    let entry = BlameEntry::parse_single_entry("  a\t0   0  and more").unwrap();
    assert_eq!((entry.name.as_str(), entry.duration, entry.level), ("a", 0, 0));
}

#[test]
fn a_line_of_timings_that_lacks_a_part_is_refused() {
    let e = BlameEntry::parse_single_entry("   ").unwrap_err();
    assert_eq!(e.context.as_deref(), Some("expected `name`"));
    assert!(matches!(e.original, Failure::Absent));
    let e = BlameEntry::parse_single_entry("name").unwrap_err();
    assert_eq!(e.context.as_deref(), Some("expected `duration`"));
    let e = BlameEntry::parse_single_entry("name x 1").unwrap_err();
    assert_eq!(e.context.as_deref(), Some("failed to parse `duration`"));
    assert!(matches!(e.original, Failure::InvalidNumber));
    let e = BlameEntry::parse_single_entry("name 1").unwrap_err();
    assert_eq!(e.context.as_deref(), Some("expected `level`"));
    let e = BlameEntry::parse_single_entry("name 1 -1").unwrap_err();
    assert_eq!(e.context.as_deref(), Some("failed to parse `level`"));
    assert!(entry_from_parts(&vec![]).is_err());
}

#[test]
fn lines_that_make_no_entry_are_passed_over() {
    let entries = parse_blame("initialize 90 0\n\nbroken line\nunit:seed 7 1\r\nlast 1 1");
    let names: Vec<&str> = entries.iter().map(|e| e.name.as_str()).collect();
    assert_eq!(names, vec!["initialize", "unit:seed", "last"]);
    assert_eq!(entries[1].duration, 7);
    assert!(parse_blame("").is_empty());
    assert_eq!(
        entries_from_lines(&vec!["x 1 1".to_string(), "".to_string()]).len(),
        1
    );
}
