use kanit::db::catalogue::Catalogue;
use kanit::db::Database;
use kanit::sort::obtain_load_order;
use kanit::unit::Unit;
use kanit::units::oneshot::{Clock, DevFs, LocalMount, Swap, Sysctl};
use kanit::units::services::{GeTTY, Syslog};
use kanit::units::{baked_units, default_levels};

#[test]
fn built_in_units_tell_their_relations() {
    assert_eq!(Clock.name(), "clock");
    assert_eq!(Clock.dependencies().wants, vec!["modules"]);
    assert!(Clock.dependencies().needs.is_empty());
    assert!(Clock.description().is_none());
    assert_eq!(DevFs.dependencies().before, vec!["mdev"]);
    let swap = Swap.dependencies();
    assert_eq!(swap.needs, vec!["rootfs"]);
    assert_eq!(swap.after, vec!["clock"]);
    assert_eq!(swap.before, vec!["localmount"]);
    assert_eq!(LocalMount.dependencies().after, vec!["clock", "modules"]);
    assert_eq!(Sysctl.name(), "sysctl");
    assert_eq!(
        Syslog::new().dependencies().needs,
        vec!["clock", "hostname", "localmount"]
    );
}

#[test]
fn login_prompts_are_kept_up() {
    let getty = GeTTY::new("tty1", false);
    assert_eq!(getty.name(), "getty@tty1");
    assert_eq!(getty.pid, 0);
    assert_eq!(
        getty.start().args,
        vec!["-d", "2", "-P", "always", "--", "getty", "38400", "tty1"]
    );
    let serial = GeTTY::new("ttyS0", true);
    assert_eq!(serial.name(), "getty@ttyS0");
    assert_eq!(
        serial.start().args,
        vec!["-d", "2", "-P", "always", "--", "getty", "-L", "0", "ttyS0", "vt100"]
    );
    assert_eq!(
        Syslog::new().start().args,
        vec!["-P", "on-failure", "--", "syslogd"]
    );
    assert_eq!(Syslog::new().start().program, "kanit-supervisor");
}

#[test]
fn there_are_sixteen_built_in_units() {
    let names: Vec<String> = baked_units().iter().map(|u| u.name.clone()).collect();
    assert_eq!(
        names,
        vec![
            "procfs", "sysfs", "run", "devfs", "mdev", "hwdrivers", "modules", "clock", "rootfs",
            "swap", "localmount", "seed", "hostname", "syslog", "getty@tty1", "getty@ttyS0",
        ]
    );
}

#[test]
fn login_prompts_come_at_the_second_level() {
    let levels = default_levels();
    assert_eq!(levels.len(), 2);
    assert_eq!(levels[0].names().len(), 14);
    assert!(levels[0].contains(&"syslog".to_string()));
    assert!(!levels[0].contains(&"getty@tty1".to_string()));
    assert_eq!(
        levels[1].names(),
        &vec!["getty@tty1".to_string(), "getty@ttyS0".to_string()]
    );
}

#[test]
fn the_built_in_units_resolve() {
    let order = obtain_load_order(baked_units()).unwrap();
    let waves: Vec<Vec<String>> = order
        .iter()
        .map(|w| w.iter().map(|u| u.name.clone()).collect())
        .collect();
    assert_eq!(
        waves,
        vec![
            vec!["getty@ttyS0", "getty@tty1", "modules", "devfs", "procfs"],
            vec!["clock", "run", "sysfs"],
            vec!["hostname", "rootfs", "hwdrivers", "mdev"],
            vec!["swap"],
            vec!["localmount"],
            vec!["syslog", "seed"],
        ]
    );
}

#[test]
fn the_default_database_has_a_plan_for_both_levels() {
    let mut catalogue = Catalogue::new();
    for unit in baked_units() {
        catalogue.insert(unit);
    }
    let db = Database::new(vec![], catalogue, default_levels()).unwrap();
    assert_eq!(db.get_levels(), 2);
    let first: usize = db.levels[0].get_order().iter().map(|w| w.len()).sum();
    assert_eq!(first, 14);
    assert_eq!(db.levels[0].get_order().len(), 6);
    assert_eq!(
        db.levels[1].get_order(),
        &vec![vec!["getty@ttyS0".to_string(), "getty@tty1".to_string()]]
    );
}
