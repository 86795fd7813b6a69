use kanit::text::{contains_text, split_at_char};
use kanit::units::mounts::{
    entries_from_lines, find_mount, is_fs_available, is_fs_mounted, parse_mounts, parse_options,
    MountAction, MountEntry,
};
use kanit::units::oneshot::{check_rtc, modules_from_lines, rtc_modules, Hostname, LocalMount, Modules};
use kanit::units::seed::{pool_bytes, pool_info, stretch, stretched_seed, trusted_seed};

const FSTAB: &str = "# <fs> <mountpoint> <type> <opts> <dump> <pass>\n\
/dev/sda1\t/\text4\trw,noatime\t0\t1\n\
\n\
tmpfs /tmp tmpfs size=10%,mode=1777,size=20% 0 0\n\
server:/export /srv nfs _netdev,ro 0 0\n";

#[test]
fn a_table_of_file_systems_is_read_line_by_line() {
    let entries = parse_mounts(FSTAB).unwrap();
    assert_eq!(entries.len(), 3);
    assert_eq!(entries[0].fs_spec, "/dev/sda1");
    assert_eq!(entries[0].fs_file, "/");
    assert_eq!(entries[0].fs_vfstype, "ext4");
    assert_eq!(
        entries[0].fs_mntopts,
        vec![("rw".to_string(), None), ("noatime".to_string(), None)]
    );
    assert_eq!((entries[0].fs_freq, entries[0].fs_passno), (0, 1));
    // an option that is given twice keeps its place and takes the last value
    assert_eq!(
        entries[1].fs_mntopts,
        vec![
            ("size".to_string(), Some("20%".to_string())),
            ("mode".to_string(), Some("1777".to_string()))
        ]
    );
    assert!(parse_mounts("").unwrap().is_empty());
    assert!(parse_mounts("#only a remark\n\n").unwrap().is_empty());
}

#[test]
fn a_line_that_lacks_a_field_fails_the_table() {
    for (line, context) in [
        ("a", "expected `fs_file`"),
        ("a b", "expected `fs_vfstype`"),
        ("a b c", "expected `fs_mntopts`"),
        ("a b c d", "expected `fs_freq`"),
        ("a b c d x", "failed to parse `fs_freq`"),
        ("a b c d 256", "failed to parse `fs_freq`"),
        ("a b c d 1", "expected `fs_passno`"),
        ("a b c d 1 -1", "failed to parse `fs_passno`"),
        ("   ", "expected `fs_spec`"),
    ] {
        let e = MountEntry::parse_single_mount(line).unwrap_err();
        assert_eq!(e.context.as_deref(), Some(context), "{:?}", line);
    }
    let e = parse_mounts("a b c d 0 0\nbroken\na b c d 0 0 \n x").unwrap_err();
    assert_eq!(e.context.as_deref(), Some("expected `fs_file`"));
    assert!(entries_from_lines(&vec![" ".to_string()]).is_err());
    assert!(MountEntry::parse_single_mount("a b c d 255 0 and more").is_ok());
}

#[test]
fn options_keep_their_order() {
    assert_eq!(parse_options(""), vec![("".to_string(), None)]);
    assert_eq!(
        parse_options("a=1,b,,a"),
        vec![
            ("a".to_string(), None),
            ("b".to_string(), None),
            ("".to_string(), None)
        ]
    );
    assert_eq!(
        parse_options("k=v=w"),
        vec![("k".to_string(), Some("v=w".to_string()))]
    );
    assert_eq!(split_at_char("a,,b,", ','), vec!["a", "", "b", ""]);
    assert_eq!(split_at_char("", ','), vec![""]);
}

#[test]
fn mount_is_run_with_the_options_of_the_entry() {
    let entries = parse_mounts(FSTAB).unwrap();
    assert_eq!(
        entries[1].mount(MountAction::Mount),
        vec!["-o", "size=20%,mode=1777", "-t", "tmpfs", "tmpfs", "/tmp"]
    );
    assert_eq!(
        entries[0].mount(MountAction::Remount),
        vec!["-o", "rw,noatime,remount", "-t", "ext4", "/dev/sda1", "/"]
    );
    let bare = MountEntry {
        fs_spec: "none".to_string(),
        fs_file: "/x".to_string(),
        fs_vfstype: "proc".to_string(),
        fs_mntopts: vec![],
        fs_freq: 0,
        fs_passno: 0,
    };
    assert_eq!(bare.mount(MountAction::Mount)[1], "");
    assert_eq!(bare.mount(MountAction::Remount)[1], "remount");
}

#[test]
fn file_systems_are_looked_up() {
    assert_eq!(is_fs_mounted(FSTAB, "/tmp").unwrap(), true);
    assert_eq!(is_fs_mounted(FSTAB, "/tm").unwrap(), false);
    assert!(is_fs_mounted("broken", "/").is_err());
    let entries = parse_mounts(FSTAB).unwrap();
    assert_eq!(find_mount(&entries, "/srv"), Some(2));
    assert_eq!(find_mount(&entries, "/none"), None);
    let known = "nodev\tsysfs\nnodev\ttmpfs\n\text4\n";
    assert!(is_fs_available(known, "tmpfs"));
    assert!(is_fs_available(known, "ext4"));
    assert!(is_fs_available(known, "ext"));
    assert!(!is_fs_available(known, "devtmpfs"));
    assert!(!is_fs_available(known, "nodev"));
    assert!(contains_text("abc", ""));
    assert!(contains_text("", ""));
    assert!(!contains_text("", "a"));
    assert!(contains_text("aab", "ab"));
}

#[test]
fn what_stays_mounted_at_teardown() {
    let entries = parse_mounts(
        "a / x rw 0 0\nb /dev x rw 0 0\nc /dev/pts x rw 0 0\nd /sys/fs x rw 0 0\n\
e /proc x rw 0 0\nf /run x rw 0 0\ng /home x rw 0 0\nh /srv nfs ro,_netdev 0 0\n\
i /device x rw 0 0\nj /dev/loop0 x rw 0 0\nk /runner x _netdev=1 0 0\n",
    )
    .unwrap();
    let kept: Vec<bool> = entries.iter().map(LocalMount::is_kept).collect();
    assert_eq!(
        kept,
        vec![true, true, true, true, true, true, false, true, false, true, true]
    );
    let loops: Vec<bool> = entries.iter().map(LocalMount::is_loopback).collect();
    assert_eq!(loops.iter().filter(|l| **l).count(), 1);
    assert!(loops[9]);
}

#[test]
fn hardware_clocks() {
    for name in ["/dev/rtc", "/dev/rtc0", "/dev/rtc12", "/dev/rtc9x"] {
        assert!(check_rtc(name), "{:?}", name);
    }
    for name in ["/dev/rt", "/dev/rtcx", "/dev/rtc-0", "dev/rtc0", "/dev/rtc/0", ""] {
        assert!(!check_rtc(name), "{:?}", name);
    }
    assert_eq!(rtc_modules(), vec!["rtc-cmos", "rtc", "genrtc"]);
}

#[test]
fn lists_of_modules() {
    assert_eq!(
        Modules::listed("# sound\nsnd\n\n; off\n loop\nkvm"),
        vec!["snd", " loop", "kvm"]
    );
    assert!(modules_from_lines(&vec!["".to_string(), "#x".to_string()]).is_empty());
}

#[test]
fn host_names() {
    assert_eq!(Hostname::chosen(Some("  box\n")), "box");
    assert_eq!(Hostname::chosen(Some("")), "");
    assert_eq!(Hostname::chosen(None), "homosexual");
}

#[test]
fn seeds() {
    assert_eq!(trusted_seed(&vec![]), 0);
    assert_eq!(trusted_seed(&vec![1]), 0x0100_0000_0000_0000);
    assert_eq!(
        trusted_seed(&vec![1, 2, 3, 4, 5, 6, 7, 8, 9]),
        0x0102_0304_0506_0708
    );
    assert_eq!(pool_bytes(None), 256);
    assert_eq!(pool_bytes(Some("4096")), 512);
    assert_eq!(pool_bytes(Some("4096\n")), 256);
    assert_eq!(pool_bytes(Some("7")), 0);
    assert_eq!(stretch(vec![1, 2, 3], 2, vec![]), vec![1, 2]);
    assert_eq!(stretch(vec![1, 2], 4, vec![8, 9]), vec![1, 2, 8, 9]);
    assert_eq!(stretch(vec![], 0, vec![]), Vec::<u8>::new());
    assert_eq!(stretch(vec![1], 3, vec![5]), vec![1, 5]);
    assert_eq!(stretch(vec![1], 2, vec![5, 6, 7]), vec![1, 5]);
}

#[test]
fn a_seed_is_stretched_with_random_bytes() {
    let long = stretched_seed(7, vec![1, 2, 3], 40);
    assert_eq!(long.len(), 40);
    assert_eq!(&long[..3], &[1, 2, 3]);
    // the bytes that were added are not those that were there to be filled
    assert!(long[3..].iter().any(|b| *b != 0));
    assert_eq!(stretched_seed(7, vec![1, 2, 3], 40), long);
    assert_ne!(stretched_seed(8, vec![1, 2, 3], 40), long);
    assert_eq!(stretched_seed(7, vec![1, 2, 3], 2), vec![1, 2]);
    assert_eq!(stretched_seed(7, vec![], 0), Vec::<u8>::new());
}

#[test]
fn the_kernel_is_told_of_a_seed() {
    let info = pool_info(&vec![9, 8, 7], true);
    assert_eq!(info.entropy_count, 24);
    assert_eq!(info.buf_size, 3);
    assert_eq!(info.buf.len(), 512);
    assert_eq!(&info.buf[..4], &[9, 8, 7, 0]);
    let info = pool_info(&vec![1; 600], false);
    assert_eq!(info.entropy_count, 0);
    assert_eq!(info.buf_size, 600);
    assert_eq!(info.buf, vec![1; 512]);
}
