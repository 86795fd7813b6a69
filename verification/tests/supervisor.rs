use kanit::supervisor::{
    account, handle_event, spawn, spawn_restart, split_variable, Account, Action, Event, Respawn,
    RestartPolicy, Supervisor, SupervisorBuilder,
};

fn supervisor(policy: Option<RestartPolicy>, attempts: Option<u64>, delay: Option<u64>) -> Supervisor {
    let mut cfg = SupervisorBuilder::new("svc".to_string(), vec![]).build();
    cfg.restart_policy = policy;
    cfg.restart_attempts = attempts;
    cfg.restart_delay = delay;
    cfg
}

#[test]
fn restart_follows_the_policy() {
    let table = [
        (None, true, false),
        (None, false, false),
        (Some(RestartPolicy::Never), true, false),
        (Some(RestartPolicy::Never), false, false),
        (Some(RestartPolicy::OnFailure), true, false),
        (Some(RestartPolicy::OnFailure), false, true),
        (Some(RestartPolicy::OnSuccess), true, true),
        (Some(RestartPolicy::OnSuccess), false, false),
        (Some(RestartPolicy::Always), true, true),
        (Some(RestartPolicy::Always), false, true),
    ];
    for (policy, success, expected) in table {
        let mut cfg = supervisor(policy, None, Some(3));
        let res = spawn_restart(&mut cfg, success, true);
        assert_eq!(res.is_some(), expected, "{:?} {}", policy, success);
        if let Some(respawn) = res {
            assert_eq!(respawn, Respawn { delay: Some(3) });
        }
        assert_eq!(cfg.restart_attempts, None);
    }
}

#[test]
fn restart_delay_is_taken_only_where_asked_for() {
    let mut cfg = supervisor(Some(RestartPolicy::Always), None, Some(9));
    assert_eq!(spawn_restart(&mut cfg, true, false), Some(Respawn { delay: None }));
    let mut cfg = supervisor(Some(RestartPolicy::Always), None, None);
    assert_eq!(spawn_restart(&mut cfg, true, true), Some(Respawn { delay: None }));
}

#[test]
fn two_attempts_allow_two_restarts() {
    let mut cfg = supervisor(Some(RestartPolicy::Always), Some(2), None);
    assert!(spawn_restart(&mut cfg, false, true).is_some());
    assert_eq!(cfg.restart_attempts, Some(1));
    assert!(spawn_restart(&mut cfg, false, true).is_some());
    assert_eq!(cfg.restart_attempts, Some(0));
    assert!(spawn_restart(&mut cfg, false, true).is_none());
    assert_eq!(cfg.restart_attempts, Some(0));
}

#[test]
fn an_exit_the_policy_passes_over_uses_no_attempt() {
    let mut cfg = supervisor(Some(RestartPolicy::OnFailure), Some(1), None);
    assert!(spawn_restart(&mut cfg, true, true).is_none());
    assert_eq!(cfg.restart_attempts, Some(1));
}

#[test]
fn events_drive_the_supervisor() {
    let mut cfg = supervisor(Some(RestartPolicy::Always), Some(1), Some(5));
    assert_eq!(handle_event(&mut cfg, Event::Other), Action::Wait);
    assert_eq!(cfg.restart_attempts, Some(1));
    // a restart that is asked for is free
    assert_eq!(handle_event(&mut cfg, Event::Terminate), Action::Kill);
    assert_eq!(cfg.restart_attempts, Some(2));
    assert_eq!(
        handle_event(&mut cfg, Event::ChildExited { success: false }),
        Action::Restart(Respawn { delay: Some(5) })
    );
    assert_eq!(cfg.restart_attempts, Some(1));
    assert_eq!(
        handle_event(&mut cfg, Event::ChildExited { success: true }),
        Action::Restart(Respawn { delay: Some(5) })
    );
    assert_eq!(
        handle_event(&mut cfg, Event::ChildExited { success: false }),
        Action::Exit
    );
    let mut never = supervisor(None, None, None);
    assert_eq!(handle_event(&mut never, Event::Terminate), Action::Kill);
    assert_eq!(never.restart_attempts, None);
    assert_eq!(
        handle_event(&mut never, Event::ChildExited { success: false }),
        Action::Exit
    );
}

#[test]
fn policies_have_their_words() {
    assert_eq!(RestartPolicy::Never.to_string(), "never");
    assert_eq!(RestartPolicy::OnFailure.to_string(), "on-failure");
    assert_eq!(RestartPolicy::OnSuccess.to_string(), "on-success");
    assert_eq!(RestartPolicy::Always.to_string(), "always");
}

#[test]
fn builder_sets_every_option() {
    let launch = SupervisorBuilder::new("getty".to_string(), vec!["38400".to_string(), "tty1".to_string()])
        .restart_delay(2)
        .restart_attempts(10)
        .restart_policy(RestartPolicy::Always)
        .pwd("/home".to_string())
        .root("/jail".to_string())
        .env("TERM".to_string(), "vt100".to_string())
        .env("EMPTY".to_string(), "".to_string())
        .group("tty".to_string())
        .user("0".to_string())
        .stdout("/var/log/out".to_string())
        .stderr("/var/log/err".to_string())
        .spawn();
    assert_eq!(launch.program, "kanit-supervisor");
    assert_eq!(
        launch.args,
        vec![
            "-d", "2", "-a", "10", "-P", "always", "-p", "/home", "-r", "/jail", "-e",
            "TERM=vt100", "-e", "EMPTY=", "-g", "tty", "-u", "0", "--stdout", "/var/log/out",
            "--stderr", "/var/log/err", "--", "getty", "38400", "tty1",
        ]
    );
}

#[test]
fn builder_without_options_gives_the_bare_command() {
    let builder = SupervisorBuilder::new("syslogd".to_string(), vec![]);
    let cfg = SupervisorBuilder::from_supervisor(builder.build()).build();
    assert_eq!(cfg.cmd, "syslogd");
    assert!(cfg.restart_policy.is_none() && cfg.env.is_empty() && cfg.user.is_none());
    assert_eq!(
        SupervisorBuilder::from_supervisor(cfg.clone()).spawn().args,
        vec!["--", "syslogd"]
    );
}

#[test]
fn accounts_are_numbers_or_names() {
    assert!(matches!(account("0"), Account::Id(0)));
    assert!(matches!(account("1000"), Account::Id(1000)));
    assert!(matches!(account("+7"), Account::Id(7)));
    assert!(matches!(account("4294967295"), Account::Id(u32::MAX)));
    assert!(matches!(account("4294967296"), Account::Name(n) if n == "4294967296"));
    assert!(matches!(account("root"), Account::Name(n) if n == "root"));
    assert!(matches!(account(""), Account::Name(n) if n.is_empty()));
    assert!(matches!(account("-1"), Account::Name(n) if n == "-1"));
}

#[test]
fn variables_are_split_at_the_first_equals_sign() {
    assert_eq!(
        split_variable("PATH=/bin:/sbin"),
        Some(("PATH".to_string(), "/bin:/sbin".to_string()))
    );
    assert_eq!(split_variable("A=b=c"), Some(("A".to_string(), "b=c".to_string())));
    assert_eq!(split_variable("=x"), Some(("".to_string(), "x".to_string())));
    assert_eq!(split_variable("x="), Some(("x".to_string(), "".to_string())));
    assert_eq!(split_variable("ü=ö"), Some(("ü".to_string(), "ö".to_string())));
    assert_eq!(split_variable("novalue"), None);
    assert_eq!(split_variable(""), None);
}

#[test]
fn child_setup_takes_over_the_supervisor() {
    let cfg = SupervisorBuilder::new("prog".to_string(), vec!["-x".to_string()])
        .env("A".to_string(), "1".to_string())
        .pwd("/tmp".to_string())
        .user("daemon".to_string())
        .group("12".to_string())
        .stdout("/out".to_string())
        .build();
    let mut cfg = cfg;
    cfg.env.push("broken".to_string());
    cfg.env.push("B=2=3".to_string());
    let setup = spawn(&cfg);
    assert_eq!(setup.cmd, "prog");
    assert_eq!(setup.args, vec!["-x"]);
    assert_eq!(
        setup.env,
        vec![
            ("A".to_string(), "1".to_string()),
            ("B".to_string(), "2=3".to_string())
        ]
    );
    assert_eq!(setup.pwd.as_deref(), Some("/tmp"));
    assert!(setup.root.is_none());
    assert!(matches!(setup.user, Some(Account::Name(n)) if n == "daemon"));
    assert!(matches!(setup.group, Some(Account::Id(12))));
    assert_eq!(setup.stdout.as_deref(), Some("/out"));
    assert!(setup.stderr.is_none());
}
