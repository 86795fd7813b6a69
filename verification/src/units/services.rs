use crate::supervisor::{launch_args, Launch, RestartPolicy, SupervisorBuilder, SupervisorView};
use crate::unit::{Dependencies, DependenciesView, Unit, UnitName};
use vstd::prelude::*;
use vstd::string::*;

verus! {

/// A login prompt on a terminal.
#[derive(Debug)]
pub struct GeTTY {
    pub name: String,
    /// The process that controls the prompt while it is up.
    pub pid: u32,
    pub tty: &'static str,
    /// Whether the terminal is a serial line.
    pub serial: bool,
}

/// What the program of the prompt is started with on the terminal `tty`.
pub open spec fn getty_args(tty: Seq<char>, serial: bool) -> Seq<Seq<char>> {
    if serial {
        seq!["-L"@, "0"@, tty, "vt100"@]
    } else {
        seq!["38400"@, tty]
    }
}

/// The supervisor of a prompt: it brings the prompt back two seconds after
/// it has ended, always.
pub open spec fn getty_supervisor(tty: Seq<char>, serial: bool) -> SupervisorView {
    SupervisorView {
        cmd: "getty"@,
        args: getty_args(tty, serial),
        restart_delay: Some(2u64),
        restart_attempts: None,
        restart_policy: Some(RestartPolicy::Always),
        pwd: None,
        root: None,
        env: Seq::empty(),
        group: None,
        user: None,
        stdout: None,
        stderr: None,
    }
}

impl GeTTY {
    /// The prompt on the terminal `tty`, not yet up.
    pub fn new(tty: &'static str, serial: bool) -> (res: Self)
        ensures
            res.name@ == "getty@"@ + tty@,
            res.pid == 0,
            res.tty == tty,
            res.serial == serial,
    {
        GeTTY { name: String::from_str("getty@").concat(tty), pid: 0, tty, serial }
    }

    /// The command that launches the supervisor of the prompt.
    pub fn start(&self) -> (res: Launch)
        ensures
            res.program@ == "kanit-supervisor"@,
            res.args.deep_view() == launch_args(getty_supervisor(self.tty@, self.serial)),
    {
        let mut args: Vec<String> = Vec::new();
        if self.serial {
            args.push(String::from_str("-L"));
            args.push(String::from_str("0"));
            args.push(String::from_str(self.tty));
            args.push(String::from_str("vt100"));
        } else {
            args.push(String::from_str("38400"));
            args.push(String::from_str(self.tty));
        }
        assert(args.deep_view() =~= getty_args(self.tty@, self.serial));
        SupervisorBuilder::new(String::from_str("getty"), args).restart_policy(
            RestartPolicy::Always,
        ).restart_delay(2).spawn()
    }
}

impl Unit for GeTTY {
    open spec fn name_view(&self) -> Seq<char> {
        self.name@
    }

    open spec fn dependencies_view(&self) -> DependenciesView {
        DependenciesView::empty()
    }

    open spec fn description_view(&self) -> Option<Seq<char>> {
        None
    }

    fn name(&self) -> (res: UnitName) {
        self.name.clone()
    }

    fn description(&self) -> (res: Option<String>) {
        None
    }

    fn dependencies(&self) -> (res: Dependencies) {
        Dependencies::new()
    }
}

/// The system log.
#[derive(Debug)]
pub struct Syslog {
    /// The process that controls the log while it is up.
    pub pid: u32,
}

/// The supervisor of the system log: it brings the log back after it has
/// failed.
pub open spec fn syslog_supervisor() -> SupervisorView {
    SupervisorView {
        cmd: "syslogd"@,
        args: Seq::empty(),
        restart_delay: None,
        restart_attempts: None,
        restart_policy: Some(RestartPolicy::OnFailure),
        pwd: None,
        root: None,
        env: Seq::empty(),
        group: None,
        user: None,
        stdout: None,
        stderr: None,
    }
}

impl Syslog {
    /// The system log, not yet up.
    pub fn new() -> (res: Self)
        ensures
            res.pid == 0,
    {
        Syslog { pid: 0 }
    }

    /// The command that launches the supervisor of the log.
    pub fn start(&self) -> (res: Launch)
        ensures
            res.program@ == "kanit-supervisor"@,
            res.args.deep_view() == launch_args(syslog_supervisor()),
    {
        let args: Vec<String> = Vec::new();
        assert(args.deep_view() =~= Seq::<Seq<char>>::empty());
        SupervisorBuilder::new(String::from_str("syslogd"), args).restart_policy(
            RestartPolicy::OnFailure,
        ).spawn()
    }
}

impl Unit for Syslog {
    open spec fn name_view(&self) -> Seq<char> {
        "syslog"@
    }

    open spec fn dependencies_view(&self) -> DependenciesView {
        DependenciesView::empty().need("clock"@).need("hostname"@).need("localmount"@)
    }

    open spec fn description_view(&self) -> Option<Seq<char>> {
        None
    }

    fn name(&self) -> (res: UnitName) {
        String::from_str("syslog")
    }

    fn description(&self) -> (res: Option<String>) {
        None
    }

    fn dependencies(&self) -> (res: Dependencies) {
        let mut deps = Dependencies::new();
        deps.need(String::from_str("clock"));
        deps.need(String::from_str("hostname"));
        deps.need(String::from_str("localmount"));
        deps
    }
}

} // verus!
