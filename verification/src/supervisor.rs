use crate::text::{clone_optional, clone_strings, decimal, find_char, parse_decimal, parsed, to_decimal};
use vstd::prelude::*;
use vstd::string::*;

verus! {

/// When a child that has ended is started again.
#[derive(Debug, Clone, Copy, PartialEq, Eq, Structural)]
pub enum RestartPolicy {
    /// Never.
    Never,
    /// Only after it failed.
    OnFailure,
    /// Only after it succeeded.
    OnSuccess,
    /// Whatever its exit was.
    Always,
}

/// The word that stands for a policy on a command line.
pub open spec fn policy_text(policy: RestartPolicy) -> Seq<char> {
    match policy {
        RestartPolicy::Never => "never"@,
        RestartPolicy::OnFailure => "on-failure"@,
        RestartPolicy::OnSuccess => "on-success"@,
        RestartPolicy::Always => "always"@,
    }
}

impl RestartPolicy {
    /// The word that stands for this policy on a command line.
    pub fn to_string(&self) -> (res: String)
        ensures
            res@ == policy_text(*self),
    {
        match self {
            RestartPolicy::Never => String::from_str("never"),
            RestartPolicy::OnFailure => String::from_str("on-failure"),
            RestartPolicy::OnSuccess => String::from_str("on-success"),
            RestartPolicy::Always => String::from_str("always"),
        }
    }

    /// Whether a child that ended with or without `success` is started
    /// again under this policy.
    pub open spec fn permits(self, success: bool) -> bool {
        match self {
            RestartPolicy::Never => false,
            RestartPolicy::OnFailure => !success,
            RestartPolicy::OnSuccess => success,
            RestartPolicy::Always => true,
        }
    }
}

/// How one child process is launched and kept up.
#[derive(Debug)]
pub struct Supervisor {
    /// The program to run.
    pub cmd: String,
    /// Its arguments.
    pub args: Vec<String>,
    /// Seconds to wait before the child is started again.
    pub restart_delay: Option<u64>,
    /// How many more times the child may be started again; without a
    /// number, as often as the policy asks.
    pub restart_attempts: Option<u64>,
    /// When the child is started again; without a policy, never.
    pub restart_policy: Option<RestartPolicy>,
    /// The directory to run in.
    pub pwd: Option<String>,
    /// The directory to take as the root.
    pub root: Option<String>,
    /// Variables of the environment, each as `name=value`.
    pub env: Vec<String>,
    /// The group to run as, by number or by name.
    pub group: Option<String>,
    /// The user to run as, by number or by name.
    pub user: Option<String>,
    /// The file that the standard output is appended to.
    pub stdout: Option<String>,
    /// The file that the standard error is appended to.
    pub stderr: Option<String>,
}

/// The mathematical content of a [`Supervisor`].
pub ghost struct SupervisorView {
    pub cmd: Seq<char>,
    pub args: Seq<Seq<char>>,
    pub restart_delay: Option<u64>,
    pub restart_attempts: Option<u64>,
    pub restart_policy: Option<RestartPolicy>,
    pub pwd: Option<Seq<char>>,
    pub root: Option<Seq<char>>,
    pub env: Seq<Seq<char>>,
    pub group: Option<Seq<char>>,
    pub user: Option<Seq<char>>,
    pub stdout: Option<Seq<char>>,
    pub stderr: Option<Seq<char>>,
}

impl View for Supervisor {
    type V = SupervisorView;

    open spec fn view(&self) -> SupervisorView {
        SupervisorView {
            cmd: self.cmd@,
            args: self.args.deep_view(),
            restart_delay: self.restart_delay,
            restart_attempts: self.restart_attempts,
            restart_policy: self.restart_policy,
            pwd: self.pwd.deep_view(),
            root: self.root.deep_view(),
            env: self.env.deep_view(),
            group: self.group.deep_view(),
            user: self.user.deep_view(),
            stdout: self.stdout.deep_view(),
            stderr: self.stderr.deep_view(),
        }
    }
}

impl DeepView for Supervisor {
    type V = SupervisorView;

    open spec fn deep_view(&self) -> SupervisorView {
        self@
    }
}

impl Clone for Supervisor {
    fn clone(&self) -> (res: Self)
        ensures
            res@ == self@,
    {
        Supervisor {
            cmd: self.cmd.clone(),
            args: clone_strings(&self.args),
            restart_delay: self.restart_delay,
            restart_attempts: self.restart_attempts,
            restart_policy: self.restart_policy,
            pwd: clone_optional(&self.pwd),
            root: clone_optional(&self.root),
            env: clone_strings(&self.env),
            group: clone_optional(&self.group),
            user: clone_optional(&self.user),
            stdout: clone_optional(&self.stdout),
            stderr: clone_optional(&self.stderr),
        }
    }
}

impl SupervisorView {
    /// Whether a child that ended with or without `success` is started
    /// again: the policy has to permit it, and the attempts must not be
    /// used up.
    pub open spec fn restarts(self, success: bool) -> bool {
        &&& self.restart_policy is Some
        &&& self.restart_policy->Some_0.permits(success)
        &&& self.restart_attempts != Some(0u64)
    }

    /// The supervisor after one more restart.
    pub open spec fn after_restart(self) -> SupervisorView {
        SupervisorView {
            restart_attempts: match self.restart_attempts {
                Some(n) => Some((n - 1) as u64),
                None => None,
            },
            ..self
        }
    }

    /// The supervisor after a request to end the child.
    pub open spec fn after_terminate(self) -> SupervisorView {
        SupervisorView {
            restart_attempts: match self.restart_attempts {
                Some(n) => Some((n + 1) as u64),
                None => None,
            },
            ..self
        }
    }
}

/// A restart that is due.
#[derive(Debug, Clone, Copy, PartialEq, Eq, Structural)]
pub struct Respawn {
    /// Seconds to wait before the child is started.
    pub delay: Option<u64>,
}

/// Decides whether a child that has ended is started again, and takes the
/// restart off the attempts that are left.
///
/// The child is started again where the policy permits it after such an
/// exit and the attempts are not used up. The delay is that of the
/// supervisor, where `delay` asks for it.
pub fn spawn_restart(cfg: &mut Supervisor, success: bool, delay: bool) -> (res: Option<Respawn>)
    ensures
        res is Some <==> old(cfg)@.restarts(success),
        res is Some ==> final(cfg)@ == old(cfg)@.after_restart() && res->Some_0.delay == if delay {
            old(cfg).restart_delay
        } else {
            None
        },
        res is None ==> *final(cfg) == *old(cfg),
{
    let permitted = match cfg.restart_policy {
        None => false,
        Some(RestartPolicy::Never) => false,
        Some(RestartPolicy::OnFailure) => !success,
        Some(RestartPolicy::OnSuccess) => success,
        Some(RestartPolicy::Always) => true,
    };
    if !permitted {
        return None;
    }
    if let Some(attempts) = cfg.restart_attempts {
        if attempts == 0 {
            return None;
        } else {
            cfg.restart_attempts = Some(attempts - 1);
        }
    }
    Some(Respawn { delay: if delay { cfg.restart_delay } else { None } })
}

/// What reaches a supervisor while it waits.
#[derive(Debug, Clone, Copy, PartialEq, Eq, Structural)]
pub enum Event {
    /// The child has ended.
    ChildExited { success: bool },
    /// The supervisor was asked to end the child.
    Terminate,
    /// Any other signal.
    Other,
}

/// What a supervisor does next.
#[derive(Debug, Clone, Copy, PartialEq, Eq, Structural)]
pub enum Action {
    /// Start the child again.
    Restart(Respawn),
    /// Leave: the child has ended and is not started again.
    Exit,
    /// End the child.
    Kill,
    /// Keep waiting.
    Wait,
}

/// The step a supervisor takes on an event.
///
/// When the child has ended it is started again or the supervisor leaves,
/// as [`spawn_restart`] decides. A request to end the child has it killed;
/// the restart that follows is free: one attempt is added for it.
pub fn handle_event(cfg: &mut Supervisor, event: Event) -> (res: Action)
    requires
        event is Terminate ==> old(cfg).restart_attempts != Some(u64::MAX),
    ensures
        match event {
            Event::ChildExited { success } => if old(cfg)@.restarts(success) {
                &&& final(cfg)@ == old(cfg)@.after_restart()
                &&& res == Action::Restart(Respawn { delay: old(cfg).restart_delay })
            } else {
                &&& *final(cfg) == *old(cfg)
                &&& res == Action::Exit
            },
            Event::Terminate => final(cfg)@ == old(cfg)@.after_terminate() && res == Action::Kill,
            Event::Other => *final(cfg) == *old(cfg) && res == Action::Wait,
        },
{
    match event {
        Event::ChildExited { success } => {
            match spawn_restart(cfg, success, true) {
                Some(respawn) => Action::Restart(respawn),
                None => Action::Exit,
            }
        },
        Event::Terminate => {
            if let Some(attempts) = cfg.restart_attempts {
                cfg.restart_attempts = Some(attempts + 1);
            }
            Action::Kill
        },
        Event::Other => Action::Wait,
    }
}

/// A request to end the child and the exit that follows it leave the
/// attempts as they were: restarts that the operator asks for are free.
pub proof fn law_terminate_is_free(cfg: SupervisorView, success: bool)
    requires
        cfg.restart_attempts != Some(u64::MAX),
        cfg.after_terminate().restarts(success),
    ensures
        cfg.after_terminate().after_restart() == cfg,
{
}

/// While attempts are left, each restart uses one of them up; when none is
/// left, the child is not started again, whatever the policy.
pub proof fn law_attempts_run_out(cfg: SupervisorView, success: bool)
    ensures
        cfg.restart_attempts == Some(0u64) ==> !cfg.restarts(success),
        cfg.restarts(success) && cfg.restart_attempts is Some ==> cfg.after_restart().restart_attempts
            == Some((cfg.restart_attempts->Some_0 - 1) as u64),
{
}

/// An option of a command line with its value, or nothing where there is no
/// value.
pub open spec fn flag(name: Seq<char>, value: Option<Seq<char>>) -> Seq<Seq<char>> {
    match value {
        Some(v) => seq![name, v],
        None => Seq::empty(),
    }
}

/// The option `-e` before each variable of the environment.
pub open spec fn env_flags(env: Seq<Seq<char>>) -> Seq<Seq<char>>
    decreases env.len(),
{
    if env.len() == 0 {
        Seq::empty()
    } else {
        env_flags(env.drop_last()) + seq!["-e"@, env.last()]
    }
}

/// A number as the value of an option.
pub open spec fn number_text(value: Option<u64>) -> Option<Seq<char>> {
    match value {
        Some(n) => Some(decimal(n as nat)),
        None => None,
    }
}

/// The arguments with which the supervising program is started for the
/// supervisor `s`: its options, then `--`, the program and its arguments.
pub open spec fn launch_args(s: SupervisorView) -> Seq<Seq<char>> {
    Seq::<Seq<char>>::empty() + flag("-d"@, number_text(s.restart_delay)) + flag(
        "-a"@,
        number_text(s.restart_attempts),
    ) + flag(
        "-P"@,
        match s.restart_policy {
            Some(p) => Some(policy_text(p)),
            None => None,
        },
    ) + flag("-p"@, s.pwd) + flag("-r"@, s.root) + env_flags(s.env) + flag("-g"@, s.group) + flag(
        "-u"@,
        s.user,
    ) + flag("--stdout"@, s.stdout) + flag("--stderr"@, s.stderr) + seq!["--"@, s.cmd] + s.args
}

fn push_flag(args: &mut Vec<String>, name: &str, value: Option<String>)
    ensures
        final(args).deep_view() == old(args).deep_view() + flag(name@, value.deep_view()),
{
    match value {
        Some(v) => {
            args.push(String::from_str(name));
            args.push(v);
            assert(args.deep_view() =~= old(args).deep_view() + seq![name@, v@]);
        },
        None => {
            assert(args.deep_view() =~= old(args).deep_view() + Seq::<Seq<char>>::empty());
        },
    }
}

/// A program to start, with its arguments.
#[derive(Debug)]
pub struct Launch {
    pub program: String,
    pub args: Vec<String>,
}

/// Puts a [`Supervisor`] together step by step.
#[derive(Debug)]
pub struct SupervisorBuilder(pub Supervisor);

impl SupervisorBuilder {
    /// A supervisor for the program `cmd` with the arguments `args`, without
    /// restarts and with nothing else set.
    pub fn new(cmd: String, args: Vec<String>) -> (res: Self)
        ensures
            res.0@ == (SupervisorView {
                cmd: cmd@,
                args: args.deep_view(),
                restart_delay: None,
                restart_attempts: None,
                restart_policy: None,
                pwd: None,
                root: None,
                env: Seq::empty(),
                group: None,
                user: None,
                stdout: None,
                stderr: None,
            }),
    {
        let env: Vec<String> = Vec::new();
        assert(env.deep_view() =~= Seq::<Seq<char>>::empty());
        SupervisorBuilder(
            Supervisor {
                cmd,
                args,
                restart_delay: None,
                restart_attempts: None,
                restart_policy: None,
                pwd: None,
                root: None,
                env,
                group: None,
                user: None,
                stdout: None,
                stderr: None,
            },
        )
    }

    /// Goes on from a supervisor that is there already.
    pub fn from_supervisor(supervisor: Supervisor) -> (res: Self)
        ensures
            res.0 == supervisor,
    {
        SupervisorBuilder(supervisor)
    }

    /// The supervisor that was put together.
    pub fn build(self) -> (res: Supervisor)
        ensures
            res == self.0,
    {
        self.0
    }

    /// The command that starts the supervising program for this
    /// supervisor.
    pub fn spawn(self) -> (res: Launch)
        ensures
            res.program@ == "kanit-supervisor"@,
            res.args.deep_view() == launch_args(self.0@),
    {
        let cfg = self.0;
        let ghost view = cfg@;
        let mut args: Vec<String> = Vec::new();
        assert(args.deep_view() =~= Seq::<Seq<char>>::empty());
        push_flag(
            &mut args,
            "-d",
            match cfg.restart_delay {
                Some(n) => Some(to_decimal(n)),
                None => None,
            },
        );
        push_flag(
            &mut args,
            "-a",
            match cfg.restart_attempts {
                Some(n) => Some(to_decimal(n)),
                None => None,
            },
        );
        push_flag(
            &mut args,
            "-P",
            match cfg.restart_policy {
                Some(p) => Some(p.to_string()),
                None => None,
            },
        );
        push_flag(&mut args, "-p", cfg.pwd);
        push_flag(&mut args, "-r", cfg.root);
        let ghost base = args.deep_view();
        let mut i: usize = 0;
        assert(view.env.subrange(0, 0) =~= Seq::<Seq<char>>::empty());
        while i < cfg.env.len()
            invariant
                i <= cfg.env.len(),
                view.env == cfg.env.deep_view(),
                args.deep_view() == base + env_flags(view.env.subrange(0, i as int)),
            decreases cfg.env.len() - i,
        {
            let ghost before = args.deep_view();
            args.push(String::from_str("-e"));
            args.push(cfg.env[i].clone());
            proof {
                let shorter = view.env.subrange(0, i as int);
                let longer = view.env.subrange(0, i + 1);
                assert(longer.drop_last() =~= shorter);
                assert(longer.last() == view.env[i as int]);
                assert(args.deep_view() =~= before + seq!["-e"@, view.env[i as int]]);
                assert(args.deep_view() =~= base + env_flags(longer));
            }
            i += 1;
        }
        assert(view.env.subrange(0, cfg.env.len() as int) =~= view.env);
        push_flag(&mut args, "-g", cfg.group);
        push_flag(&mut args, "-u", cfg.user);
        push_flag(&mut args, "--stdout", cfg.stdout);
        push_flag(&mut args, "--stderr", cfg.stderr);
        let ghost options = args.deep_view();
        args.push(String::from_str("--"));
        args.push(cfg.cmd);
        assert(args.deep_view() =~= options + seq!["--"@, view.cmd]);
        let ghost head = args.deep_view();
        let mut k: usize = 0;
        while k < cfg.args.len()
            invariant
                k <= cfg.args.len(),
                view.args == cfg.args.deep_view(),
                args.deep_view() == head + view.args.subrange(0, k as int),
            decreases cfg.args.len() - k,
        {
            let ghost before = args.deep_view();
            args.push(cfg.args[k].clone());
            proof {
                assert(args.deep_view() =~= before.push(view.args[k as int]));
                assert(view.args.subrange(0, k + 1) =~= view.args.subrange(0, k as int).push(
                    view.args[k as int],
                ));
                assert(args.deep_view() =~= head + view.args.subrange(0, k + 1));
            }
            k += 1;
        }
        assert(view.args.subrange(0, cfg.args.len() as int) =~= view.args);
        Launch { program: String::from_str("kanit-supervisor"), args }
    }

    /// Sets the seconds to wait before a restart.
    pub fn restart_delay(self, delay: u64) -> (res: Self)
        ensures
            res.0@ == (SupervisorView { restart_delay: Some(delay), ..self.0@ }),
    {
        let mut supervisor = self.0;
        supervisor.restart_delay = Some(delay);
        SupervisorBuilder(supervisor)
    }

    /// Sets how many restarts there may be.
    pub fn restart_attempts(self, attempts: u64) -> (res: Self)
        ensures
            res.0@ == (SupervisorView { restart_attempts: Some(attempts), ..self.0@ }),
    {
        let mut supervisor = self.0;
        supervisor.restart_attempts = Some(attempts);
        SupervisorBuilder(supervisor)
    }

    /// Sets when the child is started again.
    pub fn restart_policy(self, policy: RestartPolicy) -> (res: Self)
        ensures
            res.0@ == (SupervisorView { restart_policy: Some(policy), ..self.0@ }),
    {
        let mut supervisor = self.0;
        supervisor.restart_policy = Some(policy);
        SupervisorBuilder(supervisor)
    }

    /// Sets the directory to run in.
    pub fn pwd(self, pwd: String) -> (res: Self)
        ensures
            res.0@ == (SupervisorView { pwd: Some(pwd@), ..self.0@ }),
    {
        let mut supervisor = self.0;
        supervisor.pwd = Some(pwd);
        SupervisorBuilder(supervisor)
    }

    /// Sets the directory to take as the root.
    pub fn root(self, root: String) -> (res: Self)
        ensures
            res.0@ == (SupervisorView { root: Some(root@), ..self.0@ }),
    {
        let mut supervisor = self.0;
        supervisor.root = Some(root);
        SupervisorBuilder(supervisor)
    }

    /// Sets the variable `key` of the environment to `value`.
    pub fn env(self, key: String, value: String) -> (res: Self)
        ensures
            res.0@ == (SupervisorView { env: self.0@.env.push(key@ + "="@ + value@), ..self.0@ }),
    {
        let mut supervisor = self.0;
        let pair = key.concat("=").concat(value.as_str());
        supervisor.env.push(pair);
        assert(supervisor.env.deep_view() =~= self.0@.env.push(key@ + "="@ + value@));
        SupervisorBuilder(supervisor)
    }

    /// Sets the group to run as.
    pub fn group(self, group: String) -> (res: Self)
        ensures
            res.0@ == (SupervisorView { group: Some(group@), ..self.0@ }),
    {
        let mut supervisor = self.0;
        supervisor.group = Some(group);
        SupervisorBuilder(supervisor)
    }

    /// Sets the user to run as.
    pub fn user(self, user: String) -> (res: Self)
        ensures
            res.0@ == (SupervisorView { user: Some(user@), ..self.0@ }),
    {
        let mut supervisor = self.0;
        supervisor.user = Some(user);
        SupervisorBuilder(supervisor)
    }

    /// Sets the file that the standard output is appended to.
    pub fn stdout(self, stdout: String) -> (res: Self)
        ensures
            res.0@ == (SupervisorView { stdout: Some(stdout@), ..self.0@ }),
    {
        let mut supervisor = self.0;
        supervisor.stdout = Some(stdout);
        SupervisorBuilder(supervisor)
    }

    /// Sets the file that the standard error is appended to.
    pub fn stderr(self, stderr: String) -> (res: Self)
        ensures
            res.0@ == (SupervisorView { stderr: Some(stderr@), ..self.0@ }),
    {
        let mut supervisor = self.0;
        supervisor.stderr = Some(stderr);
        SupervisorBuilder(supervisor)
    }
}

/// A user or a group: by its number, or by a name still to be looked up.
#[derive(Debug)]
pub enum Account {
    Id(u32),
    Name(String),
}

/// The mathematical content of an [`Account`].
pub ghost enum AccountView {
    Id(u32),
    Name(Seq<char>),
}

impl View for Account {
    type V = AccountView;

    open spec fn view(&self) -> AccountView {
        match self {
            Account::Id(n) => AccountView::Id(*n),
            Account::Name(name) => AccountView::Name(name@),
        }
    }
}

/// The account that `text` stands for: a number where it is the numeral of
/// one, else a name.
pub open spec fn account_of(text: Seq<char>) -> AccountView {
    match parsed(text, 0xffff_ffff) {
        Some(n) => AccountView::Id(n as u32),
        None => AccountView::Name(text),
    }
}

/// Tells a numbered account from a named one.
pub fn account(text: &str) -> (res: Account)
    ensures
        res@ == account_of(text@),
{
    match parse_decimal(text, 0xffff_ffff) {
        Some(n) => Account::Id(n as u32),
        None => Account::Name(String::from_str(text)),
    }
}

/// The first `=` of `pair` stands at `i`.
pub open spec fn equals_at(pair: Seq<char>, i: int) -> bool {
    &&& 0 <= i < pair.len()
    &&& pair[i] == '='
    &&& forall|k: int| 0 <= k < i ==> pair[k] != '='
}

/// The name and the value of a variable written as `name=value`; nothing
/// where there is no `=`.
pub open spec fn pair_split(pair: Seq<char>) -> Option<(Seq<char>, Seq<char>)> {
    if exists|i: int| equals_at(pair, i) {
        let i = choose|i: int| equals_at(pair, i);
        Some((pair.subrange(0, i), pair.subrange(i + 1, pair.len() as int)))
    } else {
        None
    }
}

/// The variables among `env` that are written as `name=value`, split.
pub open spec fn env_pairs(env: Seq<Seq<char>>) -> Seq<(Seq<char>, Seq<char>)>
    decreases env.len(),
{
    if env.len() == 0 {
        Seq::empty()
    } else {
        match pair_split(env.last()) {
            Some(p) => env_pairs(env.drop_last()).push(p),
            None => env_pairs(env.drop_last()),
        }
    }
}

/// Splits a variable written as `name=value` at its first `=`.
pub fn split_variable(pair: &str) -> (res: Option<(String, String)>)
    ensures
        match res {
            Some((name, value)) => pair_split(pair@) == Some((name@, value@)),
            None => pair_split(pair@) is None,
        },
{
    match find_char(pair, '=') {
        Some(i) => {
            let len = pair.unicode_len();
            let name = String::from_str(pair.substring_char(0, i));
            let value = String::from_str(pair.substring_char(i + 1, len));
            proof {
                assert(equals_at(pair@, i as int));
                let j = choose|j: int| equals_at(pair@, j);
                assert(j == i) by {
                    if j < i {
                        assert(pair@[j] != '=');
                    }
                    if i < j {
                        assert(pair@[i as int] != '=');
                    }
                }
            }
            Some((name, value))
        },
        None => {
            assert forall|i: int| !equals_at(pair@, i) by {}
            None
        },
    }
}

/// The names and values of a list of variables.
pub open spec fn pairs_view(pairs: Seq<(String, String)>) -> Seq<(Seq<char>, Seq<char>)> {
    Seq::new(pairs.len(), |i: int| (pairs[i].0@, pairs[i].1@))
}

/// All that is needed to start the child of a supervisor.
#[derive(Debug)]
pub struct ChildSetup {
    pub cmd: String,
    pub args: Vec<String>,
    /// Variables to set, by name and value.
    pub env: Vec<(String, String)>,
    pub pwd: Option<String>,
    pub root: Option<String>,
    pub user: Option<Account>,
    pub group: Option<Account>,
    /// The file to append the standard output to; it is discarded where
    /// there is none.
    pub stdout: Option<String>,
    /// The file to append the standard error to; it is discarded where
    /// there is none.
    pub stderr: Option<String>,
}

/// The mathematical content of a [`ChildSetup`].
pub ghost struct ChildSetupView {
    pub cmd: Seq<char>,
    pub args: Seq<Seq<char>>,
    pub env: Seq<(Seq<char>, Seq<char>)>,
    pub pwd: Option<Seq<char>>,
    pub root: Option<Seq<char>>,
    pub user: Option<AccountView>,
    pub group: Option<AccountView>,
    pub stdout: Option<Seq<char>>,
    pub stderr: Option<Seq<char>>,
}

impl View for ChildSetup {
    type V = ChildSetupView;

    open spec fn view(&self) -> ChildSetupView {
        ChildSetupView {
            cmd: self.cmd@,
            args: self.args.deep_view(),
            env: pairs_view(self.env@),
            pwd: self.pwd.deep_view(),
            root: self.root.deep_view(),
            user: match self.user {
                Some(a) => Some(a@),
                None => None,
            },
            group: match self.group {
                Some(a) => Some(a@),
                None => None,
            },
            stdout: self.stdout.deep_view(),
            stderr: self.stderr.deep_view(),
        }
    }
}

/// What the child of the supervisor `s` is started with.
pub open spec fn child_setup(s: SupervisorView) -> ChildSetupView {
    ChildSetupView {
        cmd: s.cmd,
        args: s.args,
        env: env_pairs(s.env),
        pwd: s.pwd,
        root: s.root,
        user: match s.user {
            Some(u) => Some(account_of(u)),
            None => None,
        },
        group: match s.group {
            Some(g) => Some(account_of(g)),
            None => None,
        },
        stdout: s.stdout,
        stderr: s.stderr,
    }
}

/// Works out what the child of a supervisor is started with: its
/// variables split into names and values, those without `=` left out, and
/// its user and group told apart as numbers or names.
pub fn spawn(cfg: &Supervisor) -> (res: ChildSetup)
    ensures
        res@ == child_setup(cfg@),
{
    let ghost list = cfg.env.deep_view();
    let mut env: Vec<(String, String)> = Vec::new();
    let mut i: usize = 0;
    assert(list.subrange(0, 0) =~= Seq::<Seq<char>>::empty());
    assert(pairs_view(env@) =~= env_pairs(list.subrange(0, 0)));
    while i < cfg.env.len()
        invariant
            i <= cfg.env.len(),
            list == cfg.env.deep_view(),
            pairs_view(env@) == env_pairs(list.subrange(0, i as int)),
        decreases cfg.env.len() - i,
    {
        let ghost before = env@;
        proof {
            let longer = list.subrange(0, i + 1);
            assert(longer.drop_last() =~= list.subrange(0, i as int));
            assert(longer.last() == cfg.env[i as int]@);
        }
        match split_variable(cfg.env[i].as_str()) {
            Some(pair) => {
                env.push(pair);
                assert(pairs_view(env@) =~= pairs_view(before).push((pair.0@, pair.1@)));
            },
            None => {},
        }
        i += 1;
    }
    assert(list.subrange(0, cfg.env.len() as int) =~= list);
    ChildSetup {
        cmd: cfg.cmd.clone(),
        args: clone_strings(&cfg.args),
        env,
        pwd: clone_optional(&cfg.pwd),
        root: clone_optional(&cfg.root),
        user: match &cfg.user {
            Some(u) => Some(account(u.as_str())),
            None => None,
        },
        group: match &cfg.group {
            Some(g) => Some(account(g.as_str())),
            None => None,
        },
        stdout: clone_optional(&cfg.stdout),
        stderr: clone_optional(&cfg.stderr),
    }
}

} // verus!
