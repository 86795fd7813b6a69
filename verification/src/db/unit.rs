use crate::supervisor::{
    launch_args, Launch, RestartPolicy, Supervisor, SupervisorBuilder, SupervisorView,
};
use crate::text::clone_optional;
use crate::unit::{
    clone_names, Dependencies, DependenciesView, Unit, UnitInfo, UnitInfoView, UnitKind, UnitName,
};
use vstd::prelude::*;
use vstd::string::*;

verus! {

/// A unit that is declared in a file: a program to run once or to keep up,
/// and what it says of other units.
#[derive(Debug)]
pub struct DbUnit {
    pub name: UnitName,
    pub kind: UnitKind,
    pub description: Option<String>,
    pub before: Vec<UnitName>,
    pub after: Vec<UnitName>,
    pub needs: Vec<UnitName>,
    pub uses: Vec<UnitName>,
    pub wants: Vec<UnitName>,
    pub supervisor_opts: Supervisor,
    /// The process that controls the unit while it is up: its supervisor.
    pub pid: u32,
}

/// The mathematical content of a [`DbUnit`].
pub ghost struct DbUnitView {
    pub name: Seq<char>,
    pub kind: UnitKind,
    pub description: Option<Seq<char>>,
    pub dependencies: DependenciesView,
    pub supervisor_opts: SupervisorView,
    pub pid: u32,
}

impl View for DbUnit {
    type V = DbUnitView;

    open spec fn view(&self) -> DbUnitView {
        DbUnitView {
            name: self.name@,
            kind: self.kind,
            description: self.description.deep_view(),
            dependencies: DependenciesView {
                needs: self.needs.deep_view(),
                uses: self.uses.deep_view(),
                wants: self.wants.deep_view(),
                before: self.before.deep_view(),
                after: self.after.deep_view(),
            },
            supervisor_opts: self.supervisor_opts@,
            pid: self.pid,
        }
    }
}

impl DeepView for DbUnit {
    type V = DbUnitView;

    open spec fn deep_view(&self) -> DbUnitView {
        self@
    }
}

impl DbUnitView {
    /// The options its supervisor is started with: a unit that runs once
    /// is run again only after it failed.
    pub open spec fn launch_opts(self) -> SupervisorView {
        if self.kind == UnitKind::Oneshot {
            SupervisorView {
                restart_policy: Some(RestartPolicy::OnFailure),
                ..self.supervisor_opts
            }
        } else {
            self.supervisor_opts
        }
    }
}

impl Unit for DbUnit {
    open spec fn name_view(&self) -> Seq<char> {
        self@.name
    }

    open spec fn dependencies_view(&self) -> DependenciesView {
        self@.dependencies
    }

    open spec fn description_view(&self) -> Option<Seq<char>> {
        self@.description
    }

    fn name(&self) -> (res: UnitName) {
        self.name.clone()
    }

    fn description(&self) -> (res: Option<String>) {
        clone_optional(&self.description)
    }

    fn dependencies(&self) -> (res: Dependencies) {
        Dependencies {
            needs: clone_names(&self.needs),
            uses: clone_names(&self.uses),
            wants: clone_names(&self.wants),
            before: clone_names(&self.before),
            after: clone_names(&self.after),
        }
    }
}

impl DbUnit {
    /// What the resolver has to know of this unit.
    pub fn get_unit_info(&self) -> (res: UnitInfo)
        ensures
            res@ == (UnitInfoView { name: self@.name, dependencies: self@.dependencies }),
    {
        UnitInfo::new(self)
    }

    /// Prepares the start of the unit: fixes the options of its supervisor
    /// and yields the command that launches the supervisor.
    pub fn start(&mut self) -> (res: Launch)
        ensures
            final(self)@ == (DbUnitView { supervisor_opts: old(self)@.launch_opts(), ..old(self)@ }),
            res.program@ == "kanit-supervisor"@,
            res.args.deep_view() == launch_args(old(self)@.launch_opts()),
    {
        if self.kind == UnitKind::Oneshot {
            self.supervisor_opts.restart_policy = Some(RestartPolicy::OnFailure);
        }
        SupervisorBuilder::from_supervisor(self.supervisor_opts.clone()).spawn()
    }

    /// Records the supervisor that was launched for the unit.
    pub fn started(&mut self, pid: u32)
        ensures
            final(self)@ == (DbUnitView { pid, ..old(self)@ }),
    {
        self.pid = pid;
    }

    /// The process to signal in order to stop the unit.
    pub fn pid(&self) -> (res: u32)
        ensures
            res == self.pid,
    {
        self.pid
    }
}

impl Clone for DbUnit {
    fn clone(&self) -> (res: Self)
        ensures
            res@ == self@,
    {
        DbUnit {
            name: self.name.clone(),
            kind: self.kind,
            description: clone_optional(&self.description),
            before: clone_names(&self.before),
            after: clone_names(&self.after),
            needs: clone_names(&self.needs),
            uses: clone_names(&self.uses),
            wants: clone_names(&self.wants),
            supervisor_opts: self.supervisor_opts.clone(),
            pid: self.pid,
        }
    }
}

} // verus!
