use vstd::prelude::*;

verus! {

/// The name of a unit. Units are told apart by their names alone.
pub type UnitName = String;

/// What a unit declares about other units.
#[derive(Debug)]
pub struct Dependencies {
    /// Units that must be started before this one; this unit cannot run
    /// without them.
    pub needs: Vec<UnitName>,
    /// Units this one makes use of, without asking for them to be started.
    pub uses: Vec<UnitName>,
    /// Units that are started before this one where they exist.
    pub wants: Vec<UnitName>,
    /// Units that this one should run before.
    pub before: Vec<UnitName>,
    /// Units that this one should run after.
    pub after: Vec<UnitName>,
}

/// The mathematical content of a [`Dependencies`] value.
pub ghost struct DependenciesView {
    pub needs: Seq<Seq<char>>,
    pub uses: Seq<Seq<char>>,
    pub wants: Seq<Seq<char>>,
    pub before: Seq<Seq<char>>,
    pub after: Seq<Seq<char>>,
}

impl DependenciesView {
    /// These declarations, and the need of `name`.
    pub open spec fn need(self, name: Seq<char>) -> Self {
        DependenciesView { needs: self.needs.push(name), ..self }
    }

    /// These declarations, and the use of `name`.
    pub open spec fn uses(self, name: Seq<char>) -> Self {
        DependenciesView { uses: self.uses.push(name), ..self }
    }

    /// These declarations, and the want of `name`.
    pub open spec fn want(self, name: Seq<char>) -> Self {
        DependenciesView { wants: self.wants.push(name), ..self }
    }

    /// These declarations, and that the unit runs before `name`.
    pub open spec fn before(self, name: Seq<char>) -> Self {
        DependenciesView { before: self.before.push(name), ..self }
    }

    /// These declarations, and that the unit runs after `name`.
    pub open spec fn after(self, name: Seq<char>) -> Self {
        DependenciesView { after: self.after.push(name), ..self }
    }

    /// No declaration at all.
    pub open spec fn empty() -> Self {
        DependenciesView {
            needs: Seq::empty(),
            uses: Seq::empty(),
            wants: Seq::empty(),
            before: Seq::empty(),
            after: Seq::empty(),
        }
    }
}

impl View for Dependencies {
    type V = DependenciesView;

    open spec fn view(&self) -> DependenciesView {
        DependenciesView {
            needs: self.needs.deep_view(),
            uses: self.uses.deep_view(),
            wants: self.wants.deep_view(),
            before: self.before.deep_view(),
            after: self.after.deep_view(),
        }
    }
}

impl Dependencies {
    /// No declaration at all.
    pub fn new() -> (res: Self)
        ensures
            res@ == DependenciesView::empty(),
    {
        let res = Dependencies {
            needs: Vec::new(),
            uses: Vec::new(),
            wants: Vec::new(),
            before: Vec::new(),
            after: Vec::new(),
        };
        assert(res.needs.deep_view() =~= Seq::<Seq<char>>::empty());
        assert(res.uses.deep_view() =~= Seq::<Seq<char>>::empty());
        assert(res.wants.deep_view() =~= Seq::<Seq<char>>::empty());
        assert(res.before.deep_view() =~= Seq::<Seq<char>>::empty());
        assert(res.after.deep_view() =~= Seq::<Seq<char>>::empty());
        res
    }

    /// Declares that this unit cannot run without `dependency`.
    pub fn need(&mut self, dependency: UnitName) -> (ret: &mut Self)
        ensures
            ret@ == old(self)@.need(dependency@),
            *final(self) == *final(ret),
    {
        self.needs.push(dependency);
        assert(self.needs.deep_view() =~= old(self).needs.deep_view().push(dependency@));
        self
    }

    /// Declares that this unit makes use of `dependency`.
    pub fn uses(&mut self, dependency: UnitName) -> (ret: &mut Self)
        ensures
            ret@ == old(self)@.uses(dependency@),
            *final(self) == *final(ret),
    {
        self.uses.push(dependency);
        assert(self.uses.deep_view() =~= old(self).uses.deep_view().push(dependency@));
        self
    }

    /// Declares that `dependency` is started before this unit where it exists.
    pub fn want(&mut self, dependency: UnitName) -> (ret: &mut Self)
        ensures
            ret@ == old(self)@.want(dependency@),
            *final(self) == *final(ret),
    {
        self.wants.push(dependency);
        assert(self.wants.deep_view() =~= old(self).wants.deep_view().push(dependency@));
        self
    }

    /// Declares that this unit should run before `dependency`.
    pub fn before(&mut self, dependency: UnitName) -> (ret: &mut Self)
        ensures
            ret@ == old(self)@.before(dependency@),
            *final(self) == *final(ret),
    {
        self.before.push(dependency);
        assert(self.before.deep_view() =~= old(self).before.deep_view().push(dependency@));
        self
    }

    /// Declares that this unit should run after `dependency`.
    pub fn after(&mut self, dependency: UnitName) -> (ret: &mut Self)
        ensures
            ret@ == old(self)@.after(dependency@),
            *final(self) == *final(ret),
    {
        self.after.push(dependency);
        assert(self.after.deep_view() =~= old(self).after.deep_view().push(dependency@));
        self
    }
}

/// Copies a list of names.
pub fn clone_names(names: &Vec<UnitName>) -> (res: Vec<UnitName>)
    ensures
        res.deep_view() == names.deep_view(),
{
    let mut res: Vec<UnitName> = Vec::new();
    let mut i: usize = 0;
    while i < names.len()
        invariant
            i <= names.len(),
            res.len() == i,
            forall|k: int| 0 <= k < i ==> res[k]@ == names[k]@,
        decreases names.len() - i,
    {
        res.push(names[i].clone());
        i += 1;
    }
    assert(res.deep_view() =~= names.deep_view());
    res
}

impl Clone for Dependencies {
    fn clone(&self) -> (res: Self)
        ensures
            res@ == self@,
    {
        Dependencies {
            needs: clone_names(&self.needs),
            uses: clone_names(&self.uses),
            wants: clone_names(&self.wants),
            before: clone_names(&self.before),
            after: clone_names(&self.after),
        }
    }
}

impl DeepView for Dependencies {
    type V = DependenciesView;

    open spec fn deep_view(&self) -> DependenciesView {
        self@
    }
}

/// A unit as the resolver sees it: its name and what it declares about
/// other units, apart from any running state.
#[derive(Debug)]
pub struct UnitInfo {
    pub name: UnitName,
    pub dependencies: Dependencies,
}

/// The mathematical content of a [`UnitInfo`].
pub ghost struct UnitInfoView {
    pub name: Seq<char>,
    pub dependencies: DependenciesView,
}

impl View for UnitInfo {
    type V = UnitInfoView;

    open spec fn view(&self) -> UnitInfoView {
        UnitInfoView { name: self.name@, dependencies: self.dependencies@ }
    }
}

impl DeepView for UnitInfo {
    type V = UnitInfoView;

    open spec fn deep_view(&self) -> UnitInfoView {
        self@
    }
}

/// What every unit tells of itself, whatever it does when it is started
/// or stopped.
pub trait Unit {
    /// The name of the unit, as a mathematical value.
    spec fn name_view(&self) -> Seq<char>;

    /// What the unit declares about other units, as a mathematical value.
    spec fn dependencies_view(&self) -> DependenciesView;

    /// The description of the unit, as a mathematical value.
    spec fn description_view(&self) -> Option<Seq<char>>;

    /// The name of the unit.
    fn name(&self) -> (res: UnitName)
        ensures
            res@ == self.name_view(),
    ;

    /// A description of the unit.
    fn description(&self) -> (res: Option<String>)
        ensures
            res.deep_view() == self.description_view(),
    ;

    /// What the unit declares about other units.
    fn dependencies(&self) -> (res: Dependencies)
        ensures
            res@ == self.dependencies_view(),
    ;
}

impl UnitInfo {
    /// What the resolver has to know of `unit`.
    pub fn new<U: Unit>(unit: &U) -> (res: Self)
        ensures
            res@ == (UnitInfoView {
                name: unit.name_view(),
                dependencies: unit.dependencies_view(),
            }),
    {
        UnitInfo { name: unit.name(), dependencies: unit.dependencies() }
    }
}

impl Clone for UnitInfo {
    fn clone(&self) -> (res: Self)
        ensures
            res@ == self@,
    {
        UnitInfo { name: self.name.clone(), dependencies: self.dependencies.clone() }
    }
}

/// How a declared unit runs.
#[derive(Debug, Clone, Copy, PartialEq, Eq, Structural)]
pub enum UnitKind {
    /// Runs to completion once.
    Oneshot,
    /// Stays up and is kept up by a supervisor.
    Daemon,
}

} // verus!
