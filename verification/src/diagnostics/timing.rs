use crate::text::{decimal, to_decimal};
use vstd::prelude::*;
use vstd::string::*;

verus! {

/// A stretch of the boot that is timed.
#[derive(Debug)]
pub struct Scope {
    pub name: String,
    /// When it began, in microseconds.
    pub start: u64,
    /// How long it took, in microseconds, once it is over.
    pub duration: Option<u64>,
    /// How many scopes were open when it began.
    pub level: usize,
}

/// The mathematical content of a [`Scope`].
pub ghost struct ScopeView {
    pub name: Seq<char>,
    pub start: u64,
    pub duration: Option<u64>,
    pub level: usize,
}

impl View for Scope {
    type V = ScopeView;

    open spec fn view(&self) -> ScopeView {
        ScopeView { name: self.name@, start: self.start, duration: self.duration, level: self.level }
    }
}

impl DeepView for Scope {
    type V = ScopeView;

    open spec fn deep_view(&self) -> ScopeView {
        self@
    }
}

impl Clone for Scope {
    fn clone(&self) -> (res: Self)
        ensures
            res@ == self@,
    {
        Scope {
            name: self.name.clone(),
            start: self.start,
            duration: self.duration,
            level: self.level,
        }
    }
}

/// The scopes timed so far, and how many of them are open.
#[derive(Debug)]
pub struct Timer {
    pub scopes: Vec<Scope>,
    pub level: usize,
}

/// A timer that has timed nothing yet.
pub fn register() -> (res: Timer)
    ensures
        res.scopes@ == Seq::<Scope>::empty(),
        res.level == 0,
{
    Timer { scopes: Vec::new(), level: 0 }
}

/// Opens a scope at the time `now` and returns its number.
pub fn push_scope(timer: &mut Timer, name: String, now: u64) -> (id: usize)
    requires
        old(timer).level < usize::MAX,
    ensures
        id == old(timer).scopes.len(),
        final(timer).scopes.deep_view() == old(timer).scopes.deep_view().push(
            ScopeView { name: name@, start: now, duration: None, level: old(timer).level },
        ),
        final(timer).level == old(timer).level + 1,
{
    let level = timer.level;
    timer.scopes.push(Scope { name, start: now, duration: None, level });
    assert(timer.scopes.deep_view() =~= old(timer).scopes.deep_view().push(
        ScopeView { name: name@, start: now, duration: None, level },
    ));
    timer.level = level + 1;
    timer.scopes.len() - 1
}

/// How long a scope took that began at `start` and ended at `now`.
pub open spec fn elapsed(start: u64, now: u64) -> u64 {
    if now >= start {
        (now - start) as u64
    } else {
        0
    }
}

/// Closes a scope at the time `now`: the scope `id`, where one is given,
/// has taken the time since its start.
pub fn pop_scope(timer: &mut Timer, id: Option<usize>, now: u64)
    requires
        old(timer).level > 0,
        id is Some ==> id->Some_0 < old(timer).scopes.len(),
    ensures
        final(timer).level == old(timer).level - 1,
        final(timer).scopes.deep_view() == match id {
            Some(i) => old(timer).scopes.deep_view().update(
                i as int,
                ScopeView {
                    duration: Some(elapsed(old(timer).scopes[i as int].start, now)),
                    ..old(timer).scopes[i as int]@
                },
            ),
            None => old(timer).scopes.deep_view(),
        },
{
    if let Some(i) = id {
        let start = timer.scopes[i].start;
        let took = if now >= start {
            now - start
        } else {
            0
        };
        timer.scopes[i].duration = Some(took);
        assert(timer.scopes.deep_view() =~= old(timer).scopes.deep_view().update(
            i as int,
            ScopeView { duration: Some(elapsed(start, now)), ..old(timer).scopes[i as int]@ },
        ));
    }
    timer.level = timer.level - 1;
}

/// The scopes timed so far.
pub fn get_scopes(timer: &Timer) -> (res: Vec<Scope>)
    ensures
        res.deep_view() == timer.scopes.deep_view(),
{
    let mut res: Vec<Scope> = Vec::new();
    let mut i: usize = 0;
    while i < timer.scopes.len()
        invariant
            i <= timer.scopes.len(),
            res.len() == i,
            forall|k: int| 0 <= k < i ==> (#[trigger] res[k])@ == timer.scopes[k]@,
        decreases timer.scopes.len() - i,
    {
        res.push(timer.scopes[i].clone());
        i += 1;
    }
    assert(res.deep_view() =~= timer.scopes.deep_view());
    res
}

/// The line of a scope in the record of timings: its name, how long it
/// took and how deep it was, parted by blanks.
pub open spec fn scope_line(scope: ScopeView) -> Seq<char> {
    scope.name + " "@ + decimal(
        match scope.duration {
            Some(d) => d as nat,
            None => 0,
        },
    ) + " "@ + decimal(scope.level as nat) + "\n"@
}

/// Writes the line of a scope for the record of timings.
pub fn write_scope(scope: &Scope) -> (res: String)
    ensures
        res@ == scope_line(scope@),
{
    let took = match scope.duration {
        Some(d) => d,
        None => 0,
    };
    scope.name.clone().concat(" ").concat(to_decimal(took).as_str()).concat(" ").concat(
        to_decimal(scope.level as u64).as_str(),
    ).concat("\n")
}

} // verus!
