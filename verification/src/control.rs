use crate::db::database::{kept, kept_waves};
use crate::db::level::name_lists;
use crate::error::{Error, ErrorKind};
use crate::loader::{Loader, LoaderView};
use crate::names::{distinct, NameSet};
use crate::unit::{clone_names, UnitName};
use vstd::prelude::*;
use vstd::string::*;

verus! {

/// The units of one wave that are started, or stopped, together.
#[derive(Debug)]
pub struct Wave {
    /// The level of the wave.
    pub level: usize,
    /// Its place among the waves of the level.
    pub group: usize,
    pub units: Vec<UnitName>,
}

/// The mathematical content of a [`Wave`].
pub ghost struct WaveView {
    pub level: int,
    pub group: int,
    pub units: Seq<Seq<char>>,
}

impl View for Wave {
    type V = WaveView;

    open spec fn view(&self) -> WaveView {
        WaveView { level: self.level as int, group: self.group as int, units: self.units.deep_view() }
    }
}

impl DeepView for Wave {
    type V = WaveView;

    open spec fn deep_view(&self) -> WaveView {
        self@
    }
}

/// The waves of one level in the order of its plan, each with those of
/// its units that can be started and stopped.
pub open spec fn waves_at(loader: LoaderView, level: int) -> Seq<WaveView> {
    let waves = loader.database.levels[level];
    Seq::new(
        waves.len(),
        |g: int| WaveView { level, group: g, units: kept(waves[g], loader.map) },
    )
}

/// `name` stands in one of the first `upto` waves.
pub open spec fn in_waves(waves: Seq<Seq<Seq<char>>>, upto: int, name: Seq<char>) -> bool {
    exists|k: int| 0 <= k < upto && k < waves.len() && (#[trigger] waves[k]).contains(name)
}

/// `name` stands in the plan of one of the first `upto` levels.
pub open spec fn in_levels(levels: Seq<Seq<Seq<Seq<char>>>>, upto: int, name: Seq<char>) -> bool {
    exists|l: int|
        0 <= l < upto && l < levels.len() && in_waves(
            #[trigger] levels[l],
            levels[l].len() as int,
            name,
        )
}

/// The names that the plans hold before wave `group` of `level`: in a
/// lower level, or in an earlier wave of that level.
pub open spec fn listed_before(loader: LoaderView, level: int, group: int) -> Set<Seq<char>> {
    Set::new(
        |name: Seq<char>|
            in_levels(loader.database.levels, level, name) || in_waves(
                loader.database.levels[level],
                group,
                name,
            ),
    )
}

/// The names of `wave` that are started with it: those that can be
/// started and stand neither in `seen` nor at an earlier place of the
/// wave.
pub open spec fn fresh(wave: Seq<Seq<char>>, map: Set<Seq<char>>, seen: Set<Seq<char>>) -> Seq<
    Seq<char>,
>
    decreases wave.len(),
{
    if wave.len() == 0 {
        Seq::empty()
    } else if map.contains(wave.last()) && !seen.contains(wave.last())
        && !wave.drop_last().contains(wave.last()) {
        fresh(wave.drop_last(), map, seen).push(wave.last())
    } else {
        fresh(wave.drop_last(), map, seen)
    }
}

/// The waves of one level as they are started: each with those of its
/// units that can be started and that no plan holds at a lower level or in
/// an earlier wave. A unit is so started where it comes first, and there
/// only.
pub open spec fn first_waves_at(loader: LoaderView, level: int) -> Seq<WaveView> {
    let waves = loader.database.levels[level];
    Seq::new(
        waves.len(),
        |g: int|
            WaveView {
                level,
                group: g,
                units: fresh(waves[g], loader.map, listed_before(loader, level, g)),
            },
    )
}

/// The waves of the first `upto` levels in the order in which they are
/// started: level after level, and in each level wave after wave, every
/// unit in the first wave that holds it.
pub open spec fn boot_plan(loader: LoaderView, upto: nat) -> Seq<WaveView>
    decreases upto,
{
    if upto == 0 {
        Seq::empty()
    } else {
        boot_plan(loader, (upto - 1) as nat) + first_waves_at(loader, upto - 1)
    }
}

/// The waves of the first `upto` levels in the order in which they are
/// stopped: from the last level to the first, the waves of each level in
/// the order of its plan.
pub open spec fn teardown_plan(loader: LoaderView, upto: nat) -> Seq<WaveView>
    decreases upto,
{
    if upto == 0 {
        Seq::empty()
    } else {
        waves_at(loader, upto - 1) + teardown_plan(loader, (upto - 1) as nat)
    }
}

/// Appends the waves of `level` to `order`.
fn push_level(loader: &Loader, level: usize, order: &mut Vec<Wave>)
    requires
        level < loader.database.levels.len(),
    ensures
        final(order).deep_view() == old(order).deep_view() + waves_at(loader@, level as int),
{
    let groups = loader.get_level(level);
    let ghost base = order.deep_view();
    let ghost target = waves_at(loader@, level as int);
    let mut g: usize = 0;
    assert(name_lists(groups@).len() == target.len());
    assert(order.deep_view() =~= base + target.subrange(0, 0));
    while g < groups.len()
        invariant
            g <= groups.len(),
            groups.len() == target.len(),
            level < loader.database.levels.len(),
            target == waves_at(loader@, level as int),
            name_lists(groups@) == kept_waves(loader@.database.levels[level as int], loader@.map),
            order.deep_view() == base + target.subrange(0, g as int),
        decreases groups.len() - g,
    {
        let ghost before = order.deep_view();
        let wave = Wave { level, group: g, units: clone_names(&groups[g]) };
        assert(name_lists(groups@)[g as int] == groups[g as int].deep_view());
        assert(wave@ == target[g as int]);
        order.push(wave);
        assert(order.deep_view() =~= before.push(target[g as int]));
        assert(order.deep_view() =~= base + target.subrange(0, g + 1));
        g += 1;
    }
    assert(target.subrange(0, groups.len() as int) =~= target);
}

proof fn lemma_contains_last(s: Seq<Seq<char>>, name: Seq<char>)
    requires
        s.len() > 0,
    ensures
        s.contains(name) <==> s.drop_last().contains(name) || s.last() == name,
{
    if s.contains(name) {
        let i = choose|i: int| 0 <= i < s.len() && s[i] == name;
        if i < s.len() - 1 {
            assert(s.drop_last()[i] == name);
        }
    }
    if s.drop_last().contains(name) {
        let i = choose|i: int| 0 <= i < s.drop_last().len() && s.drop_last()[i] == name;
        assert(s[i] == name);
    }
    if s.last() == name {
        assert(s[s.len() - 1] == name);
    }
}

/// Appends the waves of `level` as they are started to `order`, and adds
/// the names of its plan to `seen`.
fn push_first_level(loader: &Loader, level: usize, seen: &mut NameSet, order: &mut Vec<Wave>)
    requires
        level < loader.database.levels.len(),
        forall|n: Seq<char>|
            old(seen)@.contains(n) <==> in_levels(loader@.database.levels, level as int, n),
    ensures
        final(order).deep_view() == old(order).deep_view() + first_waves_at(loader@, level as int),
        forall|n: Seq<char>|
            final(seen)@.contains(n) <==> in_levels(loader@.database.levels, level + 1, n),
{
    let groups = loader.database.levels[level].get_order();
    let ghost all = loader@.database.levels;
    let ghost waves = all[level as int];
    let ghost base = order.deep_view();
    let ghost target = first_waves_at(loader@, level as int);
    assert(waves == name_lists(groups@));
    let mut g: usize = 0;
    assert(order.deep_view() =~= base + target.subrange(0, 0));
    while g < groups.len()
        invariant
            g <= groups.len(),
            level < loader.database.levels.len(),
            all == loader@.database.levels,
            waves == all[level as int],
            waves == name_lists(groups@),
            target == first_waves_at(loader@, level as int),
            forall|n: Seq<char>|
                seen@.contains(n) <==> listed_before(loader@, level as int, g as int).contains(n),
            order.deep_view() == base + target.subrange(0, g as int),
        decreases groups.len() - g,
    {
        let group = &groups[g];
        let ghost wave = group.deep_view();
        let ghost earlier = listed_before(loader@, level as int, g as int);
        assert(waves[g as int] == wave);
        let mut units: Vec<UnitName> = Vec::new();
        let mut p: usize = 0;
        assert(wave.subrange(0, 0) =~= Seq::<Seq<char>>::empty());
        assert(units.deep_view() =~= fresh(wave.subrange(0, 0), loader@.map, earlier));
        while p < group.len()
            invariant
                p <= group.len(),
                wave == group.deep_view(),
                forall|n: Seq<char>|
                    seen@.contains(n) <==> earlier.contains(n) || wave.subrange(
                        0,
                        p as int,
                    ).contains(n),
                units.deep_view() == fresh(wave.subrange(0, p as int), loader@.map, earlier),
            decreases group.len() - p,
        {
            let name = &group[p];
            let ghost shorter = wave.subrange(0, p as int);
            let ghost longer = wave.subrange(0, p + 1);
            let ghost listed = units.deep_view();
            proof {
                assert(longer.drop_last() =~= shorter);
                assert(longer.last() == name@);
                assert forall|n: Seq<char>|
                    longer.contains(n) <==> shorter.contains(n) || n == name@ by {
                    lemma_contains_last(longer, n);
                }
            }
            let ghost seen_before = seen@;
            assert(!seen_before.contains(name@) <==> !earlier.contains(name@) && !shorter.contains(
                name@,
            ));
            if loader.map.contains(name) && !seen.contains(name) {
                units.push(name.clone());
                assert(units.deep_view() =~= listed.push(name@));
            }
            assert(units.deep_view() == fresh(longer, loader@.map, earlier));
            seen.insert(name.clone());
            proof {
                assert forall|n: Seq<char>|
                    seen@.contains(n) <==> earlier.contains(n) || longer.contains(n) by {
                    assert(seen@.contains(n) <==> seen_before.contains(n) || n == name@);
                    assert(seen_before.contains(n) <==> earlier.contains(n) || shorter.contains(n));
                }
            }
            p += 1;
        }
        assert(wave.subrange(0, group.len() as int) =~= wave);
        assert forall|n: Seq<char>| seen@.contains(n) <==> earlier.contains(n) || wave.contains(n) by {}
        let ghost before = order.deep_view();
        let wave_out = Wave { level, group: g, units };
        assert(wave_out@ == target[g as int]);
        order.push(wave_out);
        proof {
            assert(order.deep_view() =~= before.push(target[g as int]));
            assert(order.deep_view() =~= base + target.subrange(0, g + 1));
            assert forall|n: Seq<char>|
                seen@.contains(n) <==> listed_before(loader@, level as int, g + 1).contains(n) by {
                assert(seen@.contains(n) <==> earlier.contains(n) || wave.contains(n));
                assert(earlier.contains(n) <==> in_levels(all, level as int, n) || in_waves(
                    waves,
                    g as int,
                    n,
                ));
                if in_waves(waves, g + 1, n) {
                    let k = choose|k: int|
                        0 <= k < g + 1 && k < waves.len() && (#[trigger] waves[k]).contains(n);
                    if k < g {
                        assert(in_waves(waves, g as int, n));
                    } else {
                        assert(waves[k] == wave);
                    }
                }
                if in_waves(waves, g as int, n) {
                    let k = choose|k: int|
                        0 <= k < g && k < waves.len() && (#[trigger] waves[k]).contains(n);
                    assert(0 <= k < g + 1 && k < waves.len() && waves[k].contains(n));
                }
                if wave.contains(n) {
                    assert(0 <= g < g + 1 && g < waves.len() && waves[g as int].contains(n));
                }
            }
        }
        g += 1;
    }
    proof {
        assert(target.subrange(0, groups.len() as int) =~= target);
        assert forall|n: Seq<char>| seen@.contains(n) <==> in_levels(all, level + 1, n) by {
            if in_levels(all, level + 1, n) {
                let l = choose|l: int|
                    0 <= l < level + 1 && l < all.len() && in_waves(
                        #[trigger] all[l],
                        all[l].len() as int,
                        n,
                    );
                if l < level {
                    assert(in_levels(all, level as int, n));
                }
            }
            if in_levels(all, level as int, n) {
                let l = choose|l: int|
                    0 <= l < level && l < all.len() && in_waves(
                        #[trigger] all[l],
                        all[l].len() as int,
                        n,
                    );
                assert(0 <= l < level + 1 && l < all.len() && in_waves(all[l], all[l].len() as int, n));
            }
            if in_waves(waves, waves.len() as int, n) {
                assert(0 <= level < level + 1 && level < all.len() && in_waves(
                    all[level as int],
                    all[level as int].len() as int,
                    n,
                ));
            }
        }
    }
}

/// The waves to start at boot, in order: every wave is started as a whole
/// and has to be through before the next begins. A unit that the plans
/// hold more than once is started with the first wave that holds it, and
/// not again.
pub fn boot_order(loader: &Loader) -> (order: Vec<Wave>)
    ensures
        order.deep_view() == boot_plan(loader@, loader.database.levels.len() as nat),
{
    let levels = loader.get_levels();
    let mut order: Vec<Wave> = Vec::new();
    let mut seen = NameSet::new();
    let mut level: usize = 0;
    assert(order.deep_view() =~= boot_plan(loader@, 0));
    while level < levels
        invariant
            level <= levels,
            levels == loader.database.levels.len(),
            order.deep_view() == boot_plan(loader@, level as nat),
            forall|n: Seq<char>|
                seen@.contains(n) <==> in_levels(loader@.database.levels, level as int, n),
        decreases levels - level,
    {
        push_first_level(loader, level, &mut seen, &mut order);
        level += 1;
    }
    order
}

proof fn lemma_fresh(wave: Seq<Seq<char>>, map: Set<Seq<char>>, seen: Set<Seq<char>>)
    ensures
        forall|n: Seq<char>|
            fresh(wave, map, seen).contains(n) ==> wave.contains(n) && map.contains(n)
                && !seen.contains(n),
        distinct(fresh(wave, map, seen)),
    decreases wave.len(),
{
    if wave.len() > 0 {
        let rest = wave.drop_last();
        let last = wave.last();
        lemma_fresh(rest, map, seen);
        let before = fresh(rest, map, seen);
        let all = fresh(wave, map, seen);
        assert forall|n: Seq<char>| all.contains(n) implies wave.contains(n) && map.contains(n)
            && !seen.contains(n) by {
            lemma_contains_last(wave, n);
            if all != before {
                lemma_contains_last(all, n);
                assert(all.drop_last() =~= before);
            }
        }
        if all != before {
            assert forall|i: int, j: int| 0 <= i < j < all.len() implies #[trigger] all[i]
                != #[trigger] all[j] by {
                if j == all.len() - 1 {
                    assert(before[i] == all[i]);
                    assert(before.contains(all[i]));
                } else {
                    assert(before[i] != before[j]);
                }
            }
        }
    }
}

/// The wave at place `i` of the boot is a wave of the plans, and its place
/// is told by its level and its place in the level.
proof fn lemma_boot_entry(loader: LoaderView, upto: nat, i: int)
    requires
        upto <= loader.database.levels.len(),
        0 <= i < boot_plan(loader, upto).len(),
    ensures
        ({
            let w = boot_plan(loader, upto)[i];
            &&& 0 <= w.level < upto
            &&& 0 <= w.group < loader.database.levels[w.level].len()
            &&& w == first_waves_at(loader, w.level)[w.group]
            &&& i == boot_plan(loader, w.level as nat).len() + w.group
        }),
    decreases upto,
{
    if upto > 0 {
        let before = boot_plan(loader, (upto - 1) as nat);
        let here = first_waves_at(loader, upto - 1);
        if i < before.len() {
            lemma_boot_entry(loader, (upto - 1) as nat, i);
            assert(boot_plan(loader, upto)[i] == before[i]);
        } else {
            assert(boot_plan(loader, upto)[i] == here[i - before.len()]);
        }
    }
}

/// At boot a unit is started once at most: no name stands at two places of
/// the waves that are started.
pub proof fn law_boot_starts_once(loader: LoaderView, upto: nat, i: int, p: int, j: int, q: int)
    requires
        upto <= loader.database.levels.len(),
        0 <= i < boot_plan(loader, upto).len(),
        0 <= j < boot_plan(loader, upto).len(),
        0 <= p < boot_plan(loader, upto)[i].units.len(),
        0 <= q < boot_plan(loader, upto)[j].units.len(),
        boot_plan(loader, upto)[i].units[p] == boot_plan(loader, upto)[j].units[q],
    ensures
        i == j,
        p == q,
{
    let plan = boot_plan(loader, upto);
    let levels = loader.database.levels;
    let name = plan[i].units[p];
    lemma_boot_entry(loader, upto, i);
    lemma_boot_entry(loader, upto, j);
    let (li, gi) = (plan[i].level, plan[i].group);
    let (lj, gj) = (plan[j].level, plan[j].group);
    lemma_fresh(levels[li][gi], loader.map, listed_before(loader, li, gi));
    lemma_fresh(levels[lj][gj], loader.map, listed_before(loader, lj, gj));
    assert(plan[i].units.contains(name));
    assert(plan[j].units.contains(name));
    assert(levels[li][gi].contains(name));
    assert(levels[lj][gj].contains(name));
    if li == lj && gi == gj {
        if p < q {
            assert(plan[i].units[p] != plan[i].units[q]);
        }
        if q < p {
            assert(plan[i].units[q] != plan[i].units[p]);
        }
    } else if li < lj {
        assert(in_waves(levels[li], levels[li].len() as int, name));
        assert(in_levels(levels, lj, name));
        assert(listed_before(loader, lj, gj).contains(name));
    } else if lj < li {
        assert(in_waves(levels[lj], levels[lj].len() as int, name));
        assert(in_levels(levels, li, name));
        assert(listed_before(loader, li, gi).contains(name));
    } else if gi < gj {
        assert(in_waves(levels[lj], gj, name));
        assert(listed_before(loader, lj, gj).contains(name));
    } else {
        assert(in_waves(levels[li], gi, name));
        assert(listed_before(loader, li, gi).contains(name));
    }
}

/// At boot every unit that can be started and that a plan holds is
/// started: what a wave of the plans holds and does not start was held by
/// the plans before.
pub proof fn law_boot_starts_all(loader: LoaderView, level: int, group: int, name: Seq<char>)
    requires
        0 <= level < loader.database.levels.len(),
        0 <= group < loader.database.levels[level].len(),
        loader.database.levels[level][group].contains(name),
        loader.map.contains(name),
    ensures
        first_waves_at(loader, level)[group].units.contains(name) || listed_before(
            loader,
            level,
            group,
        ).contains(name),
{
    if !listed_before(loader, level, group).contains(name) {
        lemma_fresh_takes(
            loader.database.levels[level][group],
            loader.map,
            listed_before(loader, level, group),
            name,
        );
    }
}

proof fn lemma_fresh_takes(
    wave: Seq<Seq<char>>,
    map: Set<Seq<char>>,
    seen: Set<Seq<char>>,
    name: Seq<char>,
)
    requires
        wave.contains(name),
        map.contains(name),
        !seen.contains(name),
    ensures
        fresh(wave, map, seen).contains(name),
    decreases wave.len(),
{
    lemma_contains_last(wave, name);
    let rest = wave.drop_last();
    let all = fresh(wave, map, seen);
    if rest.contains(name) {
        lemma_fresh_takes(rest, map, seen, name);
        let before = fresh(rest, map, seen);
        let i = choose|i: int| 0 <= i < before.len() && before[i] == name;
        if all != before {
            assert(all[i] == name);
        }
    } else {
        assert(all[all.len() - 1] == name);
    }
}

/// The waves to stop at teardown, in order: the levels from the last to
/// the first, the waves of each level as its plan lists them.
pub fn teardown_order(loader: &Loader) -> (order: Vec<Wave>)
    ensures
        order.deep_view() == teardown_plan(loader@, loader.database.levels.len() as nat),
{
    let levels = loader.get_levels();
    let mut order: Vec<Wave> = Vec::new();
    let mut level: usize = levels;
    assert(order.deep_view() + teardown_plan(loader@, levels as nat) =~= teardown_plan(
        loader@,
        levels as nat,
    ));
    while level > 0
        invariant
            level <= levels,
            levels == loader.database.levels.len(),
            order.deep_view() + teardown_plan(loader@, level as nat) == teardown_plan(
                loader@,
                levels as nat,
            ),
        decreases level,
    {
        let ghost before = order.deep_view();
        level -= 1;
        push_level(loader, level, &mut order);
        proof {
            let here = waves_at(loader@, level as int);
            let rest = teardown_plan(loader@, level as nat);
            assert((before + here) + rest =~= before + (here + rest));
        }
    }
    assert(order.deep_view() + Seq::<WaveView>::empty() =~= order.deep_view());
    order
}

/// How to go on once a unit was asked whether it can start.
#[derive(Debug)]
pub enum Prepared {
    /// Start the unit.
    Go,
    /// Pass the unit over: it is not ready, which is no failure.
    Skip,
    /// The preparations failed and the boot goes on without the unit.
    Failed(Error),
    /// The preparations failed in a way that puts the boot in question.
    Critical(Error),
}

/// Judges the preparations of a unit at boot: a unit that is ready is
/// started, one that is not is passed over. A failure that can be
/// recovered from is passed over too, any other is critical.
pub fn after_prepare(prepared: Result<bool, Error>) -> (res: Prepared)
    ensures
        match prepared {
            Ok(true) => res is Go,
            Ok(false) => res is Skip,
            Err(e) => if e.kind == ErrorKind::Recoverable {
                res == Prepared::Failed(e)
            } else {
                res == Prepared::Critical(e)
            },
        },
{
    match prepared {
        Ok(true) => Prepared::Go,
        Ok(false) => Prepared::Skip,
        Err(e) => {
            if e.is_recoverable() {
                Prepared::Failed(e)
            } else {
                Prepared::Critical(e)
            }
        },
    }
}

/// What the start of a unit came to.
#[derive(Debug)]
pub enum Started {
    /// The unit is up.
    Up,
    /// The unit failed and the boot goes on without it.
    Failed(Error),
    /// The unit failed in a way that puts the boot in question.
    Critical(Error),
}

/// Judges the start of a unit at boot: a failure that can be recovered
/// from is passed over, any other is critical.
pub fn after_start(started: Result<(), Error>) -> (res: Started)
    ensures
        match started {
            Ok(()) => res is Up,
            Err(e) => if e.kind == ErrorKind::Recoverable {
                res == Started::Failed(e)
            } else {
                res == Started::Critical(e)
            },
        },
{
    match started {
        Ok(()) => Started::Up,
        Err(e) => {
            if e.is_recoverable() {
                Started::Failed(e)
            } else {
                Started::Critical(e)
            }
        },
    }
}

/// What to do about a critical failure.
#[derive(Debug)]
pub enum Critical {
    /// Go on with the boot.
    Continue,
    /// Give the boot up with this error.
    Abort(Error),
    /// Ask again.
    Ask(Error),
}

/// Decides about a critical failure from the answer to the question
/// whether to continue. Where nobody can be asked there is no answer, and
/// the boot is given up. An answer that begins with `y` continues, one
/// that begins with `n` gives up, any other has the question asked again.
pub fn critical_unit_fail(err: Error, answer: Option<&str>) -> (res: Critical)
    ensures
        match answer {
            None => res == Critical::Abort(err),
            Some(text) => if text@.len() > 0 && text@[0] == 'y' {
                res is Continue
            } else if text@.len() > 0 && text@[0] == 'n' {
                res == Critical::Abort(err)
            } else {
                res == Critical::Ask(err)
            },
        },
{
    match answer {
        None => Critical::Abort(err),
        Some(text) => {
            if text.unicode_len() == 0 {
                return Critical::Ask(err);
            }
            let first = text.get_char(0);
            if first == 'y' {
                Critical::Continue
            } else if first == 'n' {
                Critical::Abort(err)
            } else {
                Critical::Ask(err)
            }
        },
    }
}

} // verus!
