use crate::db::database::{enabled_sets, is_build_failure, kept, level_fails, level_views};
use crate::db::catalogue::names_distinct;
use crate::db::level::{
    in_level, is_level_plan, lemma_loaded_in_range, lemma_seed_loaded, level_placed, loaded,
    loaded_name, name_lists,
};
use crate::error::{Error, ErrorKind, ErrorView, Failure, FailureView};
use crate::loader::{Loader, LoaderView};
use crate::names::{distinct, NameSet};
use crate::sort::known;
use crate::text::{parse_decimal, parsed, trim_text, trimmed};
use crate::unit::{UnitInfoView, UnitName};
use vstd::prelude::*;
use vstd::string::*;

verus! {

/// The text that `String::from_utf8_lossy` makes of these bytes.
pub uninterp spec fn utf8_lossy(bytes: Seq<u8>) -> Seq<char>;

/// Reads bytes as text with `String::from_utf8_lossy`, which puts a mark
/// in place of whatever is no UTF-8. Nothing is claimed of the text but
/// that the same bytes always give the same text.
#[verifier::external_body]
fn lossy_text(bytes: &Vec<u8>) -> (res: String)
    ensures
        res@ == utf8_lossy(bytes@),
{
    String::from_utf8_lossy(bytes).into_owned()
}

/// `data` begins with the letters of `word`, one byte for each.
pub open spec fn begins_with(data: Seq<u8>, word: Seq<char>) -> bool {
    &&& word.len() <= data.len()
    &&& forall|i: int| 0 <= i < word.len() ==> #[trigger] data[i] == word[i] as u8
}

/// Whether `data` begins with `word`.
pub fn starts_with(data: &Vec<u8>, word: &str) -> (res: bool)
    ensures
        res == begins_with(data@, word@),
{
    let len = word.unicode_len();
    if len > data.len() {
        return false;
    }
    let mut i: usize = 0;
    while i < len
        invariant
            i <= len,
            len == word@.len(),
            len <= data.len(),
            forall|k: int| 0 <= k < i ==> #[trigger] data[k] == word@[k] as u8,
        decreases len - i,
    {
        if data[i] != word.get_char(i) as u8 {
            return false;
        }
        i += 1;
    }
    true
}

/// Where the first colon of `data` stands; its length where it has none.
pub open spec fn first_colon(data: Seq<u8>) -> int
    decreases data.len(),
{
    if data.len() == 0 || data[0] == 58 {
        0
    } else {
        1 + first_colon(data.subrange(1, data.len() as int))
    }
}

/// The `n`-th of the fields that colons part `data` into, counted from 0.
pub open spec fn field(data: Seq<u8>, n: nat) -> Option<Seq<u8>>
    decreases n,
{
    let colon = first_colon(data);
    if n == 0 {
        Some(data.subrange(0, colon))
    } else if colon >= data.len() {
        None
    } else {
        field(data.subrange(colon + 1, data.len() as int), (n - 1) as nat)
    }
}

proof fn lemma_first_colon(data: Seq<u8>)
    ensures
        0 <= first_colon(data) <= data.len(),
        forall|k: int| 0 <= k < first_colon(data) ==> data[k] != 58,
        first_colon(data) < data.len() ==> data[first_colon(data)] == 58,
    decreases data.len(),
{
    if data.len() == 0 || data[0] == 58 {
    } else {
        let rest = data.subrange(1, data.len() as int);
        lemma_first_colon(rest);
        assert forall|k: int| 0 <= k < first_colon(data) implies data[k] != 58 by {
            if k > 0 {
                assert(rest[k - 1] == data[k]);
            }
        }
        if first_colon(data) < data.len() {
            assert(rest[first_colon(rest)] == data[first_colon(data)]);
        }
    }
}

proof fn lemma_colon_found(data: Seq<u8>, at: int)
    requires
        0 <= at <= data.len(),
        forall|k: int| 0 <= k < at ==> data[k] != 58,
        at < data.len() ==> data[at] == 58,
    ensures
        first_colon(data) == at,
{
    lemma_first_colon(data);
    let c = first_colon(data);
    if c < at {
        assert(data[c] != 58);
    }
    if at < c {
        assert(data[at] != 58);
    }
}

/// Cuts the `n`-th field out of `data`.
pub fn nth_field(data: &Vec<u8>, n: usize) -> (res: Option<Vec<u8>>)
    ensures
        match res {
            Some(bytes) => field(data@, n as nat) == Some(bytes@),
            None => field(data@, n as nat) is None,
        },
{
    let mut from: usize = 0;
    let mut left: usize = n;
    assert(data@.subrange(0, data.len() as int) =~= data@);
    loop
        invariant
            from <= data.len(),
            left <= n,
            field(data@, n as nat) == field(data@.subrange(from as int, data.len() as int), left as nat),
        decreases left,
    {
        let ghost rest = data@.subrange(from as int, data.len() as int);
        let mut to: usize = from;
        while to < data.len() && data[to] != 58
            invariant
                from <= to <= data.len(),
                forall|k: int| from <= k < to ==> data[k] != 58,
            decreases data.len() - to,
        {
            to += 1;
        }
        proof {
            assert forall|k: int| 0 <= k < to - from implies rest[k] != 58 by {
                assert(rest[k] == data[from + k]);
            }
            if to < data.len() {
                assert(rest[to - from] == data[to as int]);
            }
            lemma_colon_found(rest, to - from);
        }
        if left == 0 {
            let mut bytes: Vec<u8> = Vec::new();
            let mut i: usize = from;
            while i < to
                invariant
                    from <= i <= to <= data.len(),
                    bytes@ == data@.subrange(from as int, i as int),
                decreases to - i,
            {
                bytes.push(data[i]);
                assert(bytes@ =~= data@.subrange(from as int, i + 1));
                i += 1;
            }
            assert(bytes@ =~= rest.subrange(0, to - from));
            return Some(bytes);
        }
        if to >= data.len() {
            return None;
        }
        proof {
            assert(rest.subrange(to - from + 1, rest.len() as int) =~= data@.subrange(
                to + 1,
                data.len() as int,
            ));
        }
        from = to + 1;
        left -= 1;
    }
}

/// What can be asked of the running system through its control pipe.
#[derive(Debug)]
pub enum Command {
    /// Tear down and halt.
    Halt,
    /// Tear down and switch off.
    Poweroff,
    /// Tear down and boot again.
    Reboot,
    /// Tear down and boot another kernel.
    Kexec,
    /// Read the database anew.
    Reload,
    /// Enable a unit at a level and start what that takes.
    Start { name: UnitName, level: usize },
    /// Disable a unit at a level and stop what that takes.
    Stop { name: UnitName, level: usize },
    /// Nothing that the system knows of.
    Nothing,
}

/// The mathematical content of a [`Command`].
pub ghost enum CommandView {
    Halt,
    Poweroff,
    Reboot,
    Kexec,
    Reload,
    Start { name: Seq<char>, level: usize },
    Stop { name: Seq<char>, level: usize },
    Nothing,
}

impl View for Command {
    type V = CommandView;

    open spec fn view(&self) -> CommandView {
        match self {
            Command::Halt => CommandView::Halt,
            Command::Poweroff => CommandView::Poweroff,
            Command::Reboot => CommandView::Reboot,
            Command::Kexec => CommandView::Kexec,
            Command::Reload => CommandView::Reload,
            Command::Start { name, level } => CommandView::Start { name: name@, level: *level },
            Command::Stop { name, level } => CommandView::Stop { name: name@, level: *level },
            Command::Nothing => CommandView::Nothing,
        }
    }
}

/// A result as a mathematical value.
pub open spec fn outcome<T: View>(res: Result<T, Error>) -> Result<T::V, ErrorView> {
    match res {
        Ok(v) => Ok(v@),
        Err(e) => Err(e@),
    }
}

/// The request to start or stop the unit `name` at the level that
/// `level_text` is the numeral of.
pub open spec fn change_of(start: bool, name: Seq<char>, level_text: Seq<char>) -> Result<
    CommandView,
    ErrorView,
> {
    match parsed(level_text, usize::MAX as u128) {
        Some(n) => if start {
            Ok(CommandView::Start { name, level: n as usize })
        } else {
            Ok(CommandView::Stop { name, level: n as usize })
        },
        None => Err(ErrorView::during("failed to parse level"@, FailureView::InvalidNumber)),
    }
}

/// Makes the request to start or stop a unit of its parts: the name of the
/// unit, and the text that has to be the number of a level.
pub fn command_of(start: bool, name: String, level_text: &str) -> (res: Result<Command, Error>)
    ensures
        outcome(res) == change_of(start, name@, level_text@),
{
    match parse_decimal(level_text, usize::MAX as u128) {
        Some(n) => {
            let level = n as usize;
            if start {
                Ok(Command::Start { name, level })
            } else {
                Ok(Command::Stop { name, level })
            }
        },
        None => Err(
            Error::new(
                ErrorKind::Unrecoverable,
                Some(String::from_str("failed to parse level")),
                Failure::InvalidNumber,
            ),
        ),
    }
}

/// What a message on the control pipe asks for.
///
/// The message is told by how it begins: `halt`, `poweroff`, `reboot`,
/// `kexec`, `db-reload`, or `start` or `stop`, which go on with a colon,
/// the name of a unit, a colon and the number of a level. Anything else
/// asks for nothing.
pub open spec fn command_spec(data: Seq<u8>) -> Result<CommandView, ErrorView> {
    if begins_with(data, "halt"@) {
        Ok(CommandView::Halt)
    } else if begins_with(data, "poweroff"@) {
        Ok(CommandView::Poweroff)
    } else if begins_with(data, "reboot"@) {
        Ok(CommandView::Reboot)
    } else if begins_with(data, "kexec"@) {
        Ok(CommandView::Kexec)
    } else if begins_with(data, "db-reload"@) {
        Ok(CommandView::Reload)
    } else if begins_with(data, "start"@) || begins_with(data, "stop"@) {
        match field(data, 1) {
            None => Err(ErrorView::absent("failed to get name"@)),
            Some(name) => match field(data, 2) {
                None => Err(ErrorView::absent("failed to get level"@)),
                Some(level) => change_of(
                    begins_with(data, "start"@),
                    utf8_lossy(name),
                    trimmed(utf8_lossy(level)),
                ),
            },
        }
    } else {
        Ok(CommandView::Nothing)
    }
}

/// Reads a message of the control pipe.
pub fn parse_command(data: &Vec<u8>) -> (res: Result<Command, Error>)
    ensures
        outcome(res) == command_spec(data@),
{
    if starts_with(data, "halt") {
        return Ok(Command::Halt);
    }
    if starts_with(data, "poweroff") {
        return Ok(Command::Poweroff);
    }
    if starts_with(data, "reboot") {
        return Ok(Command::Reboot);
    }
    if starts_with(data, "kexec") {
        return Ok(Command::Kexec);
    }
    if starts_with(data, "db-reload") {
        return Ok(Command::Reload);
    }
    let start = starts_with(data, "start");
    if !start && !starts_with(data, "stop") {
        return Ok(Command::Nothing);
    }
    let name = match nth_field(data, 1) {
        Some(bytes) => bytes,
        None => {
            return Err(
                Error::new(
                    ErrorKind::Unrecoverable,
                    Some(String::from_str("failed to get name")),
                    Failure::Absent,
                ),
            );
        },
    };
    let level = match nth_field(data, 2) {
        Some(bytes) => bytes,
        None => {
            return Err(
                Error::new(
                    ErrorKind::Unrecoverable,
                    Some(String::from_str("failed to get level")),
                    Failure::Absent,
                ),
            );
        },
    };
    let level_text = trim_text(lossy_text(&level).as_str());
    command_of(start, lossy_text(&name), level_text.as_str())
}

/// The names of `waves` that are in `diff`, from the first wave to the
/// last.
pub open spec fn picked(waves: Seq<Seq<Seq<char>>>, diff: Set<Seq<char>>) -> Seq<Seq<char>>
    decreases waves.len(),
{
    if waves.len() == 0 {
        Seq::empty()
    } else {
        picked(waves.drop_last(), diff) + kept(waves.last(), diff)
    }
}

/// The names of `waves` that are in `diff`, from the last wave to the
/// first, each wave in its own order.
pub open spec fn picked_back(waves: Seq<Seq<Seq<char>>>, diff: Set<Seq<char>>) -> Seq<Seq<char>>
    decreases waves.len(),
{
    if waves.len() == 0 {
        Seq::empty()
    } else {
        kept(waves.last(), diff) + picked_back(waves.drop_last(), diff)
    }
}

/// Appends to `steps` the names of `wave` that are in `diff`.
fn pick_wave(wave: &Vec<UnitName>, diff: &NameSet, steps: &mut Vec<UnitName>)
    ensures
        final(steps).deep_view() == old(steps).deep_view() + kept(wave.deep_view(), diff@),
{
    let ghost list = wave.deep_view();
    let ghost base = steps.deep_view();
    let mut p: usize = 0;
    assert(list.subrange(0, 0) =~= Seq::<Seq<char>>::empty());
    assert(steps.deep_view() =~= base + kept(list.subrange(0, 0), diff@));
    while p < wave.len()
        invariant
            p <= wave.len(),
            list == wave.deep_view(),
            steps.deep_view() == base + kept(list.subrange(0, p as int), diff@),
        decreases wave.len() - p,
    {
        let ghost before = steps.deep_view();
        proof {
            let longer = list.subrange(0, p + 1);
            assert(longer.drop_last() =~= list.subrange(0, p as int));
            assert(longer.last() == wave[p as int]@);
        }
        if diff.contains(&wave[p]) {
            steps.push(wave[p].clone());
            assert(steps.deep_view() =~= before.push(wave[p as int]@));
            assert(steps.deep_view() =~= base + kept(list.subrange(0, p + 1), diff@));
        }
        p += 1;
    }
    assert(list.subrange(0, wave.len() as int) =~= list);
}

/// Lists the names of the waves that are in `diff`, first wave first.
pub fn pick_forward(groups: &Vec<Vec<UnitName>>, diff: &NameSet) -> (steps: Vec<UnitName>)
    ensures
        steps.deep_view() == picked(name_lists(groups@), diff@),
{
    let ghost waves = name_lists(groups@);
    let mut steps: Vec<UnitName> = Vec::new();
    let mut k: usize = 0;
    assert(waves.subrange(0, 0) =~= Seq::<Seq<Seq<char>>>::empty());
    assert(steps.deep_view() =~= picked(waves.subrange(0, 0), diff@));
    while k < groups.len()
        invariant
            k <= groups.len(),
            waves == name_lists(groups@),
            steps.deep_view() == picked(waves.subrange(0, k as int), diff@),
        decreases groups.len() - k,
    {
        proof {
            let longer = waves.subrange(0, k + 1);
            assert(longer.drop_last() =~= waves.subrange(0, k as int));
            assert(longer.last() == groups[k as int].deep_view());
        }
        pick_wave(&groups[k], diff, &mut steps);
        k += 1;
    }
    assert(waves.subrange(0, groups.len() as int) =~= waves);
    steps
}

/// Lists the names of the waves that are in `diff`, last wave first.
pub fn pick_backward(groups: &Vec<Vec<UnitName>>, diff: &NameSet) -> (steps: Vec<UnitName>)
    ensures
        steps.deep_view() == picked_back(name_lists(groups@), diff@),
{
    let ghost waves = name_lists(groups@);
    let mut steps: Vec<UnitName> = Vec::new();
    let mut k: usize = groups.len();
    assert(waves.subrange(0, groups.len() as int) =~= waves);
    assert(steps.deep_view() + picked_back(waves, diff@) =~= picked_back(waves, diff@));
    while k > 0
        invariant
            k <= groups.len(),
            waves == name_lists(groups@),
            steps.deep_view() + picked_back(waves.subrange(0, k as int), diff@) == picked_back(
                waves,
                diff@,
            ),
        decreases k,
    {
        let ghost before = steps.deep_view();
        proof {
            let longer = waves.subrange(0, k as int);
            assert(longer.drop_last() =~= waves.subrange(0, k - 1));
            assert(longer.last() == groups[k - 1].deep_view());
        }
        k -= 1;
        pick_wave(&groups[k], diff, &mut steps);
        proof {
            let wave = kept(groups[k as int].deep_view(), diff@);
            let rest = picked_back(waves.subrange(0, k as int), diff@);
            assert((before + wave) + rest =~= before + (wave + rest));
        }
    }
    assert(waves.subrange(0, 0) =~= Seq::<Seq<Seq<char>>>::empty());
    assert(steps.deep_view() + Seq::<Seq<char>>::empty() =~= steps.deep_view());
    steps
}

/// What has to be done to start or stop a unit of the running system.
#[derive(Debug)]
pub struct Change {
    /// Whether units are to be started; else they are to be stopped.
    pub start: bool,
    /// The level at which this happens.
    pub level: usize,
    /// The units to start or to stop, in this order.
    pub steps: Vec<UnitName>,
}

/// What is enabled once `name` is enabled, or disabled, at `level`.
pub open spec fn new_enabled(
    enabled: Seq<Set<Seq<char>>>,
    start: bool,
    level: int,
    name: Seq<char>,
) -> Seq<Set<Seq<char>>> {
    enabled.update(
        level,
        if start {
            enabled[level].insert(name)
        } else {
            enabled[level].remove(name)
        },
    )
}

/// Level `l` is the first that has no plan.
pub open spec fn first_failure(cat: Seq<UnitInfoView>, enabled: Seq<Set<Seq<char>>>, l: int) -> bool {
    &&& 0 <= l < enabled.len()
    &&& level_fails(cat, enabled[l])
    &&& forall|k: int| 0 <= k < l ==> !level_fails(cat, #[trigger] enabled[k])
}

/// `res` is what planning the change comes to: the steps to take, or the
/// reason why there are none.
///
/// A unit that is up cannot be started, nor one that is down stopped. The
/// level has to exist. All levels must have a plan once the unit is
/// enabled, or disabled; the unit must be known. Then the units to start
/// are those enabled and not up, in the order of the new plan of the
/// level; the units to stop are those up and no longer enabled, from the
/// last wave of the present plan to the first.
pub open spec fn planned(
    loader: LoaderView,
    start: bool,
    level: int,
    name: Seq<char>,
    res: Result<Seq<Seq<char>>, ErrorView>,
) -> bool {
    let db = loader.database;
    let up = level < loader.started.len() && loader.started[level].contains(name);
    if start == up {
        res == Err::<Seq<Seq<char>>, ErrorView>(ErrorView::plain(FailureView::AlreadyInState))
    } else if level >= db.enabled.len() {
        res == Err::<Seq<Seq<char>>, ErrorView>(ErrorView::absent("failed to get level"@))
    } else {
        let enabled = new_enabled(db.enabled, start, level, name);
        if exists|l: int| first_failure(db.unit_infos, enabled, l) {
            res is Err && exists|l: int| #[trigger]
                first_failure(db.unit_infos, enabled, l) && is_build_failure(
                    db.unit_infos,
                    enabled[l],
                    res->Err_0,
                )
        } else if !known(db.unit_infos, name) {
            res == Err::<Seq<Seq<char>>, ErrorView>(ErrorView::plain(FailureView::UnknownUnit))
        } else if level >= loader.started.len() {
            res == Err::<Seq<Seq<char>>, ErrorView>(ErrorView::absent("failed to get level"@))
        } else if start {
            res is Ok && exists|plan: Seq<Seq<Seq<char>>>| #[trigger]
                is_level_plan(db.unit_infos, enabled[level], plan) && res->Ok_0 == picked(
                    plan,
                    enabled[level].difference(loader.started[level]),
                )
        } else if level >= db.levels.len() {
            res == Err::<Seq<Seq<char>>, ErrorView>(ErrorView::absent("failed to get level"@))
        } else {
            res == Ok::<Seq<Seq<char>>, ErrorView>(
                picked_back(db.levels[level], loader.started[level].difference(enabled[level])),
            )
        }
    }
}

/// `steps` are the units to start once `name` is enabled at `level`: the
/// known units that are enabled there and not up, each of them once.
pub open spec fn starts_what_is_new(
    loader: LoaderView,
    level: int,
    name: Seq<char>,
    steps: Seq<Seq<char>>,
) -> bool {
    &&& distinct(steps)
    &&& forall|n: Seq<char>|
        steps.contains(n) <==> new_enabled(loader.database.enabled, true, level, name)[level].contains(
            n,
        ) && !loader.started[level].contains(n) && known(loader.database.unit_infos, n)
}

/// The steps of a change, or the error in their place, as mathematical
/// values.
pub open spec fn steps_of(res: Result<Change, Error>) -> Result<Seq<Seq<char>>, ErrorView> {
    match res {
        Ok(change) => Ok(change.steps.deep_view()),
        Err(e) => Err(e@),
    }
}

fn absent_level() -> (res: Error)
    ensures
        res@ == ErrorView::absent("failed to get level"@),
{
    Error::new(ErrorKind::Unrecoverable, Some(String::from_str("failed to get level")), Failure::Absent)
}

/// Plans the start or the stop of a unit at a level of the running
/// system. Nothing is changed: the loader keeps its database, and what is
/// up is noted as the steps are taken.
pub fn plan_change(loader: &Loader, start: bool, level: usize, name: &UnitName) -> (res: Result<
    Change,
    Error,
>)
    ensures
        planned(loader@, start, level as int, name@, steps_of(res)),
        res is Ok ==> res->Ok_0.start == start && res->Ok_0.level == level,
        res is Ok && start ==> starts_what_is_new(
            loader@,
            level as int,
            name@,
            res->Ok_0.steps.deep_view(),
        ),
{
    let up = loader.is_started(level, name);
    if start == up {
        return Err(Error::new(ErrorKind::Unrecoverable, None, Failure::AlreadyInState));
    }
    let mut db = loader.database().clone();
    if level >= db.enabled.len() {
        return Err(absent_level());
    }
    let ghost cat = loader@.database.unit_infos;
    let ghost before = loader@.database.enabled;
    assert(enabled_sets(db.enabled@) == before);
    assert(before[level as int] == db.enabled[level as int]@);
    if start {
        db.enabled[level].insert(name.clone());
    } else {
        db.enabled[level].remove(name);
    }
    let ghost enabled = new_enabled(before, start, level as int, name@);
    assert(enabled_sets(db.enabled@) =~= enabled);
    match db.rebuild_levels() {
        Err(e) => {
            proof {
                let l = db.levels.len() as int;
                assert(db@.broken_at(l));
                assert(first_failure(cat, enabled, l));
            }
            return Err(e);
        },
        Ok(()) => {},
    }
    proof {
        assert(db@.coherent());
        if exists|l: int| first_failure(cat, enabled, l) {
            let l = choose|l: int| first_failure(cat, enabled, l);
            assert(!level_fails(cat, enabled[l]));
        }
    }
    if !db.unit_infos.contains_key(name) {
        return Err(Error::new(ErrorKind::Unrecoverable, None, Failure::UnknownUnit));
    }
    if level >= loader.started.len() {
        return Err(absent_level());
    }
    let started = &loader.started[level];
    assert(loader@.started[level as int] == started@);
    assert(enabled[level as int] == db.enabled[level as int]@);
    if start {
        let diff = db.enabled[level].difference(started);
        let steps = pick_forward(db.levels[level].get_order(), &diff);
        let infos = db.unit_infos.infos();
        proof {
            let plan = db.levels[level as int]@;
            assert(level_views(db.levels@)[level as int] == plan);
            assert(is_level_plan(cat, enabled[level as int], plan));
            assert(db@.unit_infos == cat);
            assert(names_distinct(cat));
            assert(steps.deep_view() == picked(plan, enabled[level as int].difference(started@)));
            law_start_steps(cat, enabled[level as int], started@, plan, name@);
            let now = new_enabled(loader@.database.enabled, true, level as int, name@)[level as int];
            assert(now == enabled[level as int]);
            assert forall|n: Seq<char>|
                steps.deep_view().contains(n) <==> now.contains(n) && !loader@.started[level as int].contains(
                    n,
                ) && known(loader@.database.unit_infos, n) by {
                law_start_steps(cat, enabled[level as int], started@, plan, n);
            }
        }
        Ok(Change { start, level, steps })
    } else {
        let diff = started.difference(&db.enabled[level]);
        let levels = &loader.database().levels;
        if level >= levels.len() {
            return Err(absent_level());
        }
        let steps = pick_backward(levels[level].get_order(), &diff);
        assert(loader@.database.levels[level as int] == levels[level as int]@);
        Ok(Change { start, level, steps })
    }
}

proof fn lemma_kept_holds(wave: Seq<Seq<char>>, diff: Set<Seq<char>>, name: Seq<char>)
    ensures
        kept(wave, diff).contains(name) <==> wave.contains(name) && diff.contains(name),
    decreases wave.len(),
{
    if wave.len() > 0 {
        let rest = wave.drop_last();
        lemma_kept_holds(rest, diff, name);
        if wave.contains(name) {
            let i = choose|i: int| 0 <= i < wave.len() && wave[i] == name;
            if i < wave.len() - 1 {
                assert(rest[i] == name);
            }
        }
        if rest.contains(name) {
            let i = choose|i: int| 0 <= i < rest.len() && rest[i] == name;
            assert(wave[i] == name);
        }
        if diff.contains(wave.last()) {
            let longer = kept(rest, diff).push(wave.last());
            if longer.contains(name) {
                let i = choose|i: int| 0 <= i < longer.len() && longer[i] == name;
                if i < longer.len() - 1 {
                    assert(kept(rest, diff)[i] == name);
                } else {
                    assert(wave[wave.len() - 1] == name);
                }
            }
            if kept(rest, diff).contains(name) {
                let i = choose|i: int| 0 <= i < kept(rest, diff).len() && kept(rest, diff)[i] == name;
                assert(longer[i] == name);
            }
            if name == wave.last() {
                assert(longer[longer.len() - 1] == name);
                assert(wave[wave.len() - 1] == name);
            }
        } else {
            if name == wave.last() && wave.contains(name) {
            }
        }
    }
}

/// A change acts on the difference only: a unit is among the steps taken
/// from `waves` exactly if `waves` holds it and it is in `diff`.
pub proof fn law_steps_are_the_difference(
    waves: Seq<Seq<Seq<char>>>,
    diff: Set<Seq<char>>,
    name: Seq<char>,
)
    ensures
        picked(waves, diff).contains(name) <==> diff.contains(name) && exists|k: int|
            0 <= k < waves.len() && (#[trigger] waves[k]).contains(name),
    decreases waves.len(),
{
    if waves.len() > 0 {
        let rest = waves.drop_last();
        law_steps_are_the_difference(rest, diff, name);
        lemma_kept_holds(waves.last(), diff, name);
        let head = picked(rest, diff);
        let tail = kept(waves.last(), diff);
        let all = head + tail;
        if all.contains(name) {
            let i = choose|i: int| 0 <= i < all.len() && all[i] == name;
            if i < head.len() {
                assert(head[i] == name);
                let k = choose|k: int| 0 <= k < rest.len() && (#[trigger] rest[k]).contains(name);
                assert(waves[k] == rest[k]);
            } else {
                assert(tail[i - head.len()] == name);
                assert(waves[waves.len() - 1].contains(name));
            }
        }
        if diff.contains(name) && exists|k: int|
            0 <= k < waves.len() && (#[trigger] waves[k]).contains(name) {
            let k = choose|k: int| 0 <= k < waves.len() && (#[trigger] waves[k]).contains(name);
            if k < waves.len() - 1 {
                assert(rest[k] == waves[k]);
                let i = choose|i: int| 0 <= i < head.len() && head[i] == name;
                assert(all[i] == name);
            } else {
                let i = choose|i: int| 0 <= i < tail.len() && tail[i] == name;
                assert(all[head.len() + i] == name);
            }
        }
    }
}

/// When a unit is started, nothing is done to the units that are up: the
/// steps hold no unit that is started already, and only enabled ones.
pub proof fn law_start_leaves_started_alone(
    plan: Seq<Seq<Seq<char>>>,
    enabled: Set<Seq<char>>,
    started: Set<Seq<char>>,
    name: Seq<char>,
)
    requires
        picked(plan, enabled.difference(started)).contains(name),
    ensures
        enabled.contains(name),
        !started.contains(name),
{
    law_steps_are_the_difference(plan, enabled.difference(started), name);
}

/// Makes sure that the unit `name` can be started and stopped, before
/// anything is done to it.
pub fn require_unit(loader: &Loader, name: &UnitName) -> (res: Result<(), Error>)
    ensures
        outcome_of_unit(res) == if loader@.map.contains(name@) {
            Ok::<(), ErrorView>(())
        } else {
            Err::<(), ErrorView>(ErrorView::absent("failed to get unit"@))
        },
{
    if loader.get_unit(name) {
        Ok(())
    } else {
        Err(
            Error::new(
                ErrorKind::Unrecoverable,
                Some(String::from_str("failed to get unit")),
                Failure::Absent,
            ),
        )
    }
}

/// A result without a value, as a mathematical value.
pub open spec fn outcome_of_unit(res: Result<(), Error>) -> Result<(), ErrorView> {
    match res {
        Ok(()) => Ok(()),
        Err(e) => Err(e@),
    }
}

/// What one step of a change came to.
#[derive(Debug)]
pub enum StepResult {
    /// The unit was not ready to start and was passed over.
    Unprepared,
    /// The unit was started, or stopped.
    Done,
    /// The unit failed.
    Failed(Error),
}

/// Takes note of a step of a change: a unit that was started is up from
/// now on, one that was stopped is down. A unit that was passed over stays
/// as it is. A failure ends the change, and what was done so far stays
/// done.
pub fn conclude_step(
    loader: &mut Loader,
    start: bool,
    level: usize,
    name: UnitName,
    result: StepResult,
) -> (res: Result<(), Error>)
    ensures
        final(loader).defaulted == old(loader).defaulted,
        final(loader).map == old(loader).map,
        final(loader).database == old(loader).database,
        match result {
            StepResult::Failed(e) => res == Err::<(), Error>(e) && final(loader)@.started == old(
                loader,
            )@.started,
            StepResult::Unprepared => res is Ok && final(loader)@.started == old(loader)@.started,
            StepResult::Done => res is Ok && final(loader)@.started == if level < old(
                loader,
            ).started.len() {
                old(loader)@.started.update(
                    level as int,
                    if start {
                        old(loader)@.started[level as int].insert(name@)
                    } else {
                        old(loader)@.started[level as int].remove(name@)
                    },
                )
            } else {
                old(loader)@.started
            },
        },
{
    match result {
        StepResult::Failed(e) => Err(e),
        StepResult::Unprepared => Ok(()),
        StepResult::Done => {
            if start {
                loader.mark_started(level, name);
            } else {
                loader.mark_stopped(level, &name);
            }
            Ok(())
        },
    }
}

/// No name stands at two places of `plan`.
pub open spec fn names_once(plan: Seq<Seq<Seq<char>>>) -> bool {
    forall|k1: int, p1: int, k2: int, p2: int|
        0 <= k1 < plan.len() && 0 <= p1 < plan[k1].len() && 0 <= k2 < plan.len() && 0 <= p2
            < plan[k2].len() && #[trigger] plan[k1][p1] == #[trigger] plan[k2][p2] ==> k1 == k2
            && p1 == p2
}

proof fn lemma_kept_distinct(wave: Seq<Seq<char>>, diff: Set<Seq<char>>)
    requires
        distinct(wave),
    ensures
        distinct(kept(wave, diff)),
    decreases wave.len(),
{
    if wave.len() > 0 {
        let rest = wave.drop_last();
        assert forall|i: int, j: int| 0 <= i < j < rest.len() implies #[trigger] rest[i]
            != #[trigger] rest[j] by {
            assert(wave[i] != wave[j]);
        }
        lemma_kept_distinct(rest, diff);
        if diff.contains(wave.last()) {
            let before = kept(rest, diff);
            let all = before.push(wave.last());
            assert forall|i: int, j: int| 0 <= i < j < all.len() implies #[trigger] all[i]
                != #[trigger] all[j] by {
                if j == all.len() - 1 {
                    lemma_kept_holds(rest, diff, all[i]);
                    assert(before[i] == all[i]);
                    assert(before.contains(all[i]));
                    if all[i] == all[j] {
                        let t = choose|t: int| 0 <= t < rest.len() && rest[t] == all[i];
                        assert(wave[t] != wave[wave.len() - 1]);
                    }
                } else {
                    assert(before[i] != before[j]);
                }
            }
        }
    }
}

/// No unit is acted on twice: where the plan holds each name once, so do
/// the steps.
pub proof fn law_steps_hold_each_once(plan: Seq<Seq<Seq<char>>>, diff: Set<Seq<char>>)
    requires
        names_once(plan),
    ensures
        distinct(picked(plan, diff)),
    decreases plan.len(),
{
    if plan.len() > 0 {
        let rest = plan.drop_last();
        let last = plan.last();
        assert(names_once(rest)) by {
            assert forall|k1: int, p1: int, k2: int, p2: int|
                0 <= k1 < rest.len() && 0 <= p1 < rest[k1].len() && 0 <= k2 < rest.len() && 0 <= p2
                    < rest[k2].len() && #[trigger] rest[k1][p1] == #[trigger] rest[k2][p2] implies k1
                == k2 && p1 == p2 by {
                assert(plan[k1][p1] == plan[k2][p2]);
            }
        }
        law_steps_hold_each_once(rest, diff);
        assert(distinct(last)) by {
            assert forall|i: int, j: int| 0 <= i < j < last.len() implies #[trigger] last[i]
                != #[trigger] last[j] by {
                if plan[plan.len() - 1][i] == plan[plan.len() - 1][j] {
                }
            }
        }
        lemma_kept_distinct(last, diff);
        let head = picked(rest, diff);
        let tail = kept(last, diff);
        let all = head + tail;
        assert forall|i: int, j: int| 0 <= i < j < all.len() implies #[trigger] all[i]
            != #[trigger] all[j] by {
            if j < head.len() {
                assert(head[i] != head[j]);
            } else if i >= head.len() {
                assert(tail[i - head.len()] != tail[j - head.len()]);
            } else if all[i] == all[j] {
                let x = all[i];
                assert(head.contains(x)) by {
                    assert(head[i] == x);
                }
                assert(tail.contains(x)) by {
                    assert(tail[j - head.len()] == x);
                }
                law_steps_are_the_difference(rest, diff, x);
                lemma_kept_holds(last, diff, x);
                let k = choose|k: int| 0 <= k < rest.len() && (#[trigger] rest[k]).contains(x);
                let p = choose|p: int| 0 <= p < rest[k].len() && rest[k][p] == x;
                let q = choose|q: int| 0 <= q < last.len() && last[q] == x;
                assert(plan[k][p] == plan[plan.len() - 1][q]);
            }
        }
    }
}

/// When a unit is started, the steps are the known units that are enabled
/// at the level and not up, each of them once: nothing is done to a unit
/// that is up, and none that is to come up is left out.
pub proof fn law_start_steps(
    cat: Seq<UnitInfoView>,
    enabled: Set<Seq<char>>,
    started: Set<Seq<char>>,
    plan: Seq<Seq<Seq<char>>>,
    name: Seq<char>,
)
    requires
        names_distinct(cat),
        is_level_plan(cat, enabled, plan),
    ensures
        picked(plan, enabled.difference(started)).contains(name) <==> enabled.contains(name)
            && !started.contains(name) && known(cat, name),
        distinct(picked(plan, enabled.difference(started))),
{
    let diff = enabled.difference(started);
    law_steps_are_the_difference(plan, diff, name);
    assert(names_once(plan));
    law_steps_hold_each_once(plan, diff);
    if picked(plan, diff).contains(name) {
        let k = choose|k: int| 0 <= k < plan.len() && (#[trigger] plan[k]).contains(name);
        let p = choose|p: int| 0 <= p < plan[k].len() && plan[k][p] == name;
        assert(loaded_name(cat, enabled, plan[k][p]));
        let i = choose|i: int| #[trigger] loaded(cat, enabled, i) && cat[i].name == name;
        lemma_loaded_in_range(cat, enabled, i);
        assert(known(cat, name));
    }
    if enabled.contains(name) && !started.contains(name) && known(cat, name) {
        let j = choose|j: int| 0 <= j < cat.len() && (#[trigger] cat[j]).name == name;
        lemma_seed_loaded(cat, enabled, j);
        assert(level_placed(plan, cat[j].name));
        let k = choose|k: int| #[trigger] in_level(plan, k, name);
        let p = choose|p: int| 0 <= p < plan[k].len() && #[trigger] plan[k][p] == name;
        assert(plan[k].contains(name));
    }
}

/// Where one unit alone is enabled and not up, the steps to start it are
/// that unit, once, and nothing else.
pub proof fn law_start_of_one(
    cat: Seq<UnitInfoView>,
    enabled: Set<Seq<char>>,
    started: Set<Seq<char>>,
    plan: Seq<Seq<Seq<char>>>,
    name: Seq<char>,
)
    requires
        names_distinct(cat),
        is_level_plan(cat, enabled, plan),
        known(cat, name),
        enabled.difference(started) == set![name],
    ensures
        picked(plan, enabled.difference(started)) == seq![name],
{
    let steps = picked(plan, enabled.difference(started));
    assert(enabled.difference(started).contains(name));
    law_start_steps(cat, enabled, started, plan, name);
    assert forall|i: int| 0 <= i < steps.len() implies #[trigger] steps[i] == name by {
        law_start_steps(cat, enabled, started, plan, steps[i]);
        assert(steps.contains(steps[i]));
        assert(enabled.difference(started).contains(steps[i]));
    }
    if steps.len() >= 2 {
        assert(steps[0] != steps[1]);
    }
    assert(steps.contains(name));
    assert(steps =~= seq![name]);
}

} // verus!
