use crate::error::{Error, ErrorKind, Failure, FailureView};
use crate::counting::{count_of, lemma_count_bounds, lemma_count_push, lemma_count_update};
use crate::unit::{UnitInfo, UnitInfoView, UnitName};
use vstd::prelude::*;

verus! {

/// `units[j]` is the unit that `name` stands for: where several units share
/// a name, the last of them.
pub open spec fn denotes(units: Seq<UnitInfoView>, name: Seq<char>, j: int) -> bool {
    &&& 0 <= j < units.len()
    &&& units[j].name == name
    &&& forall|k: int| j < k < units.len() ==> (#[trigger] units[k]).name != name
}

/// Some unit bears `name`.
pub open spec fn known(units: Seq<UnitInfoView>, name: Seq<char>) -> bool {
    exists|j: int| 0 <= j < units.len() && (#[trigger] units[j]).name == name
}

/// One of `names` stands for `units[j]`.
pub open spec fn points_at(units: Seq<UnitInfoView>, names: Seq<Seq<char>>, j: int) -> bool {
    exists|k: int| 0 <= k < names.len() && denotes(units, #[trigger] names[k], j)
}

/// `units[a]` names `units[b]` among what it needs, wants or runs after.
pub open spec fn follows(units: Seq<UnitInfoView>, a: int, b: int) -> bool {
    &&& 0 <= a < units.len()
    &&& 0 <= b < units.len()
    &&& (points_at(units, units[a].dependencies.needs, b) || points_at(
        units,
        units[a].dependencies.wants,
        b,
    ) || points_at(units, units[a].dependencies.after, b))
}

/// `units[b]` names `units[a]` among the units it runs before.
pub open spec fn precedes(units: Seq<UnitInfoView>, b: int, a: int) -> bool {
    &&& 0 <= a < units.len()
    &&& 0 <= b < units.len()
    &&& points_at(units, units[b].dependencies.before, a)
}

/// `units[a]` may only start once `units[b]` has.
pub open spec fn waits_for(units: Seq<UnitInfoView>, a: int, b: int) -> bool {
    follows(units, a, b) || precedes(units, b, a)
}

/// The `k`-th need of `units[i]` names no unit.
pub open spec fn missing_need(units: Seq<UnitInfoView>, i: int, k: int) -> bool {
    &&& 0 <= i < units.len()
    &&& 0 <= k < units[i].dependencies.needs.len()
    &&& !known(units, units[i].dependencies.needs[k])
}

/// Some unit needs a unit that is not there.
pub open spec fn has_missing_need(units: Seq<UnitInfoView>) -> bool {
    exists|i: int, k: int| missing_need(units, i, k)
}

/// `name` is the first need, going through the units and their needs in
/// order, that names no unit.
pub open spec fn first_missing_need(units: Seq<UnitInfoView>, name: Seq<char>) -> bool {
    exists|i: int, k: int|
        {
            &&& #[trigger] missing_need(units, i, k)
            &&& units[i].dependencies.needs[k] == name
            &&& forall|i2: int, k2: int|
                (i2 < i || (i2 == i && k2 < k)) ==> !#[trigger] missing_need(units, i2, k2)
        }
}

/// `units[i]` is a unit that waits for a member of `s`.
pub open spec fn held_up(units: Seq<UnitInfoView>, s: Set<int>, i: int) -> bool {
    exists|j: int| s.contains(j) && #[trigger] waits_for(units, i, j)
}

/// A non-empty set of units each of which waits for a member of the set:
/// none of them can ever be the first to start.
pub open spec fn is_knot(units: Seq<UnitInfoView>, s: Set<int>) -> bool {
    &&& exists|i: int| s.contains(i)
    &&& forall|i: int| s.contains(i) ==> #[trigger] held_up(units, s, i)
}

/// The relations between the units admit no order of starting them.
pub open spec fn is_cyclic(units: Seq<UnitInfoView>) -> bool {
    exists|s: Set<int>| is_knot(units, s)
}

/// The unit at place `t` of `cycle` waits for the one at the next place,
/// the last for the first.
pub open spec fn cycle_step(units: Seq<UnitInfoView>, cycle: Seq<int>, t: int) -> bool {
    waits_for(
        units,
        cycle[t],
        cycle[if t + 1 < cycle.len() {
            t + 1
        } else {
            0
        }],
    )
}

/// A closed walk along the relations: each unit of `cycle` waits for the
/// next, and the last for the first.
pub open spec fn is_cycle(units: Seq<UnitInfoView>, cycle: Seq<int>) -> bool {
    &&& cycle.len() > 0
    &&& forall|t: int| 0 <= t < cycle.len() ==> #[trigger] cycle_step(units, cycle, t)
}

/// Unit `i` is started in wave `k`.
pub open spec fn in_wave(waves: Seq<Seq<usize>>, k: int, i: int) -> bool {
    &&& 0 <= k < waves.len()
    &&& exists|p: int| 0 <= p < waves[k].len() && #[trigger] waves[k][p] == i
}

/// Unit `i` is started in wave `k`, which is not the first.
pub open spec fn in_later_wave(waves: Seq<Seq<usize>>, k: int, i: int) -> bool {
    0 < k && in_wave(waves, k, i)
}

/// Unit `i` is started in some wave.
pub open spec fn placed(waves: Seq<Seq<usize>>, i: int) -> bool {
    exists|k: int| #[trigger] in_wave(waves, k, i)
}

/// `waves` is the plan for starting `units`: every unit stands in exactly
/// one wave, after all the units it waits for, and as early as that allows.
/// Within a wave the units are listed from the last to the first.
pub open spec fn is_wave_plan(units: Seq<UnitInfoView>, waves: Seq<Seq<usize>>) -> bool {
    &&& forall|i: int| 0 <= i < units.len() ==> #[trigger] placed(waves, i)
    &&& forall|k: int, p: int|
        0 <= k < waves.len() && 0 <= p < waves[k].len() ==> (#[trigger] waves[k][p]) < units.len()
    &&& forall|k1: int, p1: int, k2: int, p2: int|
        0 <= k1 < waves.len() && 0 <= p1 < waves[k1].len() && 0 <= k2 < waves.len() && 0 <= p2
            < waves[k2].len() && #[trigger] waves[k1][p1] == #[trigger] waves[k2][p2] ==> k1 == k2
            && p1 == p2
    &&& forall|k: int, i: int, j: int|
        #[trigger] in_wave(waves, k, i) && #[trigger] waits_for(units, i, j) ==> exists|k2: int|
            0 <= k2 < k && #[trigger] in_wave(waves, k2, j)
    &&& forall|k: int, i: int| #[trigger]
        in_later_wave(waves, k, i) ==> exists|j: int|
            #[trigger] waits_for(units, i, j) && in_wave(waves, k - 1, j)
    &&& forall|k: int| 0 <= k < waves.len() ==> (#[trigger] waves[k]).len() > 0
    &&& forall|k: int, p: int, q: int|
        0 <= k < waves.len() && 0 <= p < q < waves[k].len() ==> #[trigger] waves[k][p]
            > #[trigger] waves[k][q]
}

/// Looks a unit up by its name.
pub fn find(units: &Vec<UnitInfo>, name: &UnitName) -> (res: Option<usize>)
    ensures
        match res {
            Some(j) => denotes(units.deep_view(), name@, j as int),
            None => !known(units.deep_view(), name@),
        },
{
    let mut i: usize = units.len();
    while i > 0
        invariant
            i <= units.len(),
            forall|k: int| i <= k < units.len() ==> (#[trigger] units.deep_view()[k]).name != name@,
        decreases i,
    {
        i -= 1;
        if units[i].name == *name {
            assert(units.deep_view()[i as int].name == name@);
            return Some(i);
        }
        assert(units.deep_view()[i as int].name != name@);
    }
    None
}


/// Every entry of `row` is an index below `n`.
pub open spec fn row_in_range(row: Seq<usize>, n: int) -> bool {
    forall|p: int| 0 <= p < row.len() ==> (#[trigger] row[p]) < n
}

proof fn lemma_push_contains(s: Seq<usize>, x: usize)
    ensures
        forall|b: usize| #[trigger] s.push(x).contains(b) <==> s.contains(b) || b == x,
{
    assert forall|b: usize| #[trigger] s.push(x).contains(b) <==> s.contains(b) || b == x by {
        if s.push(x).contains(b) {
            let i = choose|i: int| 0 <= i < s.push(x).len() && s.push(x)[i] == b;
            if i < s.len() {
                assert(s[i] == b);
            }
        }
        if s.contains(b) {
            let i = choose|i: int| 0 <= i < s.len() && s[i] == b;
            assert(s.push(x)[i] == b);
        }
        if b == x {
            assert(s.push(x)[s.len() as int] == b);
        }
    }
}

/// Appends to `row` the units that `names` stand for, and reports the
/// first name that stands for none.
fn add_targets(units: &Vec<UnitInfo>, names: &Vec<UnitName>, row: &mut Vec<usize>) -> (unknown:
    Option<usize>)
    requires
        row_in_range(old(row)@, units.len() as int),
    ensures
        row_in_range(final(row)@, units.len() as int),
        forall|b: usize| #[trigger]
            final(row)@.contains(b) <==> old(row)@.contains(b) || points_at(
                units.deep_view(),
                names.deep_view(),
                b as int,
            ),
        match unknown {
            Some(u) => u < names.len() && !known(units.deep_view(), names.deep_view()[u as int])
                && forall|t: int|
                0 <= t < u ==> known(units.deep_view(), #[trigger] names.deep_view()[t]),
            None => forall|t: int|
                0 <= t < names.len() ==> known(units.deep_view(), #[trigger] names.deep_view()[t]),
        },
{
    let ghost all = units.deep_view();
    let ghost list = names.deep_view();
    let mut k: usize = 0;
    let mut unknown: Option<usize> = None;
    while k < names.len()
        invariant
            k <= names.len(),
            all == units.deep_view(),
            list == names.deep_view(),
            row_in_range(row@, units.len() as int),
            forall|b: usize| #[trigger]
                row@.contains(b) <==> old(row)@.contains(b) || exists|t: int|
                    0 <= t < k && denotes(all, #[trigger] list[t], b as int),
            match unknown {
                Some(u) => u < k && !known(all, list[u as int]) && forall|t: int|
                    0 <= t < u ==> known(all, #[trigger] list[t]),
                None => forall|t: int| 0 <= t < k ==> known(all, #[trigger] list[t]),
            },
        decreases names.len() - k,
    {
        let ghost before = row@;
        assert(list[k as int] == names[k as int]@);
        match find(units, &names[k]) {
            Some(j) => {
                row.push(j);
                proof {
                    lemma_push_contains(before, j);
                    assert(all[j as int].name == list[k as int]);
                    assert forall|b: usize| #[trigger]
                        row@.contains(b) <==> old(row)@.contains(b) || exists|t: int|
                            0 <= t < k + 1 && denotes(all, #[trigger] list[t], b as int) by {
                        if b == j {
                            assert(denotes(all, list[k as int], b as int));
                        }
                        if exists|t: int| 0 <= t < k + 1 && denotes(all, #[trigger] list[t], b as int) {
                            let t = choose|t: int|
                                0 <= t < k + 1 && denotes(all, #[trigger] list[t], b as int);
                            if t == k {
                                assert(b == j);
                            }
                        }
                    }
                }
            },
            None => {
                if unknown.is_none() {
                    unknown = Some(k);
                }
                proof {
                    assert forall|b: usize| #[trigger]
                        row@.contains(b) <==> old(row)@.contains(b) || exists|t: int|
                            0 <= t < k + 1 && denotes(all, #[trigger] list[t], b as int) by {
                        if exists|t: int| 0 <= t < k + 1 && denotes(all, #[trigger] list[t], b as int) {
                            let t = choose|t: int|
                                0 <= t < k + 1 && denotes(all, #[trigger] list[t], b as int);
                            if t == k {
                                assert(all[b as int].name == list[k as int]);
                                assert(known(all, list[k as int]));
                            }
                        }
                    }
                }
            },
        }
        k += 1;
    }
    unknown
}


/// For every unit, the units it names among what it needs, wants or runs
/// after; fails where a need names no unit.
fn forward_rows(units: &Vec<UnitInfo>) -> (res: Result<Vec<Vec<usize>>, Error>)
    ensures
        match res {
            Ok(rows) => {
                &&& rows.len() == units.len()
                &&& !has_missing_need(units.deep_view())
                &&& forall|a: int|
                    0 <= a < rows.len() ==> row_in_range((#[trigger] rows[a])@, units.len() as int)
                &&& forall|a: int, b: usize|
                    0 <= a < rows.len() ==> (#[trigger] rows[a]@.contains(b) <==> follows(
                        units.deep_view(),
                        a,
                        b as int,
                    ))
            },
            Err(e) => {
                &&& e@.kind == ErrorKind::Unrecoverable
                &&& e@.context is None
                &&& e@.original is MissingDependency
                &&& first_missing_need(units.deep_view(), e@.original->MissingDependency_0)
            },
        },
{
    let ghost all = units.deep_view();
    let mut rows: Vec<Vec<usize>> = Vec::new();
    let mut i: usize = 0;
    while i < units.len()
        invariant
            i <= units.len(),
            all == units.deep_view(),
            rows.len() == i,
            forall|a: int, k: int| 0 <= a < i ==> !#[trigger] missing_need(all, a, k),
            forall|a: int| 0 <= a < i ==> row_in_range((#[trigger] rows[a])@, units.len() as int),
            forall|a: int, b: usize|
                0 <= a < i ==> (#[trigger] rows[a]@.contains(b) <==> follows(all, a, b as int)),
        decreases units.len() - i,
    {
        let unit = &units[i];
        assert(all[i as int] == unit@);
        let mut row: Vec<usize> = Vec::new();
        let unknown = add_targets(units, &unit.dependencies.needs, &mut row);
        if let Some(u) = unknown {
            let name = unit.dependencies.needs[u].clone();
            proof {
                assert(name@ == all[i as int].dependencies.needs[u as int]);
                assert(missing_need(all, i as int, u as int));
                assert forall|i2: int, k2: int|
                    (i2 < i || (i2 == i && k2 < u)) implies !#[trigger] missing_need(
                    all,
                    i2,
                    k2,
                ) by {
                    if i2 == i && 0 <= k2 {
                        assert(known(all, unit.dependencies.needs.deep_view()[k2]));
                    }
                }
            }
            return Err(Error::new(ErrorKind::Unrecoverable, None, Failure::MissingDependency(name)));
        }
        add_targets(units, &unit.dependencies.wants, &mut row);
        add_targets(units, &unit.dependencies.after, &mut row);
        proof {
            assert forall|k: int| !#[trigger] missing_need(all, i as int, k) by {
                if 0 <= k < unit.dependencies.needs.len() {
                    assert(known(all, unit.dependencies.needs.deep_view()[k]));
                }
            }
            assert forall|b: usize| #[trigger] row@.contains(b) <==> follows(all, i as int, b as int) by {
                if row@.contains(b) {
                    let p = choose|p: int| 0 <= p < row@.len() && row@[p] == b;
                    assert(row@[p] < units.len());
                }
            }
        }
        rows.push(row);
        i += 1;
    }
    proof {
        assert(!has_missing_need(all)) by {
            if has_missing_need(all) {
                let (a, k) = choose|a: int, k: int| missing_need(all, a, k);
                assert(missing_need(all, a, k));
            }
        }
    }
    Ok(rows)
}

/// Adds to the rows of [`forward_rows`] what the units say of the units
/// they run before, so that row `a` lists the units that `a` waits for.
fn backward_rows(units: &Vec<UnitInfo>, rows: &mut Vec<Vec<usize>>)
    requires
        old(rows).len() == units.len(),
        forall|a: int|
            0 <= a < old(rows).len() ==> row_in_range((#[trigger] old(rows)[a])@, units.len() as int),
        forall|a: int, b: usize|
            0 <= a < old(rows).len() ==> (#[trigger] old(rows)[a]@.contains(b) <==> follows(
                units.deep_view(),
                a,
                b as int,
            )),
    ensures
        final(rows).len() == units.len(),
        forall|a: int|
            0 <= a < final(rows).len() ==> row_in_range(
                (#[trigger] final(rows)[a])@,
                units.len() as int,
            ),
        forall|a: int, b: usize|
            0 <= a < final(rows).len() ==> (#[trigger] final(rows)[a]@.contains(b) <==> waits_for(
                units.deep_view(),
                a,
                b as int,
            )),
{
    let ghost all = units.deep_view();
    let n = units.len();
    let mut i: usize = 0;
    while i < n
        invariant
            i <= n,
            n == units.len(),
            all == units.deep_view(),
            rows.len() == n,
            forall|a: int| 0 <= a < n ==> row_in_range((#[trigger] rows[a])@, n as int),
            forall|a: int, b: usize|
                0 <= a < n ==> (#[trigger] rows[a]@.contains(b) <==> follows(all, a, b as int) || (b
                    < i && precedes(all, b as int, a))),
        decreases n - i,
    {
        let names = &units[i].dependencies.before;
        let ghost list = names.deep_view();
        assert(all[i as int].dependencies.before == list);
        let mut k: usize = 0;
        while k < names.len()
            invariant
                k <= names.len(),
                i < n,
                n == units.len(),
                all == units.deep_view(),
                list == names.deep_view(),
                all[i as int].dependencies.before == list,
                rows.len() == n,
                forall|a: int| 0 <= a < n ==> row_in_range((#[trigger] rows[a])@, n as int),
                forall|a: int, b: usize|
                    0 <= a < n ==> (#[trigger] rows[a]@.contains(b) <==> follows(all, a, b as int)
                        || (b < i && precedes(all, b as int, a)) || (b == i && exists|t: int|
                        0 <= t < k && denotes(all, #[trigger] list[t], a))),
            decreases names.len() - k,
        {
            assert(list[k as int] == names[k as int]@);
            if let Some(j) = find(units, &names[k]) {
                let ghost before = rows@;
                rows[j].push(i);
                proof {
                    lemma_push_contains(before[j as int]@, i);
                    assert forall|a: int, b: usize| 0 <= a < n implies (#[trigger] rows[a]@.contains(
                        b,
                    ) <==> follows(all, a, b as int) || (b < i && precedes(all, b as int, a)) || (b
                        == i && exists|t: int|
                        0 <= t < k + 1 && denotes(all, #[trigger] list[t], a))) by {
                        assert(before[a]@.contains(b) <==> follows(all, a, b as int) || (b < i
                            && precedes(all, b as int, a)) || (b == i && exists|t: int|
                            0 <= t < k && denotes(all, #[trigger] list[t], a)));
                        if a == j && b == i {
                            assert(denotes(all, list[k as int], a));
                        }
                        if b == i && exists|t: int|
                            0 <= t < k + 1 && denotes(all, #[trigger] list[t], a) {
                            let t = choose|t: int|
                                0 <= t < k + 1 && denotes(all, #[trigger] list[t], a);
                            if t == k {
                                assert(a == j);
                            }
                        }
                    }
                }
            } else {
                proof {
                    assert forall|a: int, b: usize| 0 <= a < n implies (#[trigger] rows[a]@.contains(
                        b,
                    ) <==> follows(all, a, b as int) || (b < i && precedes(all, b as int, a)) || (b
                        == i && exists|t: int|
                        0 <= t < k + 1 && denotes(all, #[trigger] list[t], a))) by {
                        if b == i && exists|t: int|
                            0 <= t < k + 1 && denotes(all, #[trigger] list[t], a) {
                            let t = choose|t: int|
                                0 <= t < k + 1 && denotes(all, #[trigger] list[t], a);
                            if t == k {
                                assert(all[a].name == list[k as int]);
                                assert(known(all, list[k as int]));
                            }
                        }
                    }
                }
            }
            k += 1;
        }
        i += 1;
    }
    proof {
        assert forall|a: int, b: usize| 0 <= a < n implies (#[trigger] rows[a]@.contains(b)
            <==> waits_for(all, a, b as int)) by {
            if rows[a]@.contains(b) {
                let p = choose|p: int| 0 <= p < rows[a]@.len() && rows[a]@[p] == b;
                assert(rows[a]@[p] < n);
            }
        }
    }
}


/// The waves as lists of unit indices.
pub open spec fn wave_lists(waves: Seq<Vec<usize>>) -> Seq<Seq<usize>> {
    Seq::new(waves.len(), |k: int| waves[k]@)
}

/// Every unit that `units[i]` waits for has a rank below `round`.
spec fn ready(units: Seq<UnitInfoView>, rank: Seq<usize>, round: int, i: int) -> bool {
    forall|j: int| #[trigger] waits_for(units, i, j) ==> rank[j] < round
}

/// `rows[a]` lists the units that `units[a]` waits for.
spec fn rows_match(units: Seq<UnitInfoView>, rows: Seq<Vec<usize>>) -> bool {
    &&& rows.len() == units.len()
    &&& forall|a: int| 0 <= a < rows.len() ==> row_in_range((#[trigger] rows[a])@, units.len() as int)
    &&& forall|a: int, b: usize|
        0 <= a < rows.len() ==> (#[trigger] rows[a]@.contains(b) <==> waits_for(units, a, b as int))
}

/// What holds between two rounds. `rank[i]` is the wave in which unit `i`
/// starts, or the number of units while it has none yet.
spec fn ranked(units: Seq<UnitInfoView>, waves: Seq<Seq<usize>>, rank: Seq<usize>) -> bool {
    let n = units.len();
    let round = waves.len();
    &&& rank.len() == n
    &&& forall|i: int| 0 <= i < n ==> (#[trigger] rank[i]) == n || rank[i] < round
    &&& forall|i: int| 0 <= i < n && (#[trigger] rank[i]) < round ==> in_wave(waves, rank[i] as int, i)
    &&& forall|k: int, p: int|
        0 <= k < round && 0 <= p < waves[k].len() ==> (#[trigger] waves[k][p]) < n
            && rank[waves[k][p] as int] == k
    &&& forall|k: int| 0 <= k < round ==> (#[trigger] waves[k]).len() > 0
    &&& forall|k: int, p: int, q: int|
        0 <= k < round && 0 <= p < q < waves[k].len() ==> #[trigger] waves[k][p]
            > #[trigger] waves[k][q]
    &&& forall|i: int, j: int|
        0 <= i < n && rank[i] < round && #[trigger] waits_for(units, i, j) ==> rank[j] < rank[i]
    &&& forall|i: int|
        0 <= i < n && 0 < (#[trigger] rank[i]) < round ==> exists|j: int|
            #[trigger] waits_for(units, i, j) && rank[j] == rank[i] - 1
    &&& forall|i: int|
        0 <= i < n && (#[trigger] rank[i]) == n && round > 0 ==> exists|j: int|
            #[trigger] waits_for(units, i, j) && (rank[j] == n || rank[j] == round - 1)
}

/// What one round does to the ranks, and the wave it yields.
spec fn round_step(
    units: Seq<UnitInfoView>,
    old_rank: Seq<usize>,
    new_rank: Seq<usize>,
    wave: Seq<usize>,
    round: usize,
) -> bool {
    let n = units.len();
    &&& new_rank.len() == n
    &&& forall|i: int|
        0 <= i < n ==> #[trigger] new_rank[i] == if old_rank[i] == n && ready(
            units,
            old_rank,
            round as int,
            i,
        ) {
            round
        } else {
            old_rank[i]
        }
    &&& row_in_range(wave, n as int)
    &&& forall|p: int, q: int| 0 <= p < q < wave.len() ==> #[trigger] wave[p] > #[trigger] wave[q]
    &&& forall|i: usize| #[trigger] wave.contains(i) <==> i < n && new_rank[i as int] == round
}

/// Whether some entry of `row` has no rank below `round` yet.
fn is_blocked(row: &Vec<usize>, rank: &Vec<usize>, round: usize) -> (blocked: bool)
    requires
        row_in_range(row@, rank.len() as int),
    ensures
        blocked <==> exists|p: int| 0 <= p < row.len() && rank[(#[trigger] row[p]) as int] >= round,
{
    let mut p: usize = 0;
    while p < row.len()
        invariant
            p <= row.len(),
            row_in_range(row@, rank.len() as int),
            forall|t: int| 0 <= t < p ==> rank[(#[trigger] row[t]) as int] < round,
        decreases row.len() - p,
    {
        if rank[row[p]] >= round {
            return true;
        }
        p += 1;
    }
    false
}

/// Runs one round: gives every unit that has no rank and waits for ranked
/// units only the rank `round`, and returns those units, last first.
fn next_wave(
    Ghost(units): Ghost<Seq<UnitInfoView>>,
    rows: &Vec<Vec<usize>>,
    rank: &mut Vec<usize>,
    round: usize,
) -> (wave: Vec<usize>)
    requires
        rows_match(units, rows@),
        old(rank).len() == units.len(),
        round < units.len(),
        forall|i: int| 0 <= i < units.len() ==> (#[trigger] old(rank)[i]) == units.len() || old(rank)[i] < round,
    ensures
        round_step(units, old(rank)@, final(rank)@, wave@, round),
        count_of(final(rank)@, units.len() as usize) + wave.len() == count_of(
            old(rank)@,
            units.len() as usize,
        ),
{
    let n = rank.len();
    let mut wave: Vec<usize> = Vec::new();
    let mut i: usize = n;
    while i > 0
        invariant
            i <= n,
            n == units.len(),
            round < n,
            rank.len() == n,
            old(rank).len() == n,
            rows_match(units, rows@),
            forall|t: int| 0 <= t < n ==> (#[trigger] old(rank)[t]) == n || old(rank)[t] < round,
            forall|t: int| 0 <= t < i ==> #[trigger] rank[t] == old(rank)[t],
            forall|t: int|
                i <= t < n ==> #[trigger] rank[t] == if old(rank)[t] == n && ready(
                    units,
                    old(rank)@,
                    round as int,
                    t,
                ) {
                    round
                } else {
                    old(rank)[t]
                },
            row_in_range(wave@, n as int),
            forall|p: int, q: int| 0 <= p < q < wave.len() ==> #[trigger] wave[p] > #[trigger] wave[q],
            forall|p: int| 0 <= p < wave.len() ==> (#[trigger] wave[p]) >= i,
            forall|t: usize| #[trigger] wave@.contains(t) <==> i <= t < n && rank[t as int] == round,
            count_of(rank@, n) + wave.len() == count_of(old(rank)@, n),
        decreases i,
    {
        i -= 1;
        let ghost rank_before = rank@;
        let ghost wave_before = wave@;
        let mut taken = false;
        if rank[i] == n {
            let blocked = is_blocked(&rows[i], rank, round);
            proof {
                // a rank is below `round` now exactly if it was so before
                assert forall|j: int| 0 <= j < n implies (rank[j] < round <==> old(rank)[j]
                    < round) by {
                    if j > i {
                        assert(rank[j] == if old(rank)[j] == n && ready(
                            units,
                            old(rank)@,
                            round as int,
                            j,
                        ) {
                            round
                        } else {
                            old(rank)[j]
                        });
                    }
                }
                if blocked {
                    let p = choose|p: int|
                        0 <= p < rows[i as int].len() && rank[(#[trigger] rows[i as int][p]) as int]
                            >= round;
                    let j = rows[i as int][p];
                    assert(rows[i as int]@.contains(j));
                    assert(waits_for(units, i as int, j as int));
                    assert(!ready(units, old(rank)@, round as int, i as int));
                } else {
                    assert forall|j: int| #[trigger]
                        waits_for(units, i as int, j) implies old(rank)[j] < round by {
                        assert(0 <= j < n);
                        assert(rows[i as int]@.contains(j as usize));
                        let p = choose|p: int|
                            0 <= p < rows[i as int]@.len() && rows[i as int]@[p] == j as usize;
                        assert(rank[rows[i as int][p] as int] < round);
                    }
                    assert(ready(units, old(rank)@, round as int, i as int));
                }
            }
            if !blocked {
                rank.set(i, round);
                wave.push(i);
                taken = true;
                proof {
                    lemma_count_update(rank_before, n, i as int, round);
                    lemma_push_contains(wave_before, i);
                }
            }
        }
        proof {
            assert forall|t: usize| #[trigger]
                wave@.contains(t) <==> i <= t < n && rank[t as int] == round by {
                if taken {
                    assert(wave_before.contains(t) <==> i + 1 <= t < n && rank_before[t as int]
                        == round);
                } else {
                    assert(wave_before.contains(t) <==> i + 1 <= t < n && rank[t as int] == round);
                    assert(rank[i as int] != round);
                }
            }
        }
    }
    wave
}


proof fn lemma_round(
    units: Seq<UnitInfoView>,
    waves: Seq<Seq<usize>>,
    old_rank: Seq<usize>,
    new_rank: Seq<usize>,
    wave: Seq<usize>,
    round: usize,
)
    requires
        ranked(units, waves, old_rank),
        waves.len() == round,
        round < units.len(),
        round_step(units, old_rank, new_rank, wave, round),
        wave.len() > 0,
    ensures
        ranked(units, waves.push(wave), new_rank),
{
    let n = units.len();
    let next = waves.push(wave);
    assert(next[round as int] == wave);
    assert forall|k: int| 0 <= k < round implies #[trigger] next[k] == waves[k] by {}
    assert forall|i: int| 0 <= i < n && (#[trigger] new_rank[i]) < round + 1 implies in_wave(
        next,
        new_rank[i] as int,
        i,
    ) by {
        if new_rank[i] == round {
            assert(wave.contains(i as usize));
            let p = choose|p: int| 0 <= p < wave.len() && wave[p] == i as usize;
            assert(next[round as int][p] == i);
        } else {
            assert(old_rank[i] < round);
            assert(in_wave(waves, old_rank[i] as int, i));
            let p = choose|p: int|
                0 <= p < waves[old_rank[i] as int].len() && #[trigger] waves[old_rank[i] as int][p]
                    == i;
            assert(next[old_rank[i] as int][p] == i);
        }
    }
    assert forall|k: int, p: int| 0 <= k < round + 1 && 0 <= p < next[k].len() implies (
    #[trigger] next[k][p]) < n && new_rank[next[k][p] as int] == k by {
        if k == round {
            assert(wave.contains(wave[p]));
        } else {
            assert(waves[k][p] < n && old_rank[waves[k][p] as int] == k);
        }
    }
    assert forall|i: int, j: int|
        0 <= i < n && new_rank[i] < round + 1 && #[trigger] waits_for(
            units,
            i,
            j,
        ) implies new_rank[j] < new_rank[i] by {
        assert(0 <= j < n);
        if new_rank[i] == round {
            assert(ready(units, old_rank, round as int, i));
        }
    }
    assert forall|i: int| 0 <= i < n && 0 < (#[trigger] new_rank[i]) < round + 1 implies exists|
        j: int,
    |
        #[trigger] waits_for(units, i, j) && new_rank[j] == new_rank[i] - 1 by {
        if new_rank[i] == round {
            assert(old_rank[i] == n);
            assert(ready(units, old_rank, round as int, i));
            let j = choose|j: int|
                #[trigger] waits_for(units, i, j) && (old_rank[j] == n || old_rank[j] == round - 1);
            assert(old_rank[j] < round);
            assert(waits_for(units, i, j) && new_rank[j] == new_rank[i] - 1);
        } else {
            let j = choose|j: int|
                #[trigger] waits_for(units, i, j) && old_rank[j] == old_rank[i] - 1;
            assert(0 <= j < n);
            assert(waits_for(units, i, j) && new_rank[j] == new_rank[i] - 1);
        }
    }
    assert forall|i: int| 0 <= i < n && (#[trigger] new_rank[i]) == n implies exists|j: int|
        #[trigger] waits_for(units, i, j) && (new_rank[j] == n || new_rank[j] == round) by {
        assert(old_rank[i] == n);
        assert(!ready(units, old_rank, round as int, i));
        let j = choose|j: int| #[trigger] waits_for(units, i, j) && !(old_rank[j] < round);
        assert(0 <= j < n);
        assert(old_rank[j] == n);
        assert(waits_for(units, i, j) && (new_rank[j] == n || new_rank[j] == round));
    }
}

proof fn lemma_stuck(units: Seq<UnitInfoView>, rank: Seq<usize>, round: int)
    requires
        rank.len() == units.len(),
        forall|i: int| 0 <= i < units.len() ==> (#[trigger] rank[i]) == units.len() || rank[i] < round,
        exists|i: int| 0 <= i < units.len() && rank[i] == units.len(),
        forall|i: int|
            0 <= i < units.len() && (#[trigger] rank[i]) == units.len() ==> !ready(
                units,
                rank,
                round,
                i,
            ),
    ensures
        is_cyclic(units),
{
    let n = units.len();
    let s = Set::new(|i: int| 0 <= i < n && rank[i] == n);
    let first = choose|i: int| 0 <= i < n && rank[i] == n;
    assert(s.contains(first));
    assert forall|i: int| s.contains(i) implies #[trigger] held_up(units, s, i) by {
        assert(rank[i] == n);
        assert(!ready(units, rank, round, i));
        let j = choose|j: int| #[trigger] waits_for(units, i, j) && !(rank[j] < round);
        assert(0 <= j < n);
        assert(s.contains(j) && waits_for(units, i, j));
    }
    assert(is_knot(units, s));
}

proof fn lemma_finish(units: Seq<UnitInfoView>, waves: Seq<Seq<usize>>, rank: Seq<usize>)
    requires
        ranked(units, waves, rank),
        forall|i: int| 0 <= i < units.len() ==> rank[i] != units.len(),
    ensures
        is_wave_plan(units, waves),
{
    let n = units.len();
    assert forall|i: int| 0 <= i < n implies #[trigger] placed(waves, i) by {
        assert(rank[i] != n);
        assert(in_wave(waves, rank[i] as int, i));
    }
    assert forall|k1: int, p1: int, k2: int, p2: int|
        0 <= k1 < waves.len() && 0 <= p1 < waves[k1].len() && 0 <= k2 < waves.len() && 0 <= p2
            < waves[k2].len() && #[trigger] waves[k1][p1] == #[trigger] waves[k2][p2] implies k1
        == k2 && p1 == p2 by {
        assert(rank[waves[k1][p1] as int] == k1);
        assert(rank[waves[k2][p2] as int] == k2);
        if p1 < p2 {
            assert(waves[k1][p1] > waves[k1][p2]);
        }
        if p2 < p1 {
            assert(waves[k1][p2] > waves[k1][p1]);
        }
    }
    assert forall|k: int, i: int, j: int| #[trigger]
        in_wave(waves, k, i) && #[trigger] waits_for(units, i, j) implies exists|k2: int|
        0 <= k2 < k && #[trigger] in_wave(waves, k2, j) by {
        let p = choose|p: int| 0 <= p < waves[k].len() && #[trigger] waves[k][p] == i;
        assert(rank[waves[k][p] as int] == k);
        assert(0 <= j < n);
        assert(rank[j] < rank[i]);
        assert(in_wave(waves, rank[j] as int, j));
    }
    assert forall|k: int, i: int| #[trigger] in_later_wave(waves, k, i) implies exists|j: int|
        #[trigger] waits_for(units, i, j) && in_wave(waves, k - 1, j) by {
        let p = choose|p: int| 0 <= p < waves[k].len() && #[trigger] waves[k][p] == i;
        assert(rank[waves[k][p] as int] == k);
        let j = choose|j: int| #[trigger] waits_for(units, i, j) && rank[j] == rank[i] - 1;
        assert(0 <= j < n);
        assert(in_wave(waves, rank[j] as int, j));
    }
}

proof fn lemma_knot_not_below(
    units: Seq<UnitInfoView>,
    waves: Seq<Seq<usize>>,
    s: Set<int>,
    k: nat,
)
    requires
        is_wave_plan(units, waves),
        is_knot(units, s),
    ensures
        forall|i: int, k1: int| s.contains(i) && 0 <= k1 < k ==> !#[trigger] in_wave(waves, k1, i),
    decreases k,
{
    if k > 0 {
        lemma_knot_not_below(units, waves, s, (k - 1) as nat);
        assert forall|i: int, k1: int| s.contains(i) && 0 <= k1 < k implies !#[trigger] in_wave(
            waves,
            k1,
            i,
        ) by {
            if k1 == k - 1 && in_wave(waves, k1, i) {
                assert(held_up(units, s, i));
                let j = choose|j: int| s.contains(j) && #[trigger] waits_for(units, i, j);
                assert(waits_for(units, i, j));
                let k2 = choose|k2: int| 0 <= k2 < k1 && #[trigger] in_wave(waves, k2, j);
                assert(in_wave(waves, k2, j));
            }
        }
    }
}

/// Where the units can be put into waves, their relations admit an order.
pub proof fn lemma_plan_not_cyclic(units: Seq<UnitInfoView>, waves: Seq<Seq<usize>>)
    requires
        is_wave_plan(units, waves),
    ensures
        !is_cyclic(units),
{
    if is_cyclic(units) {
        let s = choose|s: Set<int>| is_knot(units, s);
        let i = choose|i: int| s.contains(i);
        assert(s.contains(i));
        assert(held_up(units, s, i));
        let j = choose|j: int| s.contains(j) && #[trigger] waits_for(units, i, j);
        assert(waits_for(units, i, j));
        assert(placed(waves, i));
        let k = choose|k: int| #[trigger] in_wave(waves, k, i);
        lemma_knot_not_below(units, waves, s, (k + 1) as nat);
    }
}

/// Puts the units into waves by their positions in `units`.
///
/// A unit waits for the units it needs, wants or runs after, and for those
/// that run before it; a name that several units bear stands for the last of
/// them. Fails where a need names no unit, and otherwise where the relations
/// admit no order.
pub fn plan_waves(units: &Vec<UnitInfo>) -> (res: Result<Vec<Vec<usize>>, Error>)
    ensures
        match res {
            Ok(waves) => {
                &&& !has_missing_need(units.deep_view())
                &&& !is_cyclic(units.deep_view())
                &&& is_wave_plan(units.deep_view(), wave_lists(waves@))
            },
            Err(e) => {
                &&& e@.kind == ErrorKind::Unrecoverable
                &&& e@.context is None
                &&& if has_missing_need(units.deep_view()) {
                    &&& e@.original is MissingDependency
                    &&& first_missing_need(units.deep_view(), e@.original->MissingDependency_0)
                } else {
                    &&& is_cyclic(units.deep_view())
                    &&& e@.original == FailureView::CyclicDependency
                }
            },
        },
{
    let n = units.len();
    let ghost all = units.deep_view();
    let mut rows = match forward_rows(units) {
        Ok(rows) => rows,
        Err(e) => {
            proof {
                let name = e@.original->MissingDependency_0;
                let (i, k) = choose|i: int, k: int|
                    {
                        &&& #[trigger] missing_need(all, i, k)
                        &&& all[i].dependencies.needs[k] == name
                        &&& forall|i2: int, k2: int|
                            (i2 < i || (i2 == i && k2 < k)) ==> !#[trigger] missing_need(all, i2, k2)
                    };
                assert(missing_need(all, i, k));
            }
            return Err(e);
        },
    };
    backward_rows(units, &mut rows);
    let mut rank: Vec<usize> = Vec::new();
    let mut i: usize = 0;
    while i < n
        invariant
            i <= n,
            rank.len() == i,
            forall|t: int| 0 <= t < i ==> rank[t] == n,
            count_of(rank@, n) == i,
        decreases n - i,
    {
        proof {
            lemma_count_push(rank@, n, n);
        }
        rank.push(n);
        i += 1;
    }
    let mut remaining: usize = n;
    let mut waves: Vec<Vec<usize>> = Vec::new();
    while remaining > 0
        invariant
            n == units.len(),
            all == units.deep_view(),
            rows_match(all, rows@),
            !has_missing_need(all),
            ranked(all, wave_lists(waves@), rank@),
            remaining == count_of(rank@, n),
            waves.len() + remaining <= n,
        decreases remaining,
    {
        let round = waves.len();
        let ghost old_rank = rank@;
        let ghost old_waves = wave_lists(waves@);
        let wave = next_wave(Ghost(all), &rows, &mut rank, round);
        if wave.len() == 0 {
            proof {
                lemma_count_bounds(old_rank, n);
                assert forall|i: int| 0 <= i < n && (#[trigger] old_rank[i]) == n implies !ready(
                    all,
                    old_rank,
                    round as int,
                    i,
                ) by {
                    if ready(all, old_rank, round as int, i) {
                        assert(rank[i] == round);
                        assert(wave@.contains(i as usize));
                    }
                }
                lemma_stuck(all, old_rank, round as int);
            }
            return Err(Error::new(ErrorKind::Unrecoverable, None, Failure::CyclicDependency));
        }
        proof {
            lemma_round(all, old_waves, old_rank, rank@, wave@, round);
            assert(wave_lists(waves@.push(wave)) =~= old_waves.push(wave@));
        }
        remaining = remaining - wave.len();
        waves.push(wave);
    }
    proof {
        lemma_count_bounds(rank@, n);
        lemma_finish(all, wave_lists(waves@), rank@);
        lemma_plan_not_cyclic(all, wave_lists(waves@));
    }
    Ok(waves)
}

/// The units of each wave, as mathematical values.
pub open spec fn info_lists(order: Seq<Vec<UnitInfo>>) -> Seq<Seq<UnitInfoView>> {
    Seq::new(order.len(), |k: int| order[k].deep_view())
}

/// `order` lists `units` wave by wave, as `waves` lists their positions.
pub open spec fn follows_plan(
    units: Seq<UnitInfoView>,
    waves: Seq<Seq<usize>>,
    order: Seq<Seq<UnitInfoView>>,
) -> bool {
    &&& order.len() == waves.len()
    &&& forall|k: int| 0 <= k < waves.len() ==> (#[trigger] order[k]).len() == waves[k].len()
    &&& forall|k: int, p: int|
        0 <= k < waves.len() && 0 <= p < waves[k].len() ==> #[trigger] order[k][p]
            == units[waves[k][p] as int]
}

/// `order` is the load order of `units`: the units themselves, wave by wave
/// as the wave plan of `units` places them.
pub open spec fn is_load_order(units: Seq<UnitInfoView>, order: Seq<Seq<UnitInfoView>>) -> bool {
    exists|waves: Seq<Seq<usize>>|
        is_wave_plan(units, waves) && #[trigger] follows_plan(units, waves, order)
}

/// Copies out the units that a wave plan refers to.
pub fn collect_waves(units: &Vec<UnitInfo>, waves: &Vec<Vec<usize>>) -> (order: Vec<Vec<UnitInfo>>)
    requires
        forall|k: int|
            0 <= k < waves.len() ==> row_in_range((#[trigger] waves[k])@, units.len() as int),
    ensures
        follows_plan(units.deep_view(), wave_lists(waves@), info_lists(order@)),
{
    let mut order: Vec<Vec<UnitInfo>> = Vec::new();
    let mut k: usize = 0;
    while k < waves.len()
        invariant
            k <= waves.len(),
            order.len() == k,
            forall|t: int|
                0 <= t < waves.len() ==> row_in_range((#[trigger] waves[t])@, units.len() as int),
            forall|t: int| 0 <= t < k ==> (#[trigger] order[t]).len() == waves[t].len(),
            forall|t: int, p: int|
                0 <= t < k && 0 <= p < waves[t].len() ==> (#[trigger] order[t][p])@
                    == units[waves[t][p] as int]@,
        decreases waves.len() - k,
    {
        let wave = &waves[k];
        let mut group: Vec<UnitInfo> = Vec::new();
        let mut p: usize = 0;
        while p < wave.len()
            invariant
                p <= wave.len(),
                group.len() == p,
                row_in_range(wave@, units.len() as int),
                forall|q: int| 0 <= q < p ==> (#[trigger] group[q])@ == units[wave[q] as int]@,
            decreases wave.len() - p,
        {
            group.push(units[wave[p]].clone());
            p += 1;
        }
        order.push(group);
        k += 1;
    }
    proof {
        let lists = info_lists(order@);
        let all = units.deep_view();
        let plan = wave_lists(waves@);
        assert forall|t: int, p: int| 0 <= t < plan.len() && 0 <= p < plan[t].len() implies
            #[trigger] lists[t][p] == all[plan[t][p] as int] by {
            assert(order[t][p]@ == units[waves[t][p] as int]@);
        }
    }
    order
}

/// Turns the relations between the units into the order to start them in:
/// a list of waves, each holding the units that can start together once all
/// earlier waves have.
///
/// A unit waits for the units it needs, wants or runs after, and for those
/// that declare to run before it. Names that stand for no unit are passed
/// over, except among the needs: there the first such name fails the whole
/// resolution. Where the relations admit no order, resolution fails too,
/// and no wave is returned.
pub fn obtain_load_order(units: Vec<UnitInfo>) -> (res: Result<Vec<Vec<UnitInfo>>, Error>)
    ensures
        match res {
            Ok(order) => {
                &&& !has_missing_need(units.deep_view())
                &&& !is_cyclic(units.deep_view())
                &&& is_load_order(units.deep_view(), info_lists(order@))
            },
            Err(e) => {
                &&& e@.kind == ErrorKind::Unrecoverable
                &&& e@.context is None
                &&& if has_missing_need(units.deep_view()) {
                    &&& e@.original is MissingDependency
                    &&& first_missing_need(units.deep_view(), e@.original->MissingDependency_0)
                } else {
                    &&& is_cyclic(units.deep_view())
                    &&& e@.original == FailureView::CyclicDependency
                }
            },
        },
{
    match plan_waves(&units) {
        Ok(waves) => {
            proof {
                let plan = wave_lists(waves@);
                assert forall|k: int| 0 <= k < waves.len() implies row_in_range(
                    (#[trigger] waves[k])@,
                    units.len() as int,
                ) by {
                    assert forall|p: int| 0 <= p < waves[k]@.len() implies (#[trigger] waves[k]@[p])
                        < units.len() by {
                        assert(plan[k][p] < units.len());
                    }
                }
            }
            let order = collect_waves(&units, &waves);
            assert(follows_plan(units.deep_view(), wave_lists(waves@), info_lists(order@)));
            Ok(order)
        },
        Err(e) => Err(e),
    }
}

/// A cycle among the relations rules out every order: the units on it form
/// a knot, so resolving them fails and yields no wave.
pub proof fn law_cycle_is_cyclic(units: Seq<UnitInfoView>, cycle: Seq<int>)
    requires
        is_cycle(units, cycle),
    ensures
        is_cyclic(units),
        forall|waves: Seq<Seq<usize>>| !is_wave_plan(units, waves),
{
    let s = Set::new(|i: int| cycle.contains(i));
    assert(cycle.contains(cycle[0]));
    assert(s.contains(cycle[0]));
    assert forall|i: int| s.contains(i) implies #[trigger] held_up(units, s, i) by {
        let t = choose|t: int| 0 <= t < cycle.len() && cycle[t] == i;
        let next = if t + 1 < cycle.len() {
            t + 1
        } else {
            0
        };
        assert(cycle_step(units, cycle, t));
        assert(waits_for(units, cycle[t], cycle[next]));
        assert(cycle.contains(cycle[next]));
        assert(s.contains(cycle[next]));
    }
    assert(is_knot(units, s));
    assert forall|waves: Seq<Seq<usize>>| !is_wave_plan(units, waves) by {
        if is_wave_plan(units, waves) {
            lemma_plan_not_cyclic(units, waves);
        }
    }
}

/// In a wave plan every unit stands at exactly one place.
pub proof fn law_every_unit_once(units: Seq<UnitInfoView>, waves: Seq<Seq<usize>>, i: int)
    requires
        is_wave_plan(units, waves),
        0 <= i < units.len(),
    ensures
        exists|k: int, p: int|
            0 <= k < waves.len() && 0 <= p < waves[k].len() && #[trigger] waves[k][p] == i,
        forall|k1: int, p1: int, k2: int, p2: int|
            0 <= k1 < waves.len() && 0 <= p1 < waves[k1].len() && 0 <= k2 < waves.len() && 0 <= p2
                < waves[k2].len() && #[trigger] waves[k1][p1] == i && #[trigger] waves[k2][p2] == i
                ==> k1 == k2 && p1 == p2,
{
    assert(placed(waves, i));
    let k = choose|k: int| #[trigger] in_wave(waves, k, i);
    let p = choose|p: int| 0 <= p < waves[k].len() && #[trigger] waves[k][p] == i;
    assert(0 <= k < waves.len() && 0 <= p < waves[k].len() && waves[k][p] == i);
}

/// A unit starts in a later wave than every unit it needs: where `a` names
/// `b` among its needs, the wave of `b` comes before the wave of `a`.
pub proof fn law_needs_come_first(
    units: Seq<UnitInfoView>,
    waves: Seq<Seq<usize>>,
    a: int,
    b: int,
    wave_a: int,
    wave_b: int,
)
    requires
        is_wave_plan(units, waves),
        0 <= a < units.len(),
        points_at(units, units[a].dependencies.needs, b),
        in_wave(waves, wave_a, a),
        in_wave(waves, wave_b, b),
    ensures
        wave_b < wave_a,
{
    let k = choose|k: int|
        0 <= k < units[a].dependencies.needs.len() && denotes(
            units,
            #[trigger] units[a].dependencies.needs[k],
            b,
        );
    assert(follows(units, a, b));
    assert(waits_for(units, a, b));
    let k2 = choose|k2: int| 0 <= k2 < wave_a && #[trigger] in_wave(waves, k2, b);
    let p = choose|p: int| 0 <= p < waves[wave_b].len() && #[trigger] waves[wave_b][p] == b;
    let p2 = choose|p2: int| 0 <= p2 < waves[k2].len() && #[trigger] waves[k2][p2] == b;
    assert(waves[wave_b][p] == waves[k2][p2]);
}

/// `with` is `units` with the name `want` added to what `units[i]` wants.
pub open spec fn adds_want(
    units: Seq<UnitInfoView>,
    with: Seq<UnitInfoView>,
    i: int,
    want: Seq<char>,
) -> bool {
    &&& 0 <= i < units.len()
    &&& with.len() == units.len()
    &&& forall|j: int| 0 <= j < units.len() && j != i ==> #[trigger] with[j] == units[j]
    &&& with[i].name == units[i].name
    &&& with[i].dependencies.needs == units[i].dependencies.needs
    &&& with[i].dependencies.uses == units[i].dependencies.uses
    &&& with[i].dependencies.before == units[i].dependencies.before
    &&& with[i].dependencies.after == units[i].dependencies.after
    &&& with[i].dependencies.wants == units[i].dependencies.wants.push(want)
}

/// Lists of units that bear the same names in the same places resolve names
/// alike.
pub proof fn lemma_same_names(units: Seq<UnitInfoView>, with: Seq<UnitInfoView>)
    requires
        with.len() == units.len(),
        forall|j: int| 0 <= j < units.len() ==> (#[trigger] with[j]).name == units[j].name,
    ensures
        forall|name: Seq<char>| #[trigger] known(with, name) == known(units, name),
        forall|name: Seq<char>, j: int| #[trigger] denotes(with, name, j) == denotes(units, name, j),
        forall|names: Seq<Seq<char>>, j: int| #[trigger]
            points_at(with, names, j) == points_at(units, names, j),
{
    assert forall|name: Seq<char>| #[trigger] known(with, name) == known(units, name) by {
        if known(with, name) {
            let j = choose|j: int| 0 <= j < with.len() && (#[trigger] with[j]).name == name;
            assert(units[j].name == name);
        }
        if known(units, name) {
            let j = choose|j: int| 0 <= j < units.len() && (#[trigger] units[j]).name == name;
            assert(with[j].name == name);
        }
    }
    assert forall|name: Seq<char>, j: int| #[trigger]
        denotes(with, name, j) == denotes(units, name, j) by {
        if denotes(with, name, j) {
            assert forall|k: int| j < k < units.len() implies (#[trigger] units[k]).name != name by {
                assert(with[k].name != name);
            }
        }
        if denotes(units, name, j) {
            assert forall|k: int| j < k < with.len() implies (#[trigger] with[k]).name != name by {
                assert(units[k].name != name);
            }
        }
    }
    assert forall|names: Seq<Seq<char>>, j: int| #[trigger]
        points_at(with, names, j) == points_at(units, names, j) by {
        if points_at(with, names, j) {
            let k = choose|k: int| 0 <= k < names.len() && denotes(with, #[trigger] names[k], j);
            assert(denotes(units, names[k], j));
        }
        if points_at(units, names, j) {
            let k = choose|k: int| 0 <= k < names.len() && denotes(units, #[trigger] names[k], j);
            assert(denotes(with, names[k], j));
        }
    }
}

proof fn lemma_want_points(
    units: Seq<UnitInfoView>,
    old_wants: Seq<Seq<char>>,
    want: Seq<char>,
    b: int,
)
    requires
        !known(units, want),
    ensures
        points_at(units, old_wants.push(want), b) == points_at(units, old_wants, b),
{
    let new_wants = old_wants.push(want);
    if points_at(units, new_wants, b) {
        let k = choose|k: int| 0 <= k < new_wants.len() && denotes(units, #[trigger] new_wants[k], b);
        if k == old_wants.len() {
            assert(units[b].name == want);
            assert(known(units, want));
        } else {
            assert(old_wants[k] == new_wants[k]);
            assert(denotes(units, old_wants[k], b));
        }
    }
    if points_at(units, old_wants, b) {
        let k = choose|k: int| 0 <= k < old_wants.len() && denotes(units, #[trigger] old_wants[k], b);
        assert(new_wants[k] == old_wants[k]);
        assert(denotes(units, new_wants[k], b));
    }
}

proof fn lemma_want_waits(
    units: Seq<UnitInfoView>,
    with: Seq<UnitInfoView>,
    i: int,
    want: Seq<char>,
    a: int,
    b: int,
)
    requires
        adds_want(units, with, i, want),
        !known(units, want),
    ensures
        waits_for(with, a, b) == waits_for(units, a, b),
{
    lemma_same_names(units, with);
    if 0 <= a < units.len() && 0 <= b < units.len() {
        if a != i {
            assert(with[a] == units[a]);
        } else {
            lemma_want_points(units, units[i].dependencies.wants, want, b);
        }
        if b != i {
            assert(with[b] == units[b]);
        }
        assert(points_at(with, with[a].dependencies.needs, b) == points_at(
            units,
            units[a].dependencies.needs,
            b,
        ));
        assert(points_at(with, with[a].dependencies.wants, b) == points_at(
            units,
            units[a].dependencies.wants,
            b,
        ));
        assert(points_at(with, with[a].dependencies.after, b) == points_at(
            units,
            units[a].dependencies.after,
            b,
        ));
        assert(points_at(with, with[b].dependencies.before, a) == points_at(
            units,
            units[b].dependencies.before,
            a,
        ));
    }
}

proof fn lemma_want_missing(
    units: Seq<UnitInfoView>,
    with: Seq<UnitInfoView>,
    i: int,
    want: Seq<char>,
)
    requires
        adds_want(units, with, i, want),
    ensures
        has_missing_need(with) == has_missing_need(units),
{
    lemma_same_names(units, with);
    assert forall|a: int, k: int| #[trigger] missing_need(with, a, k) == missing_need(units, a, k) by {
        if 0 <= a < units.len() {
            if a != i {
                assert(with[a] == units[a]);
            }
        }
    }
    if has_missing_need(with) {
        let (a, k) = choose|a: int, k: int| missing_need(with, a, k);
        assert(missing_need(units, a, k));
    }
    if has_missing_need(units) {
        let (a, k) = choose|a: int, k: int| missing_need(units, a, k);
        assert(missing_need(with, a, k));
    }
}

proof fn lemma_knot_transfers(units: Seq<UnitInfoView>, with: Seq<UnitInfoView>, s: Set<int>)
    requires
        with.len() == units.len(),
        forall|a: int, b: int| #[trigger] waits_for(with, a, b) == waits_for(units, a, b),
    ensures
        is_knot(units, s) ==> is_knot(with, s),
{
    if is_knot(units, s) {
        assert forall|a: int| s.contains(a) implies #[trigger] held_up(with, s, a) by {
            assert(held_up(units, s, a));
            let j = choose|j: int| s.contains(j) && #[trigger] waits_for(units, a, j);
            assert(waits_for(with, a, j));
        }
    }
}

/// A want that names no unit changes nothing: the units wait for each other
/// as without it, no need goes missing through it, and the same waves plan
/// the start.
pub proof fn law_absent_want_is_ignored(
    units: Seq<UnitInfoView>,
    with: Seq<UnitInfoView>,
    i: int,
    want: Seq<char>,
)
    requires
        adds_want(units, with, i, want),
        !known(units, want),
    ensures
        forall|a: int, b: int| #[trigger] waits_for(with, a, b) == waits_for(units, a, b),
        has_missing_need(with) == has_missing_need(units),
        is_cyclic(with) == is_cyclic(units),
        forall|waves: Seq<Seq<usize>>| #[trigger]
            is_wave_plan(with, waves) == is_wave_plan(units, waves),
{
    assert forall|a: int, b: int| #[trigger] waits_for(with, a, b) == waits_for(units, a, b) by {
        lemma_want_waits(units, with, i, want, a, b);
    }
    lemma_want_missing(units, with, i, want);
    assert(is_cyclic(with) == is_cyclic(units)) by {
        if is_cyclic(with) {
            let s = choose|s: Set<int>| is_knot(with, s);
            lemma_knot_transfers(with, units, s);
        }
        if is_cyclic(units) {
            let s = choose|s: Set<int>| is_knot(units, s);
            lemma_knot_transfers(units, with, s);
        }
    }
    assert forall|waves: Seq<Seq<usize>>| #[trigger]
        is_wave_plan(with, waves) == is_wave_plan(units, waves) by {
        lemma_plan_transfers(units, with, waves);
        lemma_plan_transfers(with, units, waves);
    }
}

proof fn lemma_plan_transfers(
    units: Seq<UnitInfoView>,
    with: Seq<UnitInfoView>,
    waves: Seq<Seq<usize>>,
)
    requires
        with.len() == units.len(),
        forall|a: int, b: int| #[trigger] waits_for(with, a, b) == waits_for(units, a, b),
    ensures
        is_wave_plan(units, waves) ==> is_wave_plan(with, waves),
{
    if is_wave_plan(units, waves) {
        assert forall|k: int, i: int, j: int| #[trigger]
            in_wave(waves, k, i) && #[trigger] waits_for(with, i, j) implies exists|k2: int|
            0 <= k2 < k && #[trigger] in_wave(waves, k2, j) by {
            assert(waits_for(units, i, j));
        }
        assert forall|k: int, i: int| #[trigger] in_later_wave(waves, k, i) implies exists|
            j: int,
        |
            #[trigger] waits_for(with, i, j) && in_wave(waves, k - 1, j) by {
            let j = choose|j: int| #[trigger] waits_for(units, i, j) && in_wave(waves, k - 1, j);
            assert(waits_for(with, i, j));
        }
    }
}

/// The unit at place `t` of `walk` waits for the one at the next place.
spec fn walk_step(units: Seq<UnitInfoView>, walk: Seq<int>, t: int) -> bool {
    waits_for(units, walk[t], walk[t + 1])
}

/// `walk` goes through `s` along what the units wait for.
spec fn is_walk(units: Seq<UnitInfoView>, s: Set<int>, walk: Seq<int>) -> bool {
    &&& forall|t: int| 0 <= t < walk.len() ==> s.contains(#[trigger] walk[t])
    &&& forall|t: int| 0 <= t < walk.len() - 1 ==> #[trigger] walk_step(units, walk, t)
}

proof fn lemma_walk(units: Seq<UnitInfoView>, s: Set<int>, steps: nat) -> (walk: Seq<int>)
    requires
        is_knot(units, s),
    ensures
        walk.len() == steps + 1,
        is_walk(units, s, walk),
    decreases steps,
{
    if steps == 0 {
        let i = choose|i: int| s.contains(i);
        seq![i]
    } else {
        let shorter = lemma_walk(units, s, (steps - 1) as nat);
        let last = shorter[shorter.len() - 1];
        assert(held_up(units, s, last));
        let j = choose|j: int| s.contains(j) && #[trigger] waits_for(units, last, j);
        let walk = shorter.push(j);
        assert forall|t: int| 0 <= t < walk.len() implies s.contains(#[trigger] walk[t]) by {
            if t < shorter.len() {
                assert(walk[t] == shorter[t]);
            }
        }
        assert forall|t: int| 0 <= t < walk.len() - 1 implies #[trigger] walk_step(
            units,
            walk,
            t,
        ) by {
            if t < shorter.len() - 1 {
                assert(walk_step(units, shorter, t));
                assert(walk[t] == shorter[t] && walk[t + 1] == shorter[t + 1]);
            } else {
                assert(walk[t] == last && walk[t + 1] == j);
            }
        }
        walk
    }
}

proof fn lemma_repeat(walk: Seq<int>, n: nat)
    requires
        walk.len() > n,
        forall|i: int| 0 <= i < walk.len() ==> 0 <= #[trigger] walk[i] < n,
    ensures
        exists|a: int, b: int| 0 <= a < b < walk.len() && walk[a] == walk[b],
{
    if walk.no_duplicates() {
        walk.unique_seq_to_set();
        vstd::set_lib::lemma_int_range(0, n as int);
        let range = vstd::set_lib::set_int_range(0, n as int);
        assert(walk.to_set().subset_of(range)) by {
            assert forall|x: int| walk.to_set().contains(x) implies range.contains(x) by {
                let i = choose|i: int| 0 <= i < walk.len() && walk[i] == x;
                assert(0 <= walk[i] < n);
            }
        }
        vstd::set_lib::lemma_len_subset(walk.to_set(), range);
    } else {
        let (i, j) = choose|i: int, j: int|
            0 <= i < walk.len() && 0 <= j < walk.len() && i != j && walk[i] == walk[j];
        if i < j {
            assert(0 <= i < j < walk.len() && walk[i] == walk[j]);
        } else {
            assert(0 <= j < i < walk.len() && walk[j] == walk[i]);
        }
    }
}

/// The relations admit no order exactly if they hold a cycle: a knot has
/// only so many units, so a walk through it comes back to where it was.
pub proof fn law_cyclic_means_cycle(units: Seq<UnitInfoView>)
    ensures
        is_cyclic(units) <==> exists|cycle: Seq<int>| is_cycle(units, cycle),
{
    if exists|cycle: Seq<int>| is_cycle(units, cycle) {
        let cycle = choose|cycle: Seq<int>| is_cycle(units, cycle);
        law_cycle_is_cyclic(units, cycle);
    }
    if is_cyclic(units) {
        let s = choose|s: Set<int>| is_knot(units, s);
        let n = units.len();
        let walk = lemma_walk(units, s, n);
        assert forall|i: int| 0 <= i < walk.len() implies 0 <= #[trigger] walk[i] < n by {
            assert(s.contains(walk[i]));
            assert(held_up(units, s, walk[i]));
            let j = choose|j: int| s.contains(j) && #[trigger] waits_for(units, walk[i], j);
            assert(waits_for(units, walk[i], j));
        }
        lemma_repeat(walk, n);
        let (a, b) = choose|a: int, b: int| 0 <= a < b < walk.len() && walk[a] == walk[b];
        let cycle = walk.subrange(a, b);
        assert forall|t: int| 0 <= t < cycle.len() implies #[trigger] cycle_step(
            units,
            cycle,
            t,
        ) by {
            assert(walk_step(units, walk, a + t));
            assert(cycle[t] == walk[a + t]);
            if t + 1 < cycle.len() {
                assert(cycle[t + 1] == walk[a + t + 1]);
            } else {
                assert(cycle[0] == walk[a]);
                assert(walk[a + t + 1] == walk[b]);
            }
        }
        assert(is_cycle(units, cycle));
    }
}

proof fn lemma_one_wave(
    units: Seq<UnitInfoView>,
    waves: Seq<Seq<usize>>,
    k1: int,
    k2: int,
    i: int,
)
    requires
        is_wave_plan(units, waves),
        in_wave(waves, k1, i),
        in_wave(waves, k2, i),
    ensures
        k1 == k2,
{
    let p1 = choose|p: int| 0 <= p < waves[k1].len() && #[trigger] waves[k1][p] == i;
    let p2 = choose|p: int| 0 <= p < waves[k2].len() && #[trigger] waves[k2][p] == i;
    assert(waves[k1][p1] == waves[k2][p2]);
}

proof fn lemma_same_wave(
    units: Seq<UnitInfoView>,
    one: Seq<Seq<usize>>,
    other: Seq<Seq<usize>>,
    k: int,
    i: int,
)
    requires
        is_wave_plan(units, one),
        is_wave_plan(units, other),
        in_wave(one, k, i),
    ensures
        in_wave(other, k, i),
    decreases k,
{
    let p = choose|p: int| 0 <= p < one[k].len() && #[trigger] one[k][p] == i;
    assert(one[k][p] < units.len());
    assert(placed(other, i));
    let k2 = choose|k2: int| #[trigger] in_wave(other, k2, i);
    if k2 < k {
        lemma_same_wave(units, other, one, k2, i);
        lemma_one_wave(units, one, k, k2, i);
    } else if k2 > k {
        assert(in_later_wave(other, k2, i));
        let j = choose|j: int| #[trigger] waits_for(units, i, j) && in_wave(other, k2 - 1, j);
        assert(waits_for(units, i, j));
        let k3 = choose|k3: int| 0 <= k3 < k && #[trigger] in_wave(one, k3, j);
        lemma_same_wave(units, one, other, k3, j);
        lemma_one_wave(units, other, k3, k2 - 1, j);
    }
}

/// Each entry of `a` is greater than those after it.
spec fn falls(a: Seq<usize>) -> bool {
    forall|p: int, q: int| 0 <= p < q < a.len() ==> #[trigger] a[p] > #[trigger] a[q]
}

proof fn lemma_falling_alike(a: Seq<usize>, b: Seq<usize>)
    requires
        falls(a),
        falls(b),
        forall|x: usize| a.contains(x) <==> b.contains(x),
    ensures
        a =~= b,
    decreases a.len(),
{
    if a.len() == 0 {
        if b.len() > 0 {
            assert(b.contains(b[0]));
        }
    } else {
        assert(a.contains(a[0]));
        let q = choose|q: int| 0 <= q < b.len() && b[q] == a[0];
        assert(b.contains(b[0]));
        let p = choose|p: int| 0 <= p < a.len() && a[p] == b[0];
        if q > 0 {
            assert(b[0] > b[q]);
        }
        if p > 0 {
            assert(a[0] > a[p]);
        }
        assert(a[0] == b[0]);
        let ar = a.subrange(1, a.len() as int);
        let br = b.subrange(1, b.len() as int);
        assert forall|x: usize| ar.contains(x) <==> br.contains(x) by {
            if ar.contains(x) {
                let t = choose|t: int| 0 <= t < ar.len() && ar[t] == x;
                assert(a[t + 1] == x);
                assert(a[0] > a[t + 1]);
                assert(a.contains(x));
                let u = choose|u: int| 0 <= u < b.len() && b[u] == x;
                assert(u > 0);
                assert(br[u - 1] == x);
            }
            if br.contains(x) {
                let t = choose|t: int| 0 <= t < br.len() && br[t] == x;
                assert(b[t + 1] == x);
                assert(b[0] > b[t + 1]);
                assert(b.contains(x));
                let u = choose|u: int| 0 <= u < a.len() && a[u] == x;
                assert(u > 0);
                assert(ar[u - 1] == x);
            }
        }
        assert forall|p: int, q: int| 0 <= p < q < ar.len() implies #[trigger] ar[p]
            > #[trigger] ar[q] by {
            assert(a[p + 1] > a[q + 1]);
        }
        assert forall|p: int, q: int| 0 <= p < q < br.len() implies #[trigger] br[p]
            > #[trigger] br[q] by {
            assert(b[p + 1] > b[q + 1]);
        }
        lemma_falling_alike(ar, br);
        assert forall|t: int| 0 <= t < a.len() implies a[t] == b[t] by {
            if t > 0 {
                assert(ar[t - 1] == br[t - 1]);
            }
        }
    }
}

proof fn lemma_no_more_waves(units: Seq<UnitInfoView>, one: Seq<Seq<usize>>, other: Seq<Seq<usize>>)
    requires
        is_wave_plan(units, one),
        is_wave_plan(units, other),
    ensures
        one.len() <= other.len(),
{
    if one.len() > other.len() {
        let k = other.len() as int;
        assert(one[k].len() > 0);
        let i = one[k][0];
        assert(in_wave(one, k, i as int));
        lemma_same_wave(units, one, other, k, i as int);
    }
}

/// Units have one plan at most: what their relations say settles which
/// unit stands in which wave, and so the whole plan.
pub proof fn law_wave_plan_is_unique(
    units: Seq<UnitInfoView>,
    one: Seq<Seq<usize>>,
    other: Seq<Seq<usize>>,
)
    requires
        is_wave_plan(units, one),
        is_wave_plan(units, other),
    ensures
        one == other,
{
    lemma_no_more_waves(units, one, other);
    lemma_no_more_waves(units, other, one);
    assert forall|k: int| 0 <= k < one.len() implies #[trigger] one[k] == other[k] by {
        let a = one[k];
        let b = other[k];
        assert forall|x: usize| a.contains(x) <==> b.contains(x) by {
            if a.contains(x) {
                let p = choose|p: int| 0 <= p < a.len() && a[p] == x;
                assert(one[k][p] == x);
                assert(in_wave(one, k, x as int));
                lemma_same_wave(units, one, other, k, x as int);
                let q = choose|q: int| 0 <= q < other[k].len() && #[trigger] other[k][q] == x as int;
                assert(b[q] == x);
            }
            if b.contains(x) {
                let p = choose|p: int| 0 <= p < b.len() && b[p] == x;
                assert(other[k][p] == x);
                assert(in_wave(other, k, x as int));
                lemma_same_wave(units, other, one, k, x as int);
                let q = choose|q: int| 0 <= q < one[k].len() && #[trigger] one[k][q] == x as int;
                assert(a[q] == x);
            }
        }
        assert(falls(a)) by {
            assert forall|p: int, q: int| 0 <= p < q < a.len() implies #[trigger] a[p]
                > #[trigger] a[q] by {
                assert(one[k][p] > one[k][q]);
            }
        }
        assert(falls(b)) by {
            assert forall|p: int, q: int| 0 <= p < q < b.len() implies #[trigger] b[p]
                > #[trigger] b[q] by {
                assert(other[k][p] > other[k][q]);
            }
        }
        lemma_falling_alike(a, b);
    }
    assert(one =~= other);
}

} // verus!
