use crate::counting::{count_of, lemma_count_update};
use crate::db::catalogue::{names_distinct, Catalogue};
use crate::error::{Error, ErrorKind, Failure, FailureView};
use crate::names::NameSet;
use crate::sort::{
    adds_want, denotes, find, has_missing_need, held_up, in_later_wave, in_wave, is_cyclic,
    is_knot, is_wave_plan, known, law_absent_want_is_ignored, lemma_same_names, missing_need,
    placed, plan_waves, points_at, row_in_range, waits_for, wave_lists,
};
use crate::unit::{UnitInfo, UnitInfoView, UnitName};
use vstd::prelude::*;

verus! {

/// Unit `i` of the catalogue asks for the unit called `name` to be loaded
/// along with it: it needs that unit, or it wants it and the unit is known.
pub open spec fn pulls(cat: Seq<UnitInfoView>, i: int, name: Seq<char>) -> bool {
    &&& 0 <= i < cat.len()
    &&& (cat[i].dependencies.needs.contains(name) || (cat[i].dependencies.wants.contains(name)
        && known(cat, name)))
}

/// The unit at place `t` of `path` pulls the one at the next place.
pub open spec fn chain_link(cat: Seq<UnitInfoView>, path: Seq<int>, t: int) -> bool {
    pulls(cat, path[t], cat[path[t + 1]].name)
}

/// `path` leads from an enabled unit of the catalogue along what the units
/// pull.
pub open spec fn is_chain(cat: Seq<UnitInfoView>, enabled: Set<Seq<char>>, path: Seq<int>) -> bool {
    &&& path.len() > 0
    &&& forall|t: int| 0 <= t < path.len() ==> 0 <= #[trigger] path[t] < cat.len()
    &&& enabled.contains(cat[path[0]].name)
    &&& forall|t: int| 0 <= t < path.len() - 1 ==> #[trigger] chain_link(cat, path, t)
}

/// Unit `i` of the catalogue is loaded at a level with these enabled units:
/// it is enabled itself, or a loaded unit pulls it.
pub open spec fn loaded(cat: Seq<UnitInfoView>, enabled: Set<Seq<char>>, i: int) -> bool {
    exists|path: Seq<int>| #[trigger] is_chain(cat, enabled, path) && path.last() == i
}

/// A loaded unit needs `name`, and no unit of that name is known.
pub open spec fn lacking(cat: Seq<UnitInfoView>, enabled: Set<Seq<char>>, name: Seq<char>) -> bool {
    &&& !known(cat, name)
    &&& exists|i: int| #[trigger]
        loaded(cat, enabled, i) && cat[i].dependencies.needs.contains(name)
}

/// Some loaded unit needs a unit that is not known.
pub open spec fn has_lacking(cat: Seq<UnitInfoView>, enabled: Set<Seq<char>>) -> bool {
    exists|name: Seq<char>| lacking(cat, enabled, name)
}

proof fn lemma_denotes_distinct(cat: Seq<UnitInfoView>, name: Seq<char>, j: int)
    requires
        names_distinct(cat),
        0 <= j < cat.len(),
        cat[j].name == name,
    ensures
        denotes(cat, name, j),
        forall|i: int| denotes(cat, name, i) ==> i == j,
{
    assert forall|k: int| j < k < cat.len() implies (#[trigger] cat[k]).name != name by {
        assert(cat[j].name != cat[k].name);
    }
    assert forall|i: int| denotes(cat, name, i) implies i == j by {
        if i < j {
            assert(cat[i].name != cat[j].name);
        }
        if j < i {
            assert(cat[j].name != cat[i].name);
        }
    }
}

/// A known unit that is enabled is loaded.
pub proof fn lemma_seed_loaded(cat: Seq<UnitInfoView>, enabled: Set<Seq<char>>, i: int)
    requires
        0 <= i < cat.len(),
        enabled.contains(cat[i].name),
    ensures
        loaded(cat, enabled, i),
{
    let path = seq![i];
    assert(is_chain(cat, enabled, path));
    assert(path.last() == i);
}

proof fn lemma_extend_chain(cat: Seq<UnitInfoView>, enabled: Set<Seq<char>>, i: int, j: int)
    requires
        loaded(cat, enabled, i),
        0 <= j < cat.len(),
        pulls(cat, i, cat[j].name),
    ensures
        loaded(cat, enabled, j),
{
    let path = choose|path: Seq<int>| #[trigger] is_chain(cat, enabled, path) && path.last() == i;
    let longer = path.push(j);
    assert forall|t: int| 0 <= t < longer.len() implies 0 <= #[trigger] longer[t] < cat.len() by {
        if t < path.len() {
            assert(longer[t] == path[t]);
        }
    }
    assert forall|t: int| 0 <= t < longer.len() - 1 implies #[trigger] chain_link(
        cat,
        longer,
        t,
    ) by {
        if t < path.len() - 1 {
            assert(chain_link(cat, path, t));
            assert(longer[t] == path[t] && longer[t + 1] == path[t + 1]);
        } else {
            assert(longer[t] == i && longer[t + 1] == j);
        }
    }
    assert(longer[0] == path[0]);
    assert(is_chain(cat, enabled, longer));
    assert(longer.last() == j);
}

/// Every pull of a marked unit leads to a marked unit.
spec fn closed_under_pulls(cat: Seq<UnitInfoView>, marked: Seq<bool>) -> bool {
    forall|i: int, name: Seq<char>|
        0 <= i < cat.len() && marked[i] && #[trigger] pulls(cat, i, name) ==> exists|j: int|
            0 <= j < cat.len() && (#[trigger] cat[j]).name == name && marked[j]
}

proof fn lemma_chain_marked(
    cat: Seq<UnitInfoView>,
    enabled: Set<Seq<char>>,
    marked: Seq<bool>,
    path: Seq<int>,
)
    requires
        names_distinct(cat),
        marked.len() == cat.len(),
        forall|i: int| 0 <= i < cat.len() && enabled.contains((#[trigger] cat[i]).name) ==> marked[i],
        closed_under_pulls(cat, marked),
        is_chain(cat, enabled, path),
    ensures
        marked[path.last()],
    decreases path.len(),
{
    if path.len() == 1 {
        assert(enabled.contains(cat[path[0]].name));
    } else {
        let shorter = path.drop_last();
        assert forall|t: int| 0 <= t < shorter.len() implies 0 <= #[trigger] shorter[t]
            < cat.len() by {
            assert(shorter[t] == path[t]);
        }
        assert forall|t: int| 0 <= t < shorter.len() - 1 implies #[trigger] chain_link(
            cat,
            shorter,
            t,
        ) by {
            assert(chain_link(cat, path, t));
            assert(shorter[t] == path[t] && shorter[t + 1] == path[t + 1]);
        }
        assert(shorter[0] == path[0]);
        assert(is_chain(cat, enabled, shorter));
        lemma_chain_marked(cat, enabled, marked, shorter);
        let i = path[path.len() - 2];
        let last = path.last();
        assert(shorter.last() == i);
        assert(chain_link(cat, path, path.len() - 2));
        assert(pulls(cat, i, cat[last].name));
        let j = choose|j: int|
            0 <= j < cat.len() && (#[trigger] cat[j]).name == cat[last].name && marked[j];
        assert(0 <= last < cat.len());
        if j < last {
            assert(cat[j].name != cat[last].name);
        }
        if last < j {
            assert(cat[last].name != cat[j].name);
        }
    }
}

/// `i` is an entry of `work`.
pub open spec fn listed(work: Seq<usize>, i: int) -> bool {
    exists|t: int| 0 <= t < work.len() && #[trigger] work[t] == i
}

/// `work` lists the marked units, each once.
spec fn tracks(n: int, marked: Seq<bool>, work: Seq<usize>) -> bool {
    &&& marked.len() == n
    &&& forall|t: int| 0 <= t < work.len() ==> (#[trigger] work[t]) < n && marked[work[t] as int]
    &&& forall|i: int| 0 <= i < n && #[trigger] marked[i] ==> listed(work, i)
    &&& forall|s: int, t: int| 0 <= s < t < work.len() ==> #[trigger] work[s] != #[trigger] work[t]
}

/// Marks unit `j`, and lists it if it was not marked.
fn mark(marked: &mut Vec<bool>, work: &mut Vec<usize>, j: usize)
    requires
        j < old(marked).len(),
        tracks(old(marked).len() as int, old(marked)@, old(work)@),
    ensures
        tracks(old(marked).len() as int, final(marked)@, final(work)@),
        final(marked)@ == old(marked)@.update(j as int, true),
        final(work)@ == if old(marked)[j as int] {
            old(work)@
        } else {
            old(work)@.push(j)
        },
        count_of(final(marked)@, false) + final(work).len() == count_of(old(marked)@, false) + old(
            work,
        ).len(),
{
    if !marked[j] {
        proof {
            lemma_count_update(marked@, false, j as int, true);
        }
        marked.set(j, true);
        work.push(j);
        proof {
            let n = marked.len() as int;
            assert forall|i: int| 0 <= i < n && #[trigger] marked[i] implies listed(work@, i) by {
                if i == j {
                    assert(work@[work.len() - 1] == j);
                } else {
                    assert(old(marked)[i]);
                    assert(listed(old(work)@, i));
                    let t = choose|t: int|
                        0 <= t < old(work)@.len() && #[trigger] old(work)@[t] == i;
                    assert(work@[t] == i);
                }
            }
            assert forall|s: int, t: int| 0 <= s < t < work.len() implies #[trigger] work[s]
                != #[trigger] work[t] by {
                if t == work.len() - 1 {
                    assert(old(marked)[old(work)[s] as int]);
                }
            }
        }
    } else {
        assert(marked@ =~= old(marked)@.update(j as int, true));
    }
}

/// Marks the units that `names` stand for, and reports the first name that
/// stands for none.
fn pull_in(
    infos: &Vec<UnitInfo>,
    names: &Vec<UnitName>,
    marked: &mut Vec<bool>,
    work: &mut Vec<usize>,
) -> (unknown: Option<usize>)
    requires
        old(marked).len() == infos.len(),
        tracks(infos.len() as int, old(marked)@, old(work)@),
    ensures
        tracks(infos.len() as int, final(marked)@, final(work)@),
        old(work).len() <= final(work).len(),
        forall|t: int| 0 <= t < old(work).len() ==> #[trigger] final(work)[t] == old(work)[t],
        forall|i: int|
            0 <= i < infos.len() ==> (#[trigger] final(marked)[i] <==> old(marked)[i] || points_at(
                infos.deep_view(),
                names.deep_view(),
                i,
            )),
        match unknown {
            Some(u) => u < names.len() && !known(infos.deep_view(), names.deep_view()[u as int]),
            None => forall|t: int|
                0 <= t < names.len() ==> known(infos.deep_view(), #[trigger] names.deep_view()[t]),
        },
        count_of(final(marked)@, false) + final(work).len() == count_of(old(marked)@, false) + old(
            work,
        ).len(),
{
    let ghost all = infos.deep_view();
    let ghost list = names.deep_view();
    let n = infos.len();
    let mut unknown: Option<usize> = None;
    let mut k: usize = 0;
    while k < names.len()
        invariant
            k <= names.len(),
            n == infos.len(),
            all == infos.deep_view(),
            list == names.deep_view(),
            tracks(n as int, marked@, work@),
            old(work).len() <= work.len(),
            forall|t: int| 0 <= t < old(work).len() ==> #[trigger] work[t] == old(work)[t],
            forall|i: int|
                0 <= i < n ==> (#[trigger] marked[i] <==> old(marked)[i] || exists|t: int|
                    0 <= t < k && denotes(all, #[trigger] list[t], i)),
            match unknown {
                Some(u) => u < k && !known(all, list[u as int]),
                None => forall|t: int| 0 <= t < k ==> known(all, #[trigger] list[t]),
            },
            count_of(marked@, false) + work.len() == count_of(old(marked)@, false) + old(work).len(),
        decreases names.len() - k,
    {
        assert(list[k as int] == names[k as int]@);
        let ghost marked_before = marked@;
        match find(infos, &names[k]) {
            Some(j) => {
                mark(marked, work, j);
                proof {
                    assert(all[j as int].name == list[k as int]);
                    assert forall|i: int| 0 <= i < n implies (#[trigger] marked[i] <==> old(
                        marked,
                    )[i] || exists|t: int| 0 <= t < k + 1 && denotes(all, #[trigger] list[t], i)) by {
                        assert(marked_before[i] <==> old(marked)[i] || exists|t: int|
                            0 <= t < k && denotes(all, #[trigger] list[t], i));
                        if i == j {
                            assert(denotes(all, list[k as int], i));
                        }
                        if exists|t: int| 0 <= t < k + 1 && denotes(all, #[trigger] list[t], i) {
                            let t = choose|t: int|
                                0 <= t < k + 1 && denotes(all, #[trigger] list[t], i);
                            if t == k {
                                assert(i == j);
                            }
                        }
                    }
                }
            },
            None => {
                if unknown.is_none() {
                    unknown = Some(k);
                }
                proof {
                    assert forall|i: int| 0 <= i < n implies (#[trigger] marked[i] <==> old(
                        marked,
                    )[i] || exists|t: int| 0 <= t < k + 1 && denotes(all, #[trigger] list[t], i)) by {
                        if exists|t: int| 0 <= t < k + 1 && denotes(all, #[trigger] list[t], i) {
                            let t = choose|t: int|
                                0 <= t < k + 1 && denotes(all, #[trigger] list[t], i);
                            if t == k {
                                assert(all[i].name == list[k as int]);
                                assert(known(all, list[k as int]));
                            }
                        }
                    }
                }
            },
        }
        k += 1;
    }
    unknown
}

/// Every entry of `work` is the position of a loaded unit, every loaded
/// unit is among them, and none is there twice.
pub open spec fn lists_loaded(
    cat: Seq<UnitInfoView>,
    enabled: Set<Seq<char>>,
    work: Seq<usize>,
) -> bool {
    &&& forall|t: int|
        0 <= t < work.len() ==> (#[trigger] work[t]) < cat.len() && loaded(
            cat,
            enabled,
            work[t] as int,
        )
    &&& forall|i: int| #[trigger] loaded(cat, enabled, i) ==> listed(work, i)
    &&& forall|s: int, t: int| 0 <= s < t < work.len() ==> #[trigger] work[s] != #[trigger] work[t]
}

/// What is loaded is a unit of the catalogue.
pub proof fn lemma_loaded_in_range(cat: Seq<UnitInfoView>, enabled: Set<Seq<char>>, i: int)
    requires
        loaded(cat, enabled, i),
    ensures
        0 <= i < cat.len(),
{
    let path = choose|path: Seq<int>| #[trigger] is_chain(cat, enabled, path) && path.last() == i;
    assert(0 <= path[path.len() - 1] < cat.len());
}

proof fn lemma_loaded_marked(cat: Seq<UnitInfoView>, enabled: Set<Seq<char>>, marked: Seq<bool>)
    requires
        names_distinct(cat),
        marked.len() == cat.len(),
        forall|i: int| 0 <= i < cat.len() && enabled.contains((#[trigger] cat[i]).name) ==> marked[i],
        closed_under_pulls(cat, marked),
    ensures
        forall|i: int| #[trigger] loaded(cat, enabled, i) ==> 0 <= i < cat.len() && marked[i],
{
    assert forall|i: int| #[trigger] loaded(cat, enabled, i) implies 0 <= i < cat.len()
        && marked[i] by {
        lemma_loaded_in_range(cat, enabled, i);
        let path = choose|path: Seq<int>|
            #[trigger] is_chain(cat, enabled, path) && path.last() == i;
        lemma_chain_marked(cat, enabled, marked, path);
    }
}

proof fn lemma_nothing_lacking(cat: Seq<UnitInfoView>, enabled: Set<Seq<char>>, marked: Seq<bool>)
    requires
        marked.len() == cat.len(),
        forall|i: int| #[trigger] loaded(cat, enabled, i) ==> 0 <= i < cat.len() && marked[i],
        closed_under_pulls(cat, marked),
    ensures
        !has_lacking(cat, enabled),
{
    if has_lacking(cat, enabled) {
        let name = choose|name: Seq<char>| lacking(cat, enabled, name);
        let i = choose|i: int| #[trigger]
            loaded(cat, enabled, i) && cat[i].dependencies.needs.contains(name);
        assert(marked[i]);
        assert(pulls(cat, i, name));
        let j = choose|j: int| 0 <= j < cat.len() && (#[trigger] cat[j]).name == name && marked[j];
        assert(known(cat, name));
    }
}

proof fn lemma_work_lists_loaded(
    cat: Seq<UnitInfoView>,
    enabled: Set<Seq<char>>,
    marked: Seq<bool>,
    work: Seq<usize>,
)
    requires
        tracks(cat.len() as int, marked, work),
        forall|i: int| 0 <= i < cat.len() && #[trigger] marked[i] ==> loaded(cat, enabled, i),
        forall|i: int| #[trigger] loaded(cat, enabled, i) ==> 0 <= i < cat.len() && marked[i],
    ensures
        lists_loaded(cat, enabled, work),
{
    assert forall|t: int| 0 <= t < work.len() implies (#[trigger] work[t]) < cat.len() && loaded(
        cat,
        enabled,
        work[t] as int,
    ) by {
        assert(marked[work[t] as int]);
    }
}

/// Finds the units to load at a level: the enabled units that are known,
/// and whatever these and the units found so pull in. Fails with the name
/// of a unit that is needed and not known.
pub fn close_over(infos: &Vec<UnitInfo>, enabled: &NameSet) -> (res: Result<Vec<usize>, UnitName>)
    requires
        names_distinct(infos.deep_view()),
    ensures
        match res {
            Ok(work) => lists_loaded(infos.deep_view(), enabled@, work@) && !has_lacking(
                infos.deep_view(),
                enabled@,
            ),
            Err(name) => lacking(infos.deep_view(), enabled@, name@),
        },
{
    let ghost cat = infos.deep_view();
    let ghost on = enabled@;
    let n = infos.len();
    let mut marked: Vec<bool> = Vec::new();
    let mut i: usize = 0;
    while i < n
        invariant
            i <= n,
            marked.len() == i,
            forall|t: int| 0 <= t < i ==> !marked[t],
        decreases n - i,
    {
        marked.push(false);
        i += 1;
    }
    let mut work: Vec<usize> = Vec::new();
    assert(tracks(n as int, marked@, work@));
    i = 0;
    while i < n
        invariant
            i <= n,
            n == infos.len(),
            cat == infos.deep_view(),
            on == enabled@,
            tracks(n as int, marked@, work@),
            forall|t: int| 0 <= t < n && #[trigger] marked[t] ==> t < i && on.contains(cat[t].name),
            forall|t: int| 0 <= t < i && on.contains((#[trigger] cat[t]).name) ==> marked[t],
        decreases n - i,
    {
        assert(cat[i as int].name == infos[i as int].name@);
        if enabled.contains(&infos[i].name) {
            mark(&mut marked, &mut work, i);
        }
        i += 1;
    }
    proof {
        assert forall|t: int| 0 <= t < n && #[trigger] marked[t] implies loaded(cat, on, t) by {
            lemma_seed_loaded(cat, on, t);
        }
    }
    let mut p: usize = 0;
    while p < work.len()
        invariant
            p <= work.len(),
            n == infos.len(),
            cat == infos.deep_view(),
            on == enabled@,
            names_distinct(cat),
            tracks(n as int, marked@, work@),
            forall|t: int| 0 <= t < n && #[trigger] marked[t] ==> loaded(cat, on, t),
            forall|t: int| 0 <= t < n && on.contains((#[trigger] cat[t]).name) ==> marked[t],
            forall|t: int, name: Seq<char>|
                0 <= t < p && #[trigger] pulls(cat, work[t] as int, name) ==> exists|j: int|
                    0 <= j < n && (#[trigger] cat[j]).name == name && marked[j],
        decreases count_of(marked@, false) + work.len() - p,
    {
        let at = work[p];
        let unit = &infos[at];
        assert(cat[at as int] == unit@);
        let ghost marked_0 = marked@;
        let ghost work_0 = work@;
        let unknown = pull_in(infos, &unit.dependencies.needs, &mut marked, &mut work);
        if let Some(u) = unknown {
            let name = unit.dependencies.needs[u].clone();
            proof {
                assert(name@ == unit@.dependencies.needs[u as int]);
                assert(loaded(cat, on, at as int));
                assert(cat[at as int].dependencies.needs.contains(name@));
            }
            return Err(name);
        }
        let ghost marked_1 = marked@;
        pull_in(infos, &unit.dependencies.wants, &mut marked, &mut work);
        proof {
            let needs = unit@.dependencies.needs;
            let wants = unit@.dependencies.wants;
            assert forall|t: int| 0 <= t < n && #[trigger] marked[t] implies loaded(cat, on, t) by {
                if !marked_0[t] {
                    if marked_1[t] {
                        let k = choose|k: int|
                            0 <= k < needs.len() && denotes(cat, #[trigger] needs[k], t);
                        assert(needs.contains(cat[t].name));
                    } else {
                        let k = choose|k: int|
                            0 <= k < wants.len() && denotes(cat, #[trigger] wants[k], t);
                        assert(wants.contains(cat[t].name));
                        assert(known(cat, cat[t].name));
                    }
                    assert(pulls(cat, at as int, cat[t].name));
                    lemma_extend_chain(cat, on, at as int, t);
                }
            }
            assert forall|t: int, name: Seq<char>|
                0 <= t < p + 1 && #[trigger] pulls(cat, work[t] as int, name) implies exists|j: int|
                0 <= j < n && (#[trigger] cat[j]).name == name && marked[j] by {
                if t < p {
                    assert(work[t] == work_0[t]);
                    assert(pulls(cat, work_0[t] as int, name));
                    let j = choose|j: int|
                        0 <= j < n && (#[trigger] cat[j]).name == name && marked_0[j];
                    assert(marked_1[j]);
                    assert(marked[j]);
                } else {
                    assert(work[t] == at);
                    if needs.contains(name) {
                        let k = choose|k: int| 0 <= k < needs.len() && needs[k] == name;
                        assert(known(cat, needs[k]));
                        let j = choose|j: int| 0 <= j < n && (#[trigger] cat[j]).name == name;
                        lemma_denotes_distinct(cat, name, j);
                        assert(denotes(cat, needs[k], j));
                        assert(points_at(cat, needs, j));
                        assert(marked_1[j]);
                        assert(marked[j]);
                    } else {
                        let k = choose|k: int| 0 <= k < wants.len() && wants[k] == name;
                        let j = choose|j: int| 0 <= j < n && (#[trigger] cat[j]).name == name;
                        lemma_denotes_distinct(cat, name, j);
                        assert(denotes(cat, wants[k], j));
                        assert(points_at(cat, wants, j));
                        assert(marked[j]);
                    }
                }
            }
        }
        p += 1;
    }
    proof {
        assert forall|i: int, name: Seq<char>|
            0 <= i < cat.len() && marked[i] && #[trigger] pulls(cat, i, name) implies exists|j: int|
            0 <= j < cat.len() && (#[trigger] cat[j]).name == name && marked[j] by {
            assert(listed(work@, i));
            let t = choose|t: int| 0 <= t < work@.len() && #[trigger] work@[t] == i;
            assert(pulls(cat, work[t] as int, name));
        }
        lemma_loaded_marked(cat, on, marked@);
        lemma_nothing_lacking(cat, on, marked@);
        lemma_work_lists_loaded(cat, on, marked@, work@);
    }
    Ok(work)
}

/// The waves of a level as lists of names.
pub open spec fn name_lists(waves: Seq<Vec<UnitName>>) -> Seq<Seq<Seq<char>>> {
    Seq::new(waves.len(), |k: int| waves[k].deep_view())
}

/// The name `name` stands in wave `k` of `level`.
pub open spec fn in_level(level: Seq<Seq<Seq<char>>>, k: int, name: Seq<char>) -> bool {
    &&& 0 <= k < level.len()
    &&& exists|p: int| 0 <= p < level[k].len() && #[trigger] level[k][p] == name
}

/// The name `name` stands in some wave of `level`.
pub open spec fn level_placed(level: Seq<Seq<Seq<char>>>, name: Seq<char>) -> bool {
    exists|k: int| #[trigger] in_level(level, k, name)
}

/// Unit `a` of the catalogue stands in wave `k` of `level`.
pub open spec fn sits(cat: Seq<UnitInfoView>, level: Seq<Seq<Seq<char>>>, k: int, a: int) -> bool {
    0 <= a < cat.len() && in_level(level, k, cat[a].name)
}

/// The loaded unit `a` stands in wave `k` of `level`, which is not the
/// first.
pub open spec fn sits_later(
    cat: Seq<UnitInfoView>,
    enabled: Set<Seq<char>>,
    level: Seq<Seq<Seq<char>>>,
    k: int,
    a: int,
) -> bool {
    0 < k && sits(cat, level, k, a) && loaded(cat, enabled, a)
}

/// `name` is the name of a loaded unit.
pub open spec fn loaded_name(
    cat: Seq<UnitInfoView>,
    enabled: Set<Seq<char>>,
    name: Seq<char>,
) -> bool {
    exists|i: int| #[trigger] loaded(cat, enabled, i) && cat[i].name == name
}

/// Both units are loaded, and `a` may only start once `b` has.
pub open spec fn level_waits(
    cat: Seq<UnitInfoView>,
    enabled: Set<Seq<char>>,
    a: int,
    b: int,
) -> bool {
    loaded(cat, enabled, a) && loaded(cat, enabled, b) && waits_for(cat, a, b)
}

/// Unit `a` waits, at this level, for a member of `s`.
pub open spec fn level_held_up(
    cat: Seq<UnitInfoView>,
    enabled: Set<Seq<char>>,
    s: Set<int>,
    a: int,
) -> bool {
    exists|b: int| s.contains(b) && #[trigger] level_waits(cat, enabled, a, b)
}

/// A non-empty set of loaded units each of which waits for a member of the
/// set.
pub open spec fn is_level_knot(cat: Seq<UnitInfoView>, enabled: Set<Seq<char>>, s: Set<int>) -> bool {
    &&& exists|i: int| s.contains(i)
    &&& forall|i: int| s.contains(i) ==> #[trigger] level_held_up(cat, enabled, s, i)
}

/// The units loaded at this level cannot be put in any order.
pub open spec fn level_is_cyclic(cat: Seq<UnitInfoView>, enabled: Set<Seq<char>>) -> bool {
    exists|s: Set<int>| is_level_knot(cat, enabled, s)
}

/// `level` is the plan of the level: it holds the names of the loaded
/// units, each once; every unit stands in a later wave than the loaded units
/// it waits for, and in the earliest wave that this allows.
pub open spec fn is_level_plan(
    cat: Seq<UnitInfoView>,
    enabled: Set<Seq<char>>,
    level: Seq<Seq<Seq<char>>>,
) -> bool {
    &&& forall|i: int| #[trigger] loaded(cat, enabled, i) ==> level_placed(level, cat[i].name)
    &&& forall|k: int, p: int|
        0 <= k < level.len() && 0 <= p < level[k].len() ==> loaded_name(
            cat,
            enabled,
            #[trigger] level[k][p],
        )
    &&& forall|k1: int, p1: int, k2: int, p2: int|
        0 <= k1 < level.len() && 0 <= p1 < level[k1].len() && 0 <= k2 < level.len() && 0 <= p2
            < level[k2].len() && #[trigger] level[k1][p1] == #[trigger] level[k2][p2] ==> k1 == k2
            && p1 == p2
    &&& forall|k: int, a: int, b: int|
        #[trigger] sits(cat, level, k, a) && #[trigger] level_waits(cat, enabled, a, b)
            ==> exists|k2: int| 0 <= k2 < k && #[trigger] sits(cat, level, k2, b)
    &&& forall|k: int, a: int| #[trigger]
        sits_later(cat, enabled, level, k, a) ==> exists|b: int|
            #[trigger] level_waits(cat, enabled, a, b) && sits(cat, level, k - 1, b)
    &&& forall|k: int| 0 <= k < level.len() ==> (#[trigger] level[k]).len() > 0
}

/// `units` are the loaded units of the catalogue, in the order of `work`.
spec fn selection(
    cat: Seq<UnitInfoView>,
    enabled: Set<Seq<char>>,
    work: Seq<usize>,
    units: Seq<UnitInfoView>,
) -> bool {
    &&& names_distinct(cat)
    &&& lists_loaded(cat, enabled, work)
    &&& units.len() == work.len()
    &&& forall|t: int| 0 <= t < units.len() ==> #[trigger] units[t] == cat[work[t] as int]
}

proof fn lemma_selection_distinct(
    cat: Seq<UnitInfoView>,
    enabled: Set<Seq<char>>,
    work: Seq<usize>,
    units: Seq<UnitInfoView>,
)
    requires
        selection(cat, enabled, work, units),
    ensures
        names_distinct(units),
{
    assert forall|s: int, t: int| 0 <= s < t < units.len() implies (#[trigger] units[s]).name != (
    #[trigger] units[t]).name by {
        let a = work[s] as int;
        let b = work[t] as int;
        assert(work[s] != work[t]);
        assert(units[s] == cat[a] && units[t] == cat[b]);
        if a < b {
            assert(cat[a].name != cat[b].name);
        } else {
            assert(cat[b].name != cat[a].name);
        }
    }
}

/// The place in `work` of a loaded unit.
proof fn lemma_place_of(
    cat: Seq<UnitInfoView>,
    enabled: Set<Seq<char>>,
    work: Seq<usize>,
    units: Seq<UnitInfoView>,
    i: int,
) -> (t: int)
    requires
        selection(cat, enabled, work, units),
        loaded(cat, enabled, i),
    ensures
        0 <= t < units.len(),
        work[t] == i,
        units[t] == cat[i],
{
    assert(listed(work, i));
    let t = choose|t: int| 0 <= t < work.len() && #[trigger] work[t] == i;
    assert(units[t] == cat[work[t] as int]);
    t
}

proof fn lemma_selected_denotes(
    cat: Seq<UnitInfoView>,
    enabled: Set<Seq<char>>,
    work: Seq<usize>,
    units: Seq<UnitInfoView>,
    name: Seq<char>,
    t: int,
)
    requires
        selection(cat, enabled, work, units),
        0 <= t < units.len(),
    ensures
        denotes(units, name, t) == denotes(cat, name, work[t] as int),
{
    lemma_selection_distinct(cat, enabled, work, units);
    assert(units[t] == cat[work[t] as int]);
    if units[t].name == name {
        crate::db::level::lemma_denotes_distinct(units, name, t);
        crate::db::level::lemma_denotes_distinct(cat, name, work[t] as int);
    }
}

proof fn lemma_selected_points(
    cat: Seq<UnitInfoView>,
    enabled: Set<Seq<char>>,
    work: Seq<usize>,
    units: Seq<UnitInfoView>,
    names: Seq<Seq<char>>,
    t: int,
)
    requires
        selection(cat, enabled, work, units),
        0 <= t < units.len(),
    ensures
        points_at(units, names, t) == points_at(cat, names, work[t] as int),
{
    if points_at(units, names, t) {
        let k = choose|k: int| 0 <= k < names.len() && denotes(units, #[trigger] names[k], t);
        lemma_selected_denotes(cat, enabled, work, units, names[k], t);
        assert(denotes(cat, names[k], work[t] as int));
    }
    if points_at(cat, names, work[t] as int) {
        let k = choose|k: int|
            0 <= k < names.len() && denotes(cat, #[trigger] names[k], work[t] as int);
        lemma_selected_denotes(cat, enabled, work, units, names[k], t);
        assert(denotes(units, names[k], t));
    }
}

proof fn lemma_selected_waits(
    cat: Seq<UnitInfoView>,
    enabled: Set<Seq<char>>,
    work: Seq<usize>,
    units: Seq<UnitInfoView>,
    s: int,
    t: int,
)
    requires
        selection(cat, enabled, work, units),
        0 <= s < units.len(),
        0 <= t < units.len(),
    ensures
        waits_for(units, s, t) == waits_for(cat, work[s] as int, work[t] as int),
{
    assert(units[s] == cat[work[s] as int]);
    assert(units[t] == cat[work[t] as int]);
    lemma_selected_points(cat, enabled, work, units, units[s].dependencies.needs, t);
    lemma_selected_points(cat, enabled, work, units, units[s].dependencies.wants, t);
    lemma_selected_points(cat, enabled, work, units, units[s].dependencies.after, t);
    lemma_selected_points(cat, enabled, work, units, units[t].dependencies.before, s);
}

proof fn lemma_selected_needs_known(
    cat: Seq<UnitInfoView>,
    enabled: Set<Seq<char>>,
    work: Seq<usize>,
    units: Seq<UnitInfoView>,
)
    requires
        selection(cat, enabled, work, units),
        !has_lacking(cat, enabled),
    ensures
        !has_missing_need(units),
{
    if has_missing_need(units) {
        let (t, k) = choose|t: int, k: int| missing_need(units, t, k);
        let i = work[t] as int;
        assert(units[t] == cat[i]);
        let name = units[t].dependencies.needs[k];
        assert(loaded(cat, enabled, i));
        assert(cat[i].dependencies.needs.contains(name));
        if !known(cat, name) {
            assert(lacking(cat, enabled, name));
        }
        let j = choose|j: int| 0 <= j < cat.len() && (#[trigger] cat[j]).name == name;
        assert(pulls(cat, i, cat[j].name));
        lemma_extend_chain(cat, enabled, i, j);
        let t2 = lemma_place_of(cat, enabled, work, units, j);
        assert(units[t2].name == name);
        assert(known(units, name));
    }
}

proof fn lemma_knot_to_level(
    cat: Seq<UnitInfoView>,
    enabled: Set<Seq<char>>,
    work: Seq<usize>,
    units: Seq<UnitInfoView>,
)
    requires
        selection(cat, enabled, work, units),
        is_cyclic(units),
    ensures
        level_is_cyclic(cat, enabled),
{
    let s = choose|s: Set<int>| is_knot(units, s);
    let image = Set::new(|i: int| exists|t: int| s.contains(t) && 0 <= t < units.len() && work[t] == i);
    let first = choose|t: int| s.contains(t);
    assert(held_up(units, s, first));
    let other = choose|j: int| s.contains(j) && #[trigger] waits_for(units, first, j);
    assert(waits_for(units, first, other));
    assert(s.contains(first) && 0 <= first < units.len() && work[first] == work[first] as int);
    assert(image.contains(work[first] as int));
    assert forall|i: int| image.contains(i) implies #[trigger] level_held_up(
        cat,
        enabled,
        image,
        i,
    ) by {
        let t = choose|t: int| s.contains(t) && 0 <= t < units.len() && work[t] == i;
        assert(held_up(units, s, t));
        let t2 = choose|j: int| s.contains(j) && #[trigger] waits_for(units, t, j);
        assert(waits_for(units, t, t2));
        lemma_selected_waits(cat, enabled, work, units, t, t2);
        let b = work[t2] as int;
        assert(s.contains(t2) && 0 <= t2 < units.len() && work[t2] == b);
        assert(image.contains(b));
        assert(level_waits(cat, enabled, i, b));
    }
    assert(is_level_knot(cat, enabled, image));
}

proof fn lemma_level_to_knot(
    cat: Seq<UnitInfoView>,
    enabled: Set<Seq<char>>,
    work: Seq<usize>,
    units: Seq<UnitInfoView>,
)
    requires
        selection(cat, enabled, work, units),
        level_is_cyclic(cat, enabled),
    ensures
        is_cyclic(units),
{
    let image = choose|s: Set<int>| is_level_knot(cat, enabled, s);
    let s = Set::new(|t: int| 0 <= t < units.len() && image.contains(work[t] as int));
    let first = choose|i: int| image.contains(i);
    assert(level_held_up(cat, enabled, image, first));
    let other = choose|b: int| image.contains(b) && #[trigger] level_waits(cat, enabled, first, b);
    assert(level_waits(cat, enabled, first, other));
    let t0 = lemma_place_of(cat, enabled, work, units, first);
    assert(s.contains(t0));
    assert forall|t: int| s.contains(t) implies #[trigger] held_up(units, s, t) by {
        let i = work[t] as int;
        assert(level_held_up(cat, enabled, image, i));
        let b = choose|b: int| image.contains(b) && #[trigger] level_waits(cat, enabled, i, b);
        assert(level_waits(cat, enabled, i, b));
        let t2 = lemma_place_of(cat, enabled, work, units, b);
        lemma_selected_waits(cat, enabled, work, units, t, t2);
        assert(s.contains(t2) && waits_for(units, t, t2));
    }
    assert(is_knot(units, s));
}

/// `level` holds, place by place, the names of the units that `waves`
/// refers to.
spec fn names_follow(
    units: Seq<UnitInfoView>,
    waves: Seq<Seq<usize>>,
    level: Seq<Seq<Seq<char>>>,
) -> bool {
    &&& level.len() == waves.len()
    &&& forall|k: int| 0 <= k < waves.len() ==> (#[trigger] level[k]).len() == waves[k].len()
    &&& forall|k: int, p: int|
        0 <= k < waves.len() && 0 <= p < waves[k].len() ==> #[trigger] level[k][p]
            == units[waves[k][p] as int].name
}

proof fn lemma_wave_to_level(
    units: Seq<UnitInfoView>,
    waves: Seq<Seq<usize>>,
    level: Seq<Seq<Seq<char>>>,
    k: int,
    t: int,
)
    requires
        names_follow(units, waves, level),
        in_wave(waves, k, t),
    ensures
        in_level(level, k, units[t].name),
{
    let p = choose|p: int| 0 <= p < waves[k].len() && #[trigger] waves[k][p] == t;
    assert(level[k][p] == units[waves[k][p] as int].name);
}

proof fn lemma_level_to_wave(
    units: Seq<UnitInfoView>,
    waves: Seq<Seq<usize>>,
    level: Seq<Seq<Seq<char>>>,
    k: int,
    name: Seq<char>,
) -> (t: int)
    requires
        is_wave_plan(units, waves),
        names_follow(units, waves, level),
        in_level(level, k, name),
    ensures
        0 <= t < units.len(),
        in_wave(waves, k, t),
        units[t].name == name,
{
    let p = choose|p: int| 0 <= p < level[k].len() && #[trigger] level[k][p] == name;
    assert(level[k].len() == waves[k].len());
    assert(level[k][p] == units[waves[k][p] as int].name);
    assert(waves[k][p] < units.len());
    waves[k][p] as int
}

/// The unit of the selection that sits in wave `k` as unit `a` of the
/// catalogue does.
proof fn lemma_sitting_unit(
    cat: Seq<UnitInfoView>,
    enabled: Set<Seq<char>>,
    work: Seq<usize>,
    units: Seq<UnitInfoView>,
    waves: Seq<Seq<usize>>,
    level: Seq<Seq<Seq<char>>>,
    k: int,
    a: int,
) -> (t: int)
    requires
        selection(cat, enabled, work, units),
        is_wave_plan(units, waves),
        names_follow(units, waves, level),
        sits(cat, level, k, a),
    ensures
        0 <= t < units.len(),
        in_wave(waves, k, t),
        work[t] == a,
{
    let t = lemma_level_to_wave(units, waves, level, k, cat[a].name);
    let i = work[t] as int;
    assert(units[t] == cat[i]);
    if i < a {
        assert(cat[i].name != cat[a].name);
    }
    if a < i {
        assert(cat[a].name != cat[i].name);
    }
    t
}

proof fn lemma_plan_to_level(
    cat: Seq<UnitInfoView>,
    enabled: Set<Seq<char>>,
    work: Seq<usize>,
    units: Seq<UnitInfoView>,
    waves: Seq<Seq<usize>>,
    level: Seq<Seq<Seq<char>>>,
)
    requires
        selection(cat, enabled, work, units),
        is_wave_plan(units, waves),
        names_follow(units, waves, level),
    ensures
        is_level_plan(cat, enabled, level),
{
    lemma_selection_distinct(cat, enabled, work, units);
    assert forall|i: int| #[trigger] loaded(cat, enabled, i) implies level_placed(
        level,
        cat[i].name,
    ) by {
        let t = lemma_place_of(cat, enabled, work, units, i);
        assert(placed(waves, t));
        let k = choose|k: int| #[trigger] in_wave(waves, k, t);
        lemma_wave_to_level(units, waves, level, k, t);
        assert(in_level(level, k, cat[i].name));
    }
    assert forall|k: int, p: int| 0 <= k < level.len() && 0 <= p < level[k].len() implies loaded_name(
        cat,
        enabled,
        #[trigger] level[k][p],
    ) by {
        assert(level[k].len() == waves[k].len());
        let t = waves[k][p] as int;
        assert(t < units.len());
        assert(level[k][p] == units[t].name);
        assert(units[t] == cat[work[t] as int]);
        assert(loaded(cat, enabled, work[t] as int));
    }
    assert forall|k1: int, p1: int, k2: int, p2: int|
        0 <= k1 < level.len() && 0 <= p1 < level[k1].len() && 0 <= k2 < level.len() && 0 <= p2
            < level[k2].len() && #[trigger] level[k1][p1] == #[trigger] level[k2][p2] implies k1
        == k2 && p1 == p2 by {
        assert(level[k1].len() == waves[k1].len());
        assert(level[k2].len() == waves[k2].len());
        let t1 = waves[k1][p1] as int;
        let t2 = waves[k2][p2] as int;
        assert(t1 < units.len() && t2 < units.len());
        assert(level[k1][p1] == units[t1].name);
        assert(level[k2][p2] == units[t2].name);
        if t1 < t2 {
            assert(units[t1].name != units[t2].name);
        }
        if t2 < t1 {
            assert(units[t2].name != units[t1].name);
        }
        assert(waves[k1][p1] == waves[k2][p2]);
    }
    assert forall|k: int, a: int, b: int| #[trigger]
        sits(cat, level, k, a) && #[trigger] level_waits(cat, enabled, a, b) implies exists|
        k2: int,
    | 0 <= k2 < k && #[trigger] sits(cat, level, k2, b) by {
        let t = lemma_sitting_unit(cat, enabled, work, units, waves, level, k, a);
        let t2 = lemma_place_of(cat, enabled, work, units, b);
        lemma_selected_waits(cat, enabled, work, units, t, t2);
        assert(waits_for(units, t, t2));
        let k2 = choose|k2: int| 0 <= k2 < k && #[trigger] in_wave(waves, k2, t2);
        lemma_wave_to_level(units, waves, level, k2, t2);
        assert(sits(cat, level, k2, b));
    }
    assert forall|k: int, a: int| #[trigger]
        sits_later(cat, enabled, level, k, a) implies exists|b: int|
        #[trigger] level_waits(cat, enabled, a, b) && sits(cat, level, k - 1, b) by {
        let t = lemma_sitting_unit(cat, enabled, work, units, waves, level, k, a);
        assert(in_later_wave(waves, k, t));
        let t2 = choose|j: int| #[trigger] waits_for(units, t, j) && in_wave(waves, k - 1, j);
        assert(0 <= t2 < units.len());
        lemma_selected_waits(cat, enabled, work, units, t, t2);
        let b = work[t2] as int;
        lemma_wave_to_level(units, waves, level, k - 1, t2);
        assert(units[t2] == cat[b]);
        assert(level_waits(cat, enabled, a, b) && sits(cat, level, k - 1, b));
    }
    assert forall|k: int| 0 <= k < level.len() implies (#[trigger] level[k]).len() > 0 by {
        assert(waves[k].len() > 0);
    }
}

/// Copies the units at the places `work` out of `infos`.
fn pick(infos: &Vec<UnitInfo>, work: &Vec<usize>) -> (units: Vec<UnitInfo>)
    requires
        row_in_range(work@, infos.len() as int),
    ensures
        units.len() == work.len(),
        forall|t: int|
            0 <= t < work.len() ==> #[trigger] units.deep_view()[t] == infos.deep_view()[work[t] as int],
{
    let mut units: Vec<UnitInfo> = Vec::new();
    let mut t: usize = 0;
    while t < work.len()
        invariant
            t <= work.len(),
            units.len() == t,
            row_in_range(work@, infos.len() as int),
            forall|s: int| 0 <= s < t ==> (#[trigger] units[s])@ == infos[work[s] as int]@,
        decreases work.len() - t,
    {
        units.push(infos[work[t]].clone());
        t += 1;
    }
    assert forall|s: int| 0 <= s < work.len() implies #[trigger] units.deep_view()[s]
        == infos.deep_view()[work[s] as int] by {
        assert(units[s]@ == infos[work[s] as int]@);
    }
    units
}

/// Writes a wave plan with the names of the units in place of their
/// positions.
fn name_waves(units: &Vec<UnitInfo>, waves: &Vec<Vec<usize>>) -> (order: Vec<Vec<UnitName>>)
    requires
        forall|k: int|
            0 <= k < waves.len() ==> row_in_range((#[trigger] waves[k])@, units.len() as int),
    ensures
        names_follow(units.deep_view(), wave_lists(waves@), name_lists(order@)),
{
    let mut order: Vec<Vec<UnitName>> = Vec::new();
    let mut k: usize = 0;
    while k < waves.len()
        invariant
            k <= waves.len(),
            order.len() == k,
            forall|t: int|
                0 <= t < waves.len() ==> row_in_range((#[trigger] waves[t])@, units.len() as int),
            forall|t: int| 0 <= t < k ==> (#[trigger] order[t]).len() == waves[t].len(),
            forall|t: int, p: int|
                0 <= t < k && 0 <= p < waves[t].len() ==> (#[trigger] order[t][p])@
                    == units[waves[t][p] as int].name@,
        decreases waves.len() - k,
    {
        let wave = &waves[k];
        let mut group: Vec<UnitName> = Vec::new();
        let mut p: usize = 0;
        while p < wave.len()
            invariant
                p <= wave.len(),
                group.len() == p,
                row_in_range(wave@, units.len() as int),
                forall|q: int| 0 <= q < p ==> (#[trigger] group[q])@ == units[wave[q] as int].name@,
            decreases wave.len() - p,
        {
            group.push(units[wave[p]].name.clone());
            p += 1;
        }
        order.push(group);
        k += 1;
    }
    proof {
        let lists = name_lists(order@);
        let all = units.deep_view();
        let plan = wave_lists(waves@);
        assert forall|t: int, p: int| 0 <= t < plan.len() && 0 <= p < plan[t].len() implies
            #[trigger] lists[t][p] == all[plan[t][p] as int].name by {
            assert(order[t][p]@ == units[waves[t][p] as int].name@);
        }
    }
    order
}

/// The plan of one level: the names of the units to start, wave by wave.
#[derive(Debug)]
pub struct Level(pub Vec<Vec<UnitName>>);

impl View for Level {
    type V = Seq<Seq<Seq<char>>>;

    open spec fn view(&self) -> Seq<Seq<Seq<char>>> {
        name_lists(self.0@)
    }
}

impl Level {
    /// Plans a level from the known units and the names enabled at it.
    ///
    /// Loaded are the enabled units that are known, the units that loaded
    /// units need, and the known units that loaded units want. Where a
    /// loaded unit needs a unit that is not known, the level cannot be
    /// built; neither can it where the loaded units admit no order.
    pub fn build(map: &Catalogue, enabled: &NameSet) -> (res: Result<Level, Error>)
        ensures
            match res {
                Ok(level) => {
                    &&& !has_lacking(map@, enabled@)
                    &&& !level_is_cyclic(map@, enabled@)
                    &&& is_level_plan(map@, enabled@, level@)
                },
                Err(e) => {
                    &&& e@.kind == ErrorKind::Unrecoverable
                    &&& e@.context is None
                    &&& if has_lacking(map@, enabled@) {
                        &&& e@.original is AbsentDependency
                        &&& lacking(map@, enabled@, e@.original->AbsentDependency_0)
                    } else {
                        &&& level_is_cyclic(map@, enabled@)
                        &&& e@.original == FailureView::CyclicDependency
                    }
                },
            },
    {
        let infos = map.infos();
        let ghost cat = map@;
        let ghost on = enabled@;
        let work = match close_over(infos, enabled) {
            Ok(work) => work,
            Err(name) => {
                return Err(
                    Error::new(ErrorKind::Unrecoverable, None, Failure::AbsentDependency(name)),
                );
            },
        };
        let units = pick(infos, &work);
        proof {
            assert(selection(cat, on, work@, units.deep_view()));
            lemma_selected_needs_known(cat, on, work@, units.deep_view());
        }
        match plan_waves(&units) {
            Err(e) => {
                proof {
                    lemma_knot_to_level(cat, on, work@, units.deep_view());
                }
                Err(e)
            },
            Ok(waves) => {
                proof {
                    let plan = wave_lists(waves@);
                    assert forall|k: int| 0 <= k < waves.len() implies row_in_range(
                        (#[trigger] waves[k])@,
                        units.len() as int,
                    ) by {
                        assert forall|p: int| 0 <= p < waves[k]@.len() implies (
                        #[trigger] waves[k]@[p]) < units.len() by {
                            assert(plan[k][p] < units.len());
                        }
                    }
                }
                let order = name_waves(&units, &waves);
                proof {
                    lemma_plan_to_level(
                        cat,
                        on,
                        work@,
                        units.deep_view(),
                        wave_lists(waves@),
                        name_lists(order@),
                    );
                    if level_is_cyclic(cat, on) {
                        lemma_level_to_knot(cat, on, work@, units.deep_view());
                    }
                }
                Ok(Level(order))
            },
        }
    }

    /// The waves of the level, in the order in which they start.
    pub fn get_order(&self) -> (res: &Vec<Vec<UnitName>>)
        ensures
            *res == self.0,
    {
        &self.0
    }
}

impl Clone for Level {
    fn clone(&self) -> (res: Self)
        ensures
            res@ == self@,
    {
        let mut order: Vec<Vec<UnitName>> = Vec::new();
        let mut k: usize = 0;
        while k < self.0.len()
            invariant
                k <= self.0.len(),
                order.len() == k,
                forall|t: int| 0 <= t < k ==> (#[trigger] order[t]).deep_view() == self.0[t].deep_view(),
            decreases self.0.len() - k,
        {
            order.push(crate::unit::clone_names(&self.0[k]));
            k += 1;
        }
        assert(name_lists(order@) =~= name_lists(self.0@));
        Level(order)
    }
}

/// A level holds exactly the loaded units, each of them once: a name
/// stands in the level if and only if it is the name of a loaded unit, and
/// then at one place only.
pub proof fn law_level_is_the_closure(
    cat: Seq<UnitInfoView>,
    enabled: Set<Seq<char>>,
    level: Seq<Seq<Seq<char>>>,
    name: Seq<char>,
)
    requires
        is_level_plan(cat, enabled, level),
    ensures
        level_placed(level, name) <==> loaded_name(cat, enabled, name),
        forall|k1: int, p1: int, k2: int, p2: int|
            0 <= k1 < level.len() && 0 <= p1 < level[k1].len() && 0 <= k2 < level.len() && 0 <= p2
                < level[k2].len() && #[trigger] level[k1][p1] == name && #[trigger] level[k2][p2]
                == name ==> k1 == k2 && p1 == p2,
{
    if level_placed(level, name) {
        let k = choose|k: int| #[trigger] in_level(level, k, name);
        let p = choose|p: int| 0 <= p < level[k].len() && #[trigger] level[k][p] == name;
        assert(loaded_name(cat, enabled, level[k][p]));
    }
    if loaded_name(cat, enabled, name) {
        let i = choose|i: int| #[trigger] loaded(cat, enabled, i) && cat[i].name == name;
        assert(level_placed(level, cat[i].name));
    }
}

/// At a level, a unit starts in a later wave than every unit it needs.
pub proof fn law_level_needs_come_first(
    cat: Seq<UnitInfoView>,
    enabled: Set<Seq<char>>,
    level: Seq<Seq<Seq<char>>>,
    a: int,
    b: int,
    wave_a: int,
    wave_b: int,
)
    requires
        names_distinct(cat),
        is_level_plan(cat, enabled, level),
        loaded(cat, enabled, a),
        0 <= b < cat.len(),
        cat[a].dependencies.needs.contains(cat[b].name),
        sits(cat, level, wave_a, a),
        sits(cat, level, wave_b, b),
    ensures
        loaded(cat, enabled, b),
        wave_b < wave_a,
{
    lemma_loaded_in_range(cat, enabled, a);
    assert(pulls(cat, a, cat[b].name));
    lemma_extend_chain(cat, enabled, a, b);
    let needs = cat[a].dependencies.needs;
    let k = choose|k: int| 0 <= k < needs.len() && needs[k] == cat[b].name;
    lemma_denotes_distinct(cat, cat[b].name, b);
    assert(denotes(cat, needs[k], b));
    assert(points_at(cat, needs, b));
    assert(waits_for(cat, a, b));
    assert(level_waits(cat, enabled, a, b));
    let k2 = choose|k2: int| 0 <= k2 < wave_a && #[trigger] sits(cat, level, k2, b);
    let p = choose|p: int| 0 <= p < level[wave_b].len() && #[trigger] level[wave_b][p] == cat[b].name;
    let p2 = choose|p2: int| 0 <= p2 < level[k2].len() && #[trigger] level[k2][p2] == cat[b].name;
    assert(level[wave_b][p] == level[k2][p2]);
}

proof fn lemma_want_pulls(
    cat: Seq<UnitInfoView>,
    with: Seq<UnitInfoView>,
    i: int,
    want: Seq<char>,
    j: int,
    name: Seq<char>,
)
    requires
        adds_want(cat, with, i, want),
        !known(cat, want),
    ensures
        pulls(with, j, name) == pulls(cat, j, name),
{
    lemma_same_names(cat, with);
    if 0 <= j < cat.len() {
        if j != i {
            assert(with[j] == cat[j]);
        } else {
            let old_wants = cat[i].dependencies.wants;
            let new_wants = with[i].dependencies.wants;
            if new_wants.contains(name) && name != want {
                let k = choose|k: int| 0 <= k < new_wants.len() && new_wants[k] == name;
                assert(old_wants[k] == name);
            }
            if old_wants.contains(name) {
                let k = choose|k: int| 0 <= k < old_wants.len() && old_wants[k] == name;
                assert(new_wants[k] == name);
            }
        }
    }
}

proof fn lemma_want_chain(
    cat: Seq<UnitInfoView>,
    with: Seq<UnitInfoView>,
    i: int,
    want: Seq<char>,
    enabled: Set<Seq<char>>,
    path: Seq<int>,
)
    requires
        adds_want(cat, with, i, want),
        !known(cat, want),
    ensures
        is_chain(with, enabled, path) == is_chain(cat, enabled, path),
{
    assert forall|k: int| 0 <= k < cat.len() implies (#[trigger] with[k]).name == cat[k].name by {
        if k != i {
            assert(with[k] == cat[k]);
        }
    }
    if is_chain(with, enabled, path) {
        assert(with[path[0]].name == cat[path[0]].name);
        assert forall|t: int| 0 <= t < path.len() - 1 implies #[trigger] chain_link(
            cat,
            path,
            t,
        ) by {
            assert(chain_link(with, path, t));
            assert(0 <= path[t + 1] < cat.len());
            assert(with[path[t + 1]].name == cat[path[t + 1]].name);
            lemma_want_pulls(cat, with, i, want, path[t], cat[path[t + 1]].name);
        }
    }
    if is_chain(cat, enabled, path) {
        assert(with[path[0]].name == cat[path[0]].name);
        assert forall|t: int| 0 <= t < path.len() - 1 implies #[trigger] chain_link(
            with,
            path,
            t,
        ) by {
            assert(chain_link(cat, path, t));
            assert(0 <= path[t + 1] < cat.len());
            assert(with[path[t + 1]].name == cat[path[t + 1]].name);
            lemma_want_pulls(cat, with, i, want, path[t], cat[path[t + 1]].name);
        }
    }
}

proof fn lemma_want_loaded(
    cat: Seq<UnitInfoView>,
    with: Seq<UnitInfoView>,
    i: int,
    want: Seq<char>,
    enabled: Set<Seq<char>>,
    j: int,
)
    requires
        adds_want(cat, with, i, want),
        !known(cat, want),
    ensures
        loaded(with, enabled, j) == loaded(cat, enabled, j),
{
    if loaded(with, enabled, j) {
        let path = choose|path: Seq<int>| #[trigger] is_chain(with, enabled, path) && path.last() == j;
        lemma_want_chain(cat, with, i, want, enabled, path);
        assert(is_chain(cat, enabled, path) && path.last() == j);
    }
    if loaded(cat, enabled, j) {
        let path = choose|path: Seq<int>| #[trigger] is_chain(cat, enabled, path) && path.last() == j;
        lemma_want_chain(cat, with, i, want, enabled, path);
        assert(is_chain(with, enabled, path) && path.last() == j);
    }
}

proof fn lemma_want_lacking(
    cat: Seq<UnitInfoView>,
    with: Seq<UnitInfoView>,
    i: int,
    want: Seq<char>,
    enabled: Set<Seq<char>>,
    name: Seq<char>,
)
    requires
        adds_want(cat, with, i, want),
        !known(cat, want),
    ensures
        lacking(with, enabled, name) ==> lacking(cat, enabled, name),
        lacking(cat, enabled, name) ==> lacking(with, enabled, name),
{
    lemma_same_names(cat, with);
    if lacking(with, enabled, name) {
        let j = choose|j: int| #[trigger]
            loaded(with, enabled, j) && with[j].dependencies.needs.contains(name);
        lemma_want_loaded(cat, with, i, want, enabled, j);
        lemma_loaded_in_range(cat, enabled, j);
        if j != i {
            assert(with[j] == cat[j]);
        }
        assert(loaded(cat, enabled, j) && cat[j].dependencies.needs.contains(name));
    }
    if lacking(cat, enabled, name) {
        let j = choose|j: int| #[trigger]
            loaded(cat, enabled, j) && cat[j].dependencies.needs.contains(name);
        lemma_want_loaded(cat, with, i, want, enabled, j);
        lemma_loaded_in_range(cat, enabled, j);
        if j != i {
            assert(with[j] == cat[j]);
        }
        assert(loaded(with, enabled, j) && with[j].dependencies.needs.contains(name));
    }
}

/// The plan of a level goes over from one catalogue to another where the
/// two bear the same names and load and order their units alike.
proof fn lemma_level_plan_transfers(
    cat: Seq<UnitInfoView>,
    with: Seq<UnitInfoView>,
    enabled: Set<Seq<char>>,
    level: Seq<Seq<Seq<char>>>,
)
    requires
        with.len() == cat.len(),
        forall|k: int| 0 <= k < cat.len() ==> (#[trigger] with[k]).name == cat[k].name,
        forall|j: int| #[trigger] loaded(with, enabled, j) == loaded(cat, enabled, j),
        forall|a: int, b: int| #[trigger] waits_for(with, a, b) == waits_for(cat, a, b),
        is_level_plan(cat, enabled, level),
    ensures
        is_level_plan(with, enabled, level),
{
    assert forall|k: int, a: int| #[trigger] sits(with, level, k, a) == sits(cat, level, k, a) by {
        if 0 <= a < cat.len() {
            assert(with[a].name == cat[a].name);
        }
    }
    assert forall|a: int, b: int| #[trigger]
        level_waits(with, enabled, a, b) == level_waits(cat, enabled, a, b) by {
        assert(loaded(with, enabled, a) == loaded(cat, enabled, a));
        assert(loaded(with, enabled, b) == loaded(cat, enabled, b));
        assert(waits_for(with, a, b) == waits_for(cat, a, b));
    }
    assert forall|j: int| #[trigger] loaded(with, enabled, j) implies level_placed(
        level,
        with[j].name,
    ) by {
        assert(loaded(cat, enabled, j));
        lemma_loaded_in_range(cat, enabled, j);
        assert(with[j].name == cat[j].name);
    }
    assert forall|k: int, p: int| 0 <= k < level.len() && 0 <= p < level[k].len() implies loaded_name(
        with,
        enabled,
        #[trigger] level[k][p],
    ) by {
        assert(loaded_name(cat, enabled, level[k][p]));
        let j = choose|j: int| #[trigger] loaded(cat, enabled, j) && cat[j].name == level[k][p];
        lemma_loaded_in_range(cat, enabled, j);
        assert(loaded(with, enabled, j) && with[j].name == level[k][p]);
    }
    assert forall|k: int, a: int, b: int| #[trigger]
        sits(with, level, k, a) && #[trigger] level_waits(with, enabled, a, b) implies exists|
        k2: int,
    | 0 <= k2 < k && #[trigger] sits(with, level, k2, b) by {
        assert(sits(cat, level, k, a) && level_waits(cat, enabled, a, b));
        let k2 = choose|k2: int| 0 <= k2 < k && #[trigger] sits(cat, level, k2, b);
        assert(sits(with, level, k2, b));
    }
    assert forall|k: int, a: int| #[trigger]
        sits_later(with, enabled, level, k, a) implies exists|b: int|
        #[trigger] level_waits(with, enabled, a, b) && sits(with, level, k - 1, b) by {
        assert(sits(cat, level, k, a));
        assert(loaded(cat, enabled, a));
        assert(sits_later(cat, enabled, level, k, a));
        let b = choose|b: int|
            #[trigger] level_waits(cat, enabled, a, b) && sits(cat, level, k - 1, b);
        assert(level_waits(with, enabled, a, b) && sits(with, level, k - 1, b));
    }
}

proof fn lemma_level_knot_transfers(
    cat: Seq<UnitInfoView>,
    with: Seq<UnitInfoView>,
    enabled: Set<Seq<char>>,
    s: Set<int>,
)
    requires
        forall|j: int| #[trigger] loaded(with, enabled, j) == loaded(cat, enabled, j),
        forall|a: int, b: int| #[trigger] waits_for(with, a, b) == waits_for(cat, a, b),
        is_level_knot(cat, enabled, s),
    ensures
        is_level_knot(with, enabled, s),
{
    assert forall|a: int| s.contains(a) implies #[trigger] level_held_up(with, enabled, s, a) by {
        assert(level_held_up(cat, enabled, s, a));
        let b = choose|b: int| s.contains(b) && #[trigger] level_waits(cat, enabled, a, b);
        assert(loaded(with, enabled, a) == loaded(cat, enabled, a));
        assert(loaded(with, enabled, b) == loaded(cat, enabled, b));
        assert(waits_for(with, a, b) == waits_for(cat, a, b));
        assert(s.contains(b) && level_waits(with, enabled, a, b));
    }
}

/// A want that names no known unit changes nothing about a level: the same
/// units are loaded, no need goes lacking through it, and the level has
/// the same plans, or none, as without it.
pub proof fn law_absent_want_leaves_level(
    cat: Seq<UnitInfoView>,
    with: Seq<UnitInfoView>,
    i: int,
    want: Seq<char>,
    enabled: Set<Seq<char>>,
)
    requires
        adds_want(cat, with, i, want),
        !known(cat, want),
    ensures
        forall|j: int| #[trigger] loaded(with, enabled, j) == loaded(cat, enabled, j),
        has_lacking(with, enabled) == has_lacking(cat, enabled),
        level_is_cyclic(with, enabled) == level_is_cyclic(cat, enabled),
        forall|level: Seq<Seq<Seq<char>>>| #[trigger]
            is_level_plan(with, enabled, level) == is_level_plan(cat, enabled, level),
{
    assert forall|j: int| #[trigger] loaded(with, enabled, j) == loaded(cat, enabled, j) by {
        lemma_want_loaded(cat, with, i, want, enabled, j);
    }
    assert(has_lacking(with, enabled) == has_lacking(cat, enabled)) by {
        if has_lacking(with, enabled) {
            let name = choose|name: Seq<char>| lacking(with, enabled, name);
            lemma_want_lacking(cat, with, i, want, enabled, name);
        }
        if has_lacking(cat, enabled) {
            let name = choose|name: Seq<char>| lacking(cat, enabled, name);
            lemma_want_lacking(cat, with, i, want, enabled, name);
        }
    }
    law_absent_want_is_ignored(cat, with, i, want);
    assert forall|k: int| 0 <= k < cat.len() implies (#[trigger] with[k]).name == cat[k].name by {
        if k != i {
            assert(with[k] == cat[k]);
        }
    }
    assert(level_is_cyclic(with, enabled) == level_is_cyclic(cat, enabled)) by {
        if level_is_cyclic(with, enabled) {
            let s = choose|s: Set<int>| is_level_knot(with, enabled, s);
            lemma_level_knot_transfers(with, cat, enabled, s);
        }
        if level_is_cyclic(cat, enabled) {
            let s = choose|s: Set<int>| is_level_knot(cat, enabled, s);
            lemma_level_knot_transfers(cat, with, enabled, s);
        }
    }
    assert forall|level: Seq<Seq<Seq<char>>>| #[trigger]
        is_level_plan(with, enabled, level) == is_level_plan(cat, enabled, level) by {
        if is_level_plan(cat, enabled, level) {
            lemma_level_plan_transfers(cat, with, enabled, level);
        }
        if is_level_plan(with, enabled, level) {
            lemma_level_plan_transfers(with, cat, enabled, level);
        }
    }
}

} // verus!
