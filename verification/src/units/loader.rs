use crate::names::NameSet;
use crate::text::{has_prefix, prefixed};
use crate::unit::{Unit, UnitInfo, UnitInfoView};
use crate::units::oneshot::{
    Clock, DevFs, Hostname, HwDrivers, LocalMount, MDev, Modules, ProcFs, RootFs, Run, Seed, Swap,
    SysFs,
};
use crate::units::services::{GeTTY, Syslog};
use vstd::prelude::*;
use vstd::string::*;

verus! {

/// What the resolver has to know of a unit, as a mathematical value.
pub open spec fn info_of<U: Unit>(unit: U) -> UnitInfoView {
    UnitInfoView { name: unit.name_view(), dependencies: unit.dependencies_view() }
}

/// The units that are built in, in the order in which they are listed.
pub open spec fn baked_infos() -> Seq<UnitInfoView> {
    seq![
        info_of(ProcFs),
        info_of(SysFs),
        info_of(Run),
        info_of(DevFs),
        info_of(MDev),
        info_of(HwDrivers),
        info_of(Modules),
        info_of(Clock),
        info_of(RootFs),
        info_of(Swap),
        info_of(LocalMount),
        info_of(Seed),
        info_of(Hostname),
        info_of(Syslog { pid: 0 }),
        UnitInfoView { name: "getty@"@ + "tty1"@, dependencies: crate::unit::DependenciesView::empty() },
        UnitInfoView { name: "getty@"@ + "ttyS0"@, dependencies: crate::unit::DependenciesView::empty() },
    ]
}

/// Lists the units that are built in.
pub fn baked_units() -> (res: Vec<UnitInfo>)
    ensures
        res.deep_view() == baked_infos(),
{
    let mut res: Vec<UnitInfo> = Vec::new();
    res.push(UnitInfo::new(&ProcFs));
    res.push(UnitInfo::new(&SysFs));
    res.push(UnitInfo::new(&Run));
    res.push(UnitInfo::new(&DevFs));
    res.push(UnitInfo::new(&MDev));
    res.push(UnitInfo::new(&HwDrivers));
    res.push(UnitInfo::new(&Modules));
    res.push(UnitInfo::new(&Clock));
    res.push(UnitInfo::new(&RootFs));
    res.push(UnitInfo::new(&Swap));
    res.push(UnitInfo::new(&LocalMount));
    res.push(UnitInfo::new(&Seed));
    res.push(UnitInfo::new(&Hostname));
    res.push(UnitInfo::new(&Syslog::new()));
    res.push(UnitInfo::new(&GeTTY::new("tty1", false)));
    res.push(UnitInfo::new(&GeTTY::new("ttyS0", true)));
    assert(res.deep_view() =~= baked_infos());
    res
}

/// The names of `units` that begin with `prefix`, or those that do not.
pub open spec fn chosen(units: Seq<UnitInfoView>, prefix: Seq<char>, with: bool) -> Set<Seq<char>> {
    Set::new(
        |name: Seq<char>|
            prefixed(name, prefix) == with && exists|i: int|
                0 <= i < units.len() && (#[trigger] units[i]).name == name,
    )
}

fn choose_names(units: &Vec<UnitInfo>, prefix: &str, with: bool) -> (res: NameSet)
    ensures
        res@ == chosen(units.deep_view(), prefix@, with),
{
    let ghost all = units.deep_view();
    let mut res = NameSet::new();
    let mut i: usize = 0;
    while i < units.len()
        invariant
            i <= units.len(),
            all == units.deep_view(),
            forall|name: Seq<char>|
                res@.contains(name) <==> prefixed(name, prefix@) == with && exists|k: int|
                    0 <= k < i && (#[trigger] all[k]).name == name,
        decreases units.len() - i,
    {
        let ghost before = res@;
        assert(all[i as int].name == units[i as int].name@);
        if has_prefix(units[i].name.as_str(), prefix) == with {
            res.insert(units[i].name.clone());
        }
        proof {
            assert forall|name: Seq<char>|
                res@.contains(name) <==> prefixed(name, prefix@) == with && exists|k: int|
                    0 <= k < i + 1 && (#[trigger] all[k]).name == name by {
                if before.contains(name) {
                    let k = choose|k: int| 0 <= k < i && (#[trigger] all[k]).name == name;
                    assert(0 <= k < i + 1 && all[k].name == name);
                }
                if name == all[i as int].name {
                }
            }
        }
        i += 1;
    }
    assert(res@ =~= chosen(all, prefix@, with));
    res
}

/// The units that are enabled where nothing else is said: at the first
/// level all that are built in but the login prompts, at the second the
/// login prompts.
pub fn default_levels() -> (res: Vec<NameSet>)
    ensures
        res.len() == 2,
        res[0]@ == chosen(baked_infos(), "getty"@, false),
        res[1]@ == chosen(baked_infos(), "getty"@, true),
{
    let units = baked_units();
    let mut res: Vec<NameSet> = Vec::new();
    res.push(choose_names(&units, "getty", false));
    res.push(choose_names(&units, "getty", true));
    res
}

} // verus!
