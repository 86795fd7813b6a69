use crate::text::{has_prefix, lines_of, prefixed, split_lines, trim_text, trimmed};
use crate::unit::{Dependencies, DependenciesView, Unit, UnitName};
use crate::units::mounts::{MountEntry, MountEntryView};
use vstd::prelude::*;
use vstd::string::*;

verus! {

/// Mounts the file system of processes.
#[derive(Debug, Clone, Copy)]
pub struct ProcFs;

impl Unit for ProcFs {
    open spec fn name_view(&self) -> Seq<char> {
        "procfs"@
    }

    open spec fn dependencies_view(&self) -> DependenciesView {
        DependenciesView::empty()
    }

    open spec fn description_view(&self) -> Option<Seq<char>> {
        None
    }

    fn name(&self) -> (res: UnitName) {
        String::from_str("procfs")
    }

    fn description(&self) -> (res: Option<String>) {
        None
    }

    fn dependencies(&self) -> (res: Dependencies) {
        Dependencies::new()
    }
}

/// Mounts the file system of the kernel objects.
#[derive(Debug, Clone, Copy)]
pub struct SysFs;

impl Unit for SysFs {
    open spec fn name_view(&self) -> Seq<char> {
        "sysfs"@
    }

    open spec fn dependencies_view(&self) -> DependenciesView {
        DependenciesView::empty().need("procfs"@)
    }

    open spec fn description_view(&self) -> Option<Seq<char>> {
        None
    }

    fn name(&self) -> (res: UnitName) {
        String::from_str("sysfs")
    }

    fn description(&self) -> (res: Option<String>) {
        None
    }

    fn dependencies(&self) -> (res: Dependencies) {
        let mut deps = Dependencies::new();
        deps.need(String::from_str("procfs"));
        deps
    }
}

/// Mounts the directory of run-time files.
#[derive(Debug, Clone, Copy)]
pub struct Run;

impl Unit for Run {
    open spec fn name_view(&self) -> Seq<char> {
        "run"@
    }

    open spec fn dependencies_view(&self) -> DependenciesView {
        DependenciesView::empty().need("procfs"@)
    }

    open spec fn description_view(&self) -> Option<Seq<char>> {
        None
    }

    fn name(&self) -> (res: UnitName) {
        String::from_str("run")
    }

    fn description(&self) -> (res: Option<String>) {
        None
    }

    fn dependencies(&self) -> (res: Dependencies) {
        let mut deps = Dependencies::new();
        deps.need(String::from_str("procfs"));
        deps
    }
}

/// Mounts and fills the directory of devices.
#[derive(Debug, Clone, Copy)]
pub struct DevFs;

impl Unit for DevFs {
    open spec fn name_view(&self) -> Seq<char> {
        "devfs"@
    }

    open spec fn dependencies_view(&self) -> DependenciesView {
        DependenciesView::empty().before("mdev"@)
    }

    open spec fn description_view(&self) -> Option<Seq<char>> {
        None
    }

    fn name(&self) -> (res: UnitName) {
        String::from_str("devfs")
    }

    fn description(&self) -> (res: Option<String>) {
        None
    }

    fn dependencies(&self) -> (res: Dependencies) {
        let mut deps = Dependencies::new();
        deps.before(String::from_str("mdev"));
        deps
    }
}

/// Sets the device manager up.
#[derive(Debug, Clone, Copy)]
pub struct MDev;

impl Unit for MDev {
    open spec fn name_view(&self) -> Seq<char> {
        "mdev"@
    }

    open spec fn dependencies_view(&self) -> DependenciesView {
        DependenciesView::empty().need("sysfs"@).need("devfs"@)
    }

    open spec fn description_view(&self) -> Option<Seq<char>> {
        None
    }

    fn name(&self) -> (res: UnitName) {
        String::from_str("mdev")
    }

    fn description(&self) -> (res: Option<String>) {
        None
    }

    fn dependencies(&self) -> (res: Dependencies) {
        let mut deps = Dependencies::new();
        deps.need(String::from_str("sysfs"));
        deps.need(String::from_str("devfs"));
        deps
    }
}

/// Loads the drivers of the hardware that is there.
#[derive(Debug, Clone, Copy)]
pub struct HwDrivers;

impl Unit for HwDrivers {
    open spec fn name_view(&self) -> Seq<char> {
        "hwdrivers"@
    }

    open spec fn dependencies_view(&self) -> DependenciesView {
        DependenciesView::empty().need("devfs"@).need("sysfs"@)
    }

    open spec fn description_view(&self) -> Option<Seq<char>> {
        None
    }

    fn name(&self) -> (res: UnitName) {
        String::from_str("hwdrivers")
    }

    fn description(&self) -> (res: Option<String>) {
        None
    }

    fn dependencies(&self) -> (res: Dependencies) {
        let mut deps = Dependencies::new();
        deps.need(String::from_str("devfs"));
        deps.need(String::from_str("sysfs"));
        deps
    }
}

/// Loads the kernel modules that are asked for.
#[derive(Debug, Clone, Copy)]
pub struct Modules;

impl Unit for Modules {
    open spec fn name_view(&self) -> Seq<char> {
        "modules"@
    }

    open spec fn dependencies_view(&self) -> DependenciesView {
        DependenciesView::empty()
    }

    open spec fn description_view(&self) -> Option<Seq<char>> {
        None
    }

    fn name(&self) -> (res: UnitName) {
        String::from_str("modules")
    }

    fn description(&self) -> (res: Option<String>) {
        None
    }

    fn dependencies(&self) -> (res: Dependencies) {
        Dependencies::new()
    }
}

/// Sets the time from the hardware clock.
#[derive(Debug, Clone, Copy)]
pub struct Clock;

impl Unit for Clock {
    open spec fn name_view(&self) -> Seq<char> {
        "clock"@
    }

    open spec fn dependencies_view(&self) -> DependenciesView {
        DependenciesView::empty().want("modules"@)
    }

    open spec fn description_view(&self) -> Option<Seq<char>> {
        None
    }

    fn name(&self) -> (res: UnitName) {
        String::from_str("clock")
    }

    fn description(&self) -> (res: Option<String>) {
        None
    }

    fn dependencies(&self) -> (res: Dependencies) {
        let mut deps = Dependencies::new();
        deps.want(String::from_str("modules"));
        deps
    }
}

/// Makes the root file system writable.
#[derive(Debug, Clone, Copy)]
pub struct RootFs;

impl Unit for RootFs {
    open spec fn name_view(&self) -> Seq<char> {
        "rootfs"@
    }

    open spec fn dependencies_view(&self) -> DependenciesView {
        DependenciesView::empty().after("clock"@)
    }

    open spec fn description_view(&self) -> Option<Seq<char>> {
        None
    }

    fn name(&self) -> (res: UnitName) {
        String::from_str("rootfs")
    }

    fn description(&self) -> (res: Option<String>) {
        None
    }

    fn dependencies(&self) -> (res: Dependencies) {
        let mut deps = Dependencies::new();
        deps.after(String::from_str("clock"));
        deps
    }
}

/// Switches swapping on.
#[derive(Debug, Clone, Copy)]
pub struct Swap;

impl Unit for Swap {
    open spec fn name_view(&self) -> Seq<char> {
        "swap"@
    }

    open spec fn dependencies_view(&self) -> DependenciesView {
        DependenciesView::empty().need("rootfs"@).after("clock"@).before("localmount"@)
    }

    open spec fn description_view(&self) -> Option<Seq<char>> {
        None
    }

    fn name(&self) -> (res: UnitName) {
        String::from_str("swap")
    }

    fn description(&self) -> (res: Option<String>) {
        None
    }

    fn dependencies(&self) -> (res: Dependencies) {
        let mut deps = Dependencies::new();
        deps.need(String::from_str("rootfs"));
        deps.after(String::from_str("clock"));
        deps.before(String::from_str("localmount"));
        deps
    }
}

/// Mounts the local file systems.
#[derive(Debug, Clone, Copy)]
pub struct LocalMount;

impl Unit for LocalMount {
    open spec fn name_view(&self) -> Seq<char> {
        "localmount"@
    }

    open spec fn dependencies_view(&self) -> DependenciesView {
        DependenciesView::empty().need("rootfs"@).after("clock"@).after("modules"@)
    }

    open spec fn description_view(&self) -> Option<Seq<char>> {
        None
    }

    fn name(&self) -> (res: UnitName) {
        String::from_str("localmount")
    }

    fn description(&self) -> (res: Option<String>) {
        None
    }

    fn dependencies(&self) -> (res: Dependencies) {
        let mut deps = Dependencies::new();
        deps.need(String::from_str("rootfs"));
        deps.after(String::from_str("clock"));
        deps.after(String::from_str("modules"));
        deps
    }
}

/// Seeds the random number generator.
#[derive(Debug, Clone, Copy)]
pub struct Seed;

impl Unit for Seed {
    open spec fn name_view(&self) -> Seq<char> {
        "seed"@
    }

    open spec fn dependencies_view(&self) -> DependenciesView {
        DependenciesView::empty().need("localmount"@).after("clock"@)
    }

    open spec fn description_view(&self) -> Option<Seq<char>> {
        None
    }

    fn name(&self) -> (res: UnitName) {
        String::from_str("seed")
    }

    fn description(&self) -> (res: Option<String>) {
        None
    }

    fn dependencies(&self) -> (res: Dependencies) {
        let mut deps = Dependencies::new();
        deps.need(String::from_str("localmount"));
        deps.after(String::from_str("clock"));
        deps
    }
}

/// Sets the name of the host.
#[derive(Debug, Clone, Copy)]
pub struct Hostname;

impl Unit for Hostname {
    open spec fn name_view(&self) -> Seq<char> {
        "hostname"@
    }

    open spec fn dependencies_view(&self) -> DependenciesView {
        DependenciesView::empty().after("clock"@)
    }

    open spec fn description_view(&self) -> Option<Seq<char>> {
        None
    }

    fn name(&self) -> (res: UnitName) {
        String::from_str("hostname")
    }

    fn description(&self) -> (res: Option<String>) {
        None
    }

    fn dependencies(&self) -> (res: Dependencies) {
        let mut deps = Dependencies::new();
        deps.after(String::from_str("clock"));
        deps
    }
}

/// Loads the kernel settings.
#[derive(Debug, Clone, Copy)]
pub struct Sysctl;

impl Unit for Sysctl {
    open spec fn name_view(&self) -> Seq<char> {
        "sysctl"@
    }

    open spec fn dependencies_view(&self) -> DependenciesView {
        DependenciesView::empty().after("clock"@)
    }

    open spec fn description_view(&self) -> Option<Seq<char>> {
        None
    }

    fn name(&self) -> (res: UnitName) {
        String::from_str("sysctl")
    }

    fn description(&self) -> (res: Option<String>) {
        None
    }

    fn dependencies(&self) -> (res: Dependencies) {
        let mut deps = Dependencies::new();
        deps.after(String::from_str("clock"));
        deps
    }
}

/// Whether a file of `/dev` is a hardware clock: `/dev/rtc` itself, or a
/// file whose name goes on with a digit after that.
pub open spec fn is_rtc(name: Seq<char>) -> bool {
    name == "/dev/rtc"@ || (prefixed(name, "/dev/rtc"@) && name.len() > 8 && 48 <= name[8] as u32 <= 57)
}

/// Tells whether a file of `/dev` is a hardware clock.
pub fn check_rtc(name: &str) -> (res: bool)
    ensures
        res == is_rtc(name@),
{
    proof {
        reveal_strlit("/dev/rtc");
    }
    if !has_prefix(name, "/dev/rtc") {
        assert(name@ != "/dev/rtc"@) by {
            if name@ == "/dev/rtc"@ {
                assert(name@.subrange(0, 8) =~= name@);
            }
        }
        return false;
    }
    let len = name.unicode_len();
    if len == 8 {
        assert(name@.subrange(0, 8) =~= name@);
        return true;
    }
    let code = name.get_char(8) as u32;
    code >= 48 && code <= 57
}

/// The kernel modules that are tried in turn for a hardware clock.
pub fn rtc_modules() -> (res: Vec<&'static str>)
    ensures
        res@ == seq!["rtc-cmos", "rtc", "genrtc"],
{
    let mut res: Vec<&'static str> = Vec::new();
    res.push("rtc-cmos");
    res.push("rtc");
    res.push("genrtc");
    assert(res@ =~= seq!["rtc-cmos", "rtc", "genrtc"]);
    res
}

/// Whether a line of a list of modules names a module: it is not empty
/// and begins with neither `#` nor `;`.
pub open spec fn names_module(line: Seq<char>) -> bool {
    line.len() > 0 && line[0] != '#' && line[0] != ';'
}

/// The lines among `lines` that name a module.
pub open spec fn modules_of(lines: Seq<Seq<char>>) -> Seq<Seq<char>>
    decreases lines.len(),
{
    if lines.len() == 0 {
        Seq::empty()
    } else if names_module(lines.last()) {
        modules_of(lines.drop_last()).push(lines.last())
    } else {
        modules_of(lines.drop_last())
    }
}

/// Picks the names of modules out of the lines of a list.
pub fn modules_from_lines(lines: &Vec<String>) -> (res: Vec<String>)
    ensures
        res.deep_view() == modules_of(lines.deep_view()),
{
    let ghost list = lines.deep_view();
    let mut res: Vec<String> = Vec::new();
    let mut i: usize = 0;
    assert(list.subrange(0, 0) =~= Seq::<Seq<char>>::empty());
    assert(res.deep_view() =~= modules_of(list.subrange(0, 0)));
    while i < lines.len()
        invariant
            i <= lines.len(),
            list == lines.deep_view(),
            res.deep_view() == modules_of(list.subrange(0, i as int)),
        decreases lines.len() - i,
    {
        let ghost before = res.deep_view();
        proof {
            let longer = list.subrange(0, i + 1);
            assert(longer.drop_last() =~= list.subrange(0, i as int));
            assert(longer.last() == lines[i as int]@);
        }
        let line = lines[i].as_str();
        if line.unicode_len() > 0 {
            let first = line.get_char(0);
            if first != '#' && first != ';' {
                res.push(lines[i].clone());
                assert(res.deep_view() =~= before.push(lines[i as int]@));
            }
        }
        i += 1;
    }
    assert(list.subrange(0, lines.len() as int) =~= list);
    res
}

impl Modules {
    /// The modules that a list of modules asks for.
    pub fn listed(contents: &str) -> (res: Vec<String>)
        ensures
            res.deep_view() == modules_of(lines_of(contents@)),
    {
        let lines = split_lines(contents);
        modules_from_lines(&lines)
    }
}

impl Hostname {
    /// The name the host is given: what the file of the name holds, or
    /// `homosexual` where there is no such file, without the white space
    /// around it.
    pub fn chosen(contents: Option<&str>) -> (res: String)
        ensures
            res@ == trimmed(
                match contents {
                    Some(text) => text@,
                    None => "homosexual"@,
                },
            ),
    {
        match contents {
            Some(text) => trim_text(text),
            None => trim_text("homosexual"),
        }
    }
}

impl LocalMount {
    /// Whether what is mounted at the place of `entry` is a loop device.
    pub fn is_loopback(entry: &MountEntry) -> (res: bool)
        ensures
            res == prefixed(entry@.fs_file, "/dev/loop"@),
    {
        has_prefix(entry.fs_file.as_str(), "/dev/loop")
    }

    /// Whether `entry` stays mounted when the local file systems are
    /// unmounted: the root, the file systems of the kernel and what lies
    /// in them, and whatever comes over the network.
    pub open spec fn stays(entry: MountEntryView) -> bool {
        let n = entry.fs_file;
        ||| n == "/"@
        ||| n == "/dev"@
        ||| n == "/sys"@
        ||| n == "/proc"@
        ||| n == "/run"@
        ||| prefixed(n, "/dev/"@)
        ||| prefixed(n, "/sys/"@)
        ||| prefixed(n, "/proc/"@)
        ||| exists|i: int| 0 <= i < entry.fs_mntopts.len() && (#[trigger] entry.fs_mntopts[i]).0 == "_netdev"@
    }

    /// Tells whether `entry` stays mounted when the local file systems are
    /// unmounted.
    pub fn is_kept(entry: &MountEntry) -> (res: bool)
        ensures
            res == Self::stays(entry@),
    {
        let n = &entry.fs_file;
        if *n == String::from_str("/") || *n == String::from_str("/dev") || *n == String::from_str(
            "/sys",
        ) || *n == String::from_str("/proc") || *n == String::from_str("/run") {
            return true;
        }
        if has_prefix(n.as_str(), "/dev/") || has_prefix(n.as_str(), "/sys/") || has_prefix(
            n.as_str(),
            "/proc/",
        ) {
            return true;
        }
        let netdev = String::from_str("_netdev");
        let mut i: usize = 0;
        while i < entry.fs_mntopts.len()
            invariant
                i <= entry.fs_mntopts.len(),
                netdev@ == "_netdev"@,
                forall|k: int| 0 <= k < i ==> (#[trigger] entry@.fs_mntopts[k]).0 != "_netdev"@,
            decreases entry.fs_mntopts.len() - i,
        {
            assert(entry@.fs_mntopts[i as int].0 == entry.fs_mntopts[i as int].0@);
            if entry.fs_mntopts[i].0 == netdev {
                return true;
            }
            i += 1;
        }
        false
    }
}

} // verus!
