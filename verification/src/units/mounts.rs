use crate::error::{Error, ErrorKind, ErrorView, Failure, FailureView};
use crate::supervisor::{pair_split, split_variable};
use crate::text::{
    contains_text, holds, lines_of, parse_decimal, parsed, pieces, split_at_char, split_lines,
    split_words, words,
};
use vstd::prelude::*;
use vstd::string::*;

verus! {

/// Whether a file system is mounted or mounted anew.
#[derive(Debug, Clone, Copy, PartialEq, Eq, Structural)]
pub enum MountAction {
    Mount,
    Remount,
}

/// An option of a mount: its name, and its value where it has one.
pub type MountOption = (String, Option<String>);

/// A line of a table of file systems.
#[derive(Debug)]
pub struct MountEntry {
    pub fs_spec: String,
    pub fs_file: String,
    pub fs_vfstype: String,
    /// The options, each name once.
    pub fs_mntopts: Vec<MountOption>,
    pub fs_freq: u8,
    pub fs_passno: u8,
}

/// The mathematical content of a [`MountEntry`].
pub ghost struct MountEntryView {
    pub fs_spec: Seq<char>,
    pub fs_file: Seq<char>,
    pub fs_vfstype: Seq<char>,
    pub fs_mntopts: Seq<(Seq<char>, Option<Seq<char>>)>,
    pub fs_freq: u8,
    pub fs_passno: u8,
}

/// Options as mathematical values.
pub open spec fn options_view(opts: Seq<MountOption>) -> Seq<(Seq<char>, Option<Seq<char>>)> {
    Seq::new(opts.len(), |i: int| (opts[i].0@, opts[i].1.deep_view()))
}

impl View for MountEntry {
    type V = MountEntryView;

    open spec fn view(&self) -> MountEntryView {
        MountEntryView {
            fs_spec: self.fs_spec@,
            fs_file: self.fs_file@,
            fs_vfstype: self.fs_vfstype@,
            fs_mntopts: options_view(self.fs_mntopts@),
            fs_freq: self.fs_freq,
            fs_passno: self.fs_passno,
        }
    }
}

impl DeepView for MountEntry {
    type V = MountEntryView;

    open spec fn deep_view(&self) -> MountEntryView {
        self@
    }
}

/// The option that a piece of a list of options stands for: what comes
/// before its first `=` is its name, what comes after is its value.
pub open spec fn option_of(piece: Seq<char>) -> (Seq<char>, Option<Seq<char>>) {
    match pair_split(piece) {
        Some((name, value)) => (name, Some(value)),
        None => (piece, None),
    }
}

/// Where the first of `opts` that is called `name` stands; their number
/// where none is called so.
pub open spec fn name_index(opts: Seq<(Seq<char>, Option<Seq<char>>)>, name: Seq<char>) -> int
    decreases opts.len(),
{
    if opts.len() == 0 || opts[0].0 == name {
        0
    } else {
        1 + name_index(opts.subrange(1, opts.len() as int), name)
    }
}

/// The options with `opt` set: in place of the first option of its name,
/// or at the end where there is none.
pub open spec fn with_option(
    opts: Seq<(Seq<char>, Option<Seq<char>>)>,
    opt: (Seq<char>, Option<Seq<char>>),
) -> Seq<(Seq<char>, Option<Seq<char>>)> {
    let at = name_index(opts, opt.0);
    if at < opts.len() {
        opts.update(at, opt)
    } else {
        opts.push(opt)
    }
}

/// The options that `pieces` stand for, each name once, with the value it
/// was given last.
pub open spec fn options_of(pieces: Seq<Seq<char>>) -> Seq<(Seq<char>, Option<Seq<char>>)>
    decreases pieces.len(),
{
    if pieces.len() == 0 {
        Seq::empty()
    } else {
        with_option(options_of(pieces.drop_last()), option_of(pieces.last()))
    }
}

proof fn lemma_name_found(opts: Seq<(Seq<char>, Option<Seq<char>>)>, name: Seq<char>, at: int)
    requires
        0 <= at <= opts.len(),
        forall|k: int| 0 <= k < at ==> (#[trigger] opts[k]).0 != name,
        at < opts.len() ==> opts[at].0 == name,
    ensures
        name_index(opts, name) == at,
    decreases opts.len(),
{
    if opts.len() == 0 || opts[0].0 == name {
        if at > 0 {
            assert(opts[0].0 != name);
        }
    } else {
        let rest = opts.subrange(1, opts.len() as int);
        assert forall|k: int| 0 <= k < at - 1 implies (#[trigger] rest[k]).0 != name by {
            assert(rest[k] == opts[k + 1]);
        }
        if at < opts.len() {
            assert(rest[at - 1] == opts[at]);
        }
        lemma_name_found(rest, name, at - 1);
    }
}

fn set_option(opts: &mut Vec<MountOption>, opt: MountOption)
    ensures
        options_view(final(opts)@) == with_option(
            options_view(old(opts)@),
            (opt.0@, opt.1.deep_view()),
        ),
{
    let ghost before = options_view(opts@);
    let ghost added = (opt.0@, opt.1.deep_view());
    let mut j: usize = 0;
    while j < opts.len()
        invariant
            j <= opts.len(),
            opts@ == old(opts)@,
            before == options_view(opts@),
            added == (opt.0@, opt.1.deep_view()),
            forall|k: int| 0 <= k < j ==> (#[trigger] before[k]).0 != added.0,
        decreases opts.len() - j,
    {
        assert(before[j as int].0 == opts[j as int].0@);
        if opts[j].0 == opt.0 {
            proof {
                lemma_name_found(before, added.0, j as int);
            }
            opts.remove(j);
            opts.insert(j, opt);
            assert(options_view(opts@) =~= before.update(j as int, added));
            return;
        }
        j += 1;
    }
    proof {
        lemma_name_found(before, added.0, before.len() as int);
    }
    opts.push(opt);
    assert(options_view(opts@) =~= before.push(added));
}

/// Reads a list of options parted by commas.
pub fn parse_options(text: &str) -> (opts: Vec<MountOption>)
    ensures
        options_view(opts@) == options_of(pieces(text@, ',')),
{
    let parts = split_at_char(text, ',');
    let ghost list = parts.deep_view();
    let mut opts: Vec<MountOption> = Vec::new();
    let mut i: usize = 0;
    assert(list.subrange(0, 0) =~= Seq::<Seq<char>>::empty());
    assert(options_view(opts@) =~= options_of(list.subrange(0, 0)));
    while i < parts.len()
        invariant
            i <= parts.len(),
            list == parts.deep_view(),
            options_view(opts@) == options_of(list.subrange(0, i as int)),
        decreases parts.len() - i,
    {
        proof {
            let longer = list.subrange(0, i + 1);
            assert(longer.drop_last() =~= list.subrange(0, i as int));
            assert(longer.last() == parts[i as int]@);
        }
        let opt = match split_variable(parts[i].as_str()) {
            Some((name, value)) => (name, Some(value)),
            None => (parts[i].clone(), None),
        };
        set_option(&mut opts, opt);
        i += 1;
    }
    assert(list.subrange(0, parts.len() as int) =~= list);
    opts
}

/// The entry, or the error, as a mathematical value.
pub open spec fn entry_outcome(res: Result<MountEntry, Error>) -> Result<MountEntryView, ErrorView> {
    match res {
        Ok(entry) => Ok(entry@),
        Err(e) => Err(e@),
    }
}

/// What the words of a line of a table of file systems make: an entry of
/// the first six words, or the error for the first word that is lacking or
/// no number.
pub open spec fn entry_of(parts: Seq<Seq<char>>) -> Result<MountEntryView, ErrorView> {
    if parts.len() < 1 {
        Err(ErrorView::absent("expected `fs_spec`"@))
    } else if parts.len() < 2 {
        Err(ErrorView::absent("expected `fs_file`"@))
    } else if parts.len() < 3 {
        Err(ErrorView::absent("expected `fs_vfstype`"@))
    } else if parts.len() < 4 {
        Err(ErrorView::absent("expected `fs_mntopts`"@))
    } else if parts.len() < 5 {
        Err(ErrorView::absent("expected `fs_freq`"@))
    } else if parsed(parts[4], 255) is None {
        Err(ErrorView::during("failed to parse `fs_freq`"@, FailureView::InvalidNumber))
    } else if parts.len() < 6 {
        Err(ErrorView::absent("expected `fs_passno`"@))
    } else if parsed(parts[5], 255) is None {
        Err(ErrorView::during("failed to parse `fs_passno`"@, FailureView::InvalidNumber))
    } else {
        Ok(
            MountEntryView {
                fs_spec: parts[0],
                fs_file: parts[1],
                fs_vfstype: parts[2],
                fs_mntopts: options_of(pieces(parts[3], ',')),
                fs_freq: parsed(parts[4], 255)->Some_0 as u8,
                fs_passno: parsed(parts[5], 255)->Some_0 as u8,
            },
        )
    }
}

fn lacking_part(what: &str) -> (res: Error)
    ensures
        res@ == ErrorView::absent(what@),
{
    Error::new(ErrorKind::Unrecoverable, Some(String::from_str(what)), Failure::Absent)
}

fn bad_number(what: &str) -> (res: Error)
    ensures
        res@ == ErrorView::during(what@, FailureView::InvalidNumber),
{
    Error::new(ErrorKind::Unrecoverable, Some(String::from_str(what)), Failure::InvalidNumber)
}

/// Makes an entry of the words of a line.
pub fn entry_from_parts(parts: &Vec<String>) -> (res: Result<MountEntry, Error>)
    ensures
        entry_outcome(res) == entry_of(parts.deep_view()),
{
    if parts.len() < 1 {
        return Err(lacking_part("expected `fs_spec`"));
    }
    if parts.len() < 2 {
        return Err(lacking_part("expected `fs_file`"));
    }
    if parts.len() < 3 {
        return Err(lacking_part("expected `fs_vfstype`"));
    }
    if parts.len() < 4 {
        return Err(lacking_part("expected `fs_mntopts`"));
    }
    assert(parts.deep_view()[3] == parts[3]@);
    let fs_mntopts = parse_options(parts[3].as_str());
    if parts.len() < 5 {
        return Err(lacking_part("expected `fs_freq`"));
    }
    assert(parts.deep_view()[4] == parts[4]@);
    let fs_freq = match parse_decimal(parts[4].as_str(), 255) {
        Some(n) => n as u8,
        None => {
            return Err(bad_number("failed to parse `fs_freq`"));
        },
    };
    if parts.len() < 6 {
        return Err(lacking_part("expected `fs_passno`"));
    }
    assert(parts.deep_view()[5] == parts[5]@);
    let fs_passno = match parse_decimal(parts[5].as_str(), 255) {
        Some(n) => n as u8,
        None => {
            return Err(bad_number("failed to parse `fs_passno`"));
        },
    };
    assert(parts.deep_view()[0] == parts[0]@);
    assert(parts.deep_view()[1] == parts[1]@);
    assert(parts.deep_view()[2] == parts[2]@);
    Ok(
        MountEntry {
            fs_spec: parts[0].clone(),
            fs_file: parts[1].clone(),
            fs_vfstype: parts[2].clone(),
            fs_mntopts,
            fs_freq,
            fs_passno,
        },
    )
}

/// Whether a line of a table is a remark or empty, and so holds no entry.
pub open spec fn is_remark(line: Seq<char>) -> bool {
    line.len() == 0 || line[0] == '#'
}

/// What the lines of a table of file systems make: the entries of the
/// lines that are neither remarks nor empty, or the error of the first
/// such line that makes no entry.
pub open spec fn entries_of(lines: Seq<Seq<char>>) -> Result<Seq<MountEntryView>, ErrorView>
    decreases lines.len(),
{
    if lines.len() == 0 {
        Ok(Seq::empty())
    } else {
        match entries_of(lines.drop_last()) {
            Err(e) => Err(e),
            Ok(entries) => if is_remark(lines.last()) {
                Ok(entries)
            } else {
                match entry_of(words(lines.last())) {
                    Ok(entry) => Ok(entries.push(entry)),
                    Err(e) => Err(e),
                }
            },
        }
    }
}

/// The entries, or the error, as a mathematical value.
pub open spec fn entries_outcome(res: Result<Vec<MountEntry>, Error>) -> Result<
    Seq<MountEntryView>,
    ErrorView,
> {
    match res {
        Ok(entries) => Ok(entries.deep_view()),
        Err(e) => Err(e@),
    }
}

impl MountEntry {
    /// Reads one line of a table of file systems.
    pub fn parse_single_mount(line: &str) -> (res: Result<Self, Error>)
        ensures
            entry_outcome(res) == entry_of(words(line@)),
    {
        let parts = split_words(line);
        entry_from_parts(&parts)
    }

    /// The arguments with which `mount` is run for this entry.
    pub fn mount(&self, action: MountAction) -> (res: Vec<String>)
        ensures
            res.deep_view() == seq![
                "-o"@,
                mount_options(self@.fs_mntopts, action),
                "-t"@,
                self@.fs_vfstype,
                self@.fs_spec,
                self@.fs_file,
            ],
    {
        let mut opts = String::new();
        let ghost list = options_view(self.fs_mntopts@);
        let mut i: usize = 0;
        assert(list.subrange(0, 0) =~= Seq::<(Seq<char>, Option<Seq<char>>)>::empty());
        while i < self.fs_mntopts.len()
            invariant
                i <= self.fs_mntopts.len(),
                list == options_view(self.fs_mntopts@),
                opts@ == joined(list.subrange(0, i as int)),
            decreases self.fs_mntopts.len() - i,
        {
            proof {
                let longer = list.subrange(0, i + 1);
                assert(longer.drop_last() =~= list.subrange(0, i as int));
                assert(longer.last() == list[i as int]);
            }
            if i > 0 {
                opts.append(",");
            }
            opts.append(self.fs_mntopts[i].0.as_str());
            match &self.fs_mntopts[i].1 {
                Some(value) => {
                    opts.append("=");
                    opts.append(value.as_str());
                },
                None => {},
            }
            assert(opts@ =~= joined(list.subrange(0, i + 1)));
            i += 1;
        }
        assert(list.subrange(0, self.fs_mntopts.len() as int) =~= list);
        match action {
            MountAction::Remount => {
                if opts.as_str().unicode_len() == 0 {
                    opts.append("remount");
                    assert(opts@ =~= "remount"@);
                } else {
                    opts.append(",remount");
                }
            },
            MountAction::Mount => {},
        }
        let mut res: Vec<String> = Vec::new();
        res.push(String::from_str("-o"));
        res.push(opts);
        res.push(String::from_str("-t"));
        res.push(self.fs_vfstype.clone());
        res.push(self.fs_spec.clone());
        res.push(self.fs_file.clone());
        assert(res.deep_view() =~= seq![
            "-o"@,
            mount_options(self@.fs_mntopts, action),
            "-t"@,
            self@.fs_vfstype,
            self@.fs_spec,
            self@.fs_file,
        ]);
        res
    }
}

/// An option as it is written: its name, and `=` and its value where it
/// has one.
pub open spec fn option_text(opt: (Seq<char>, Option<Seq<char>>)) -> Seq<char> {
    match opt.1 {
        Some(value) => opt.0 + "="@ + value,
        None => opt.0,
    }
}

/// Options as they are written, with commas between them.
pub open spec fn joined(opts: Seq<(Seq<char>, Option<Seq<char>>)>) -> Seq<char>
    decreases opts.len(),
{
    if opts.len() == 0 {
        Seq::empty()
    } else if opts.len() == 1 {
        option_text(opts.last())
    } else {
        joined(opts.drop_last()) + ","@ + option_text(opts.last())
    }
}

/// The options that `mount` is given: those of the entry, and `remount`
/// after them where the file system is mounted anew.
pub open spec fn mount_options(
    opts: Seq<(Seq<char>, Option<Seq<char>>)>,
    action: MountAction,
) -> Seq<char> {
    match action {
        MountAction::Mount => joined(opts),
        MountAction::Remount => if joined(opts).len() == 0 {
            "remount"@
        } else {
            joined(opts) + ",remount"@
        },
    }
}

/// Reads the entries of a list of lines.
pub fn entries_from_lines(lines: &Vec<String>) -> (res: Result<Vec<MountEntry>, Error>)
    ensures
        entries_outcome(res) == entries_of(lines.deep_view()),
{
    let ghost list = lines.deep_view();
    let mut found: Vec<MountEntry> = Vec::new();
    let mut i: usize = 0;
    assert(list.subrange(0, 0) =~= Seq::<Seq<char>>::empty());
    assert(found.deep_view() =~= Seq::<MountEntryView>::empty());
    while i < lines.len()
        invariant
            i <= lines.len(),
            list == lines.deep_view(),
            entries_of(list.subrange(0, i as int)) == Ok::<Seq<MountEntryView>, ErrorView>(
                found.deep_view(),
            ),
        decreases lines.len() - i,
    {
        let ghost before = found.deep_view();
        let ghost longer = list.subrange(0, i + 1);
        proof {
            assert(longer.drop_last() =~= list.subrange(0, i as int));
            assert(longer.last() == lines[i as int]@);
        }
        let line = lines[i].as_str();
        let remark = line.unicode_len() == 0 || line.get_char(0) == '#';
        if !remark {
            match MountEntry::parse_single_mount(line) {
                Ok(entry) => {
                    found.push(entry);
                    assert(found.deep_view() =~= before.push(entry@));
                },
                Err(e) => {
                    proof {
                        assert(entries_of(longer) == Err::<Seq<MountEntryView>, ErrorView>(e@));
                        lemma_error_stays(list, i + 1, e@);
                    }
                    return Err(e);
                },
            }
        }
        i += 1;
    }
    assert(list.subrange(0, lines.len() as int) =~= list);
    Ok(found)
}

proof fn lemma_error_stays(lines: Seq<Seq<char>>, upto: int, e: ErrorView)
    requires
        0 <= upto <= lines.len(),
        entries_of(lines.subrange(0, upto)) == Err::<Seq<MountEntryView>, ErrorView>(e),
    ensures
        entries_of(lines) == Err::<Seq<MountEntryView>, ErrorView>(e),
    decreases lines.len() - upto,
{
    if upto == lines.len() {
        assert(lines.subrange(0, upto) =~= lines);
    } else {
        let longer = lines.subrange(0, upto + 1);
        assert(longer.drop_last() =~= lines.subrange(0, upto));
        lemma_error_stays(lines, upto + 1, e);
    }
}

/// Reads a table of file systems.
pub fn parse_mounts(lines: &str) -> (res: Result<Vec<MountEntry>, Error>)
    ensures
        entries_outcome(res) == entries_of(lines_of(lines@)),
{
    let list = split_lines(lines);
    entries_from_lines(&list)
}

/// Whether the kernel knows the file system `fs`: whether the list of its
/// file systems holds a tab and then `fs`.
pub fn is_fs_available(filesystems: &str, fs: &str) -> (res: bool)
    ensures
        res == holds(filesystems@, "\t"@ + fs@),
{
    let wanted = String::from_str("\t").concat(fs);
    contains_text(filesystems, wanted.as_str())
}

/// An entry among `entries` is mounted at `path`.
pub open spec fn mounted_at(entries: Seq<MountEntryView>, path: Seq<char>) -> bool {
    exists|i: int| 0 <= i < entries.len() && (#[trigger] entries[i]).fs_file == path
}

/// Finds the first entry that is mounted at `path`.
pub fn find_mount(entries: &Vec<MountEntry>, path: &str) -> (res: Option<usize>)
    ensures
        match res {
            Some(i) => i < entries.len() && entries[i as int].fs_file@ == path@ && forall|k: int|
                0 <= k < i ==> (#[trigger] entries[k]).fs_file@ != path@,
            None => !mounted_at(entries.deep_view(), path@),
        },
        res is Some <==> mounted_at(entries.deep_view(), path@),
{
    let wanted = String::from_str(path);
    let mut i: usize = 0;
    while i < entries.len()
        invariant
            i <= entries.len(),
            wanted@ == path@,
            forall|k: int| 0 <= k < i ==> (#[trigger] entries[k]).fs_file@ != path@,
        decreases entries.len() - i,
    {
        if entries[i].fs_file == wanted {
            assert(entries.deep_view()[i as int].fs_file == path@);
            return Some(i);
        }
        i += 1;
    }
    assert forall|k: int| 0 <= k < entries.len() implies (#[trigger] entries.deep_view()[k]).fs_file
        != path@ by {
        assert(entries[k].fs_file@ != path@);
    }
    None
}

/// Whether something is mounted at `path`, going by the table of what is
/// mounted.
pub fn is_fs_mounted(mounted: &str, path: &str) -> (res: Result<bool, Error>)
    ensures
        match entries_of(lines_of(mounted@)) {
            Ok(entries) => res == Ok::<bool, Error>(mounted_at(entries, path@)),
            Err(e) => res is Err && res->Err_0@ == e,
        },
{
    match parse_mounts(mounted) {
        Ok(entries) => Ok(find_mount(&entries, path).is_some()),
        Err(e) => Err(e),
    }
}

} // verus!
