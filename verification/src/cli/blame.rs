use crate::error::{Error, ErrorKind, ErrorView, Failure, FailureView};
use crate::text::{lines_of, parse_decimal, parsed, split_lines, split_words, words};
use vstd::prelude::*;
use vstd::string::*;

verus! {

/// How long something took at boot.
#[derive(Debug)]
pub struct BlameEntry {
    pub name: String,
    /// In microseconds.
    pub duration: u128,
    pub level: usize,
}

/// The mathematical content of a [`BlameEntry`].
pub ghost struct BlameEntryView {
    pub name: Seq<char>,
    pub duration: u128,
    pub level: usize,
}

impl View for BlameEntry {
    type V = BlameEntryView;

    open spec fn view(&self) -> BlameEntryView {
        BlameEntryView { name: self.name@, duration: self.duration, level: self.level }
    }
}

impl DeepView for BlameEntry {
    type V = BlameEntryView;

    open spec fn deep_view(&self) -> BlameEntryView {
        self@
    }
}

/// The entry that the words of a line make, or why they make none: a line
/// holds a name, a duration and a level, and may go on after them.
pub open spec fn entry_of(parts: Seq<Seq<char>>) -> Result<BlameEntryView, ErrorView> {
    if parts.len() < 1 {
        Err(ErrorView::absent("expected `name`"@))
    } else if parts.len() < 2 {
        Err(ErrorView::absent("expected `duration`"@))
    } else if parsed(parts[1], u128::MAX) is None {
        Err(ErrorView::during("failed to parse `duration`"@, FailureView::InvalidNumber))
    } else if parts.len() < 3 {
        Err(ErrorView::absent("expected `level`"@))
    } else if parsed(parts[2], usize::MAX as u128) is None {
        Err(ErrorView::during("failed to parse `level`"@, FailureView::InvalidNumber))
    } else {
        Ok(
            BlameEntryView {
                name: parts[0],
                duration: parsed(parts[1], u128::MAX)->Some_0,
                level: parsed(parts[2], usize::MAX as u128)->Some_0 as usize,
            },
        )
    }
}

/// The entry, or the error, as a mathematical value.
pub open spec fn entry_outcome(res: Result<BlameEntry, Error>) -> Result<BlameEntryView, ErrorView> {
    match res {
        Ok(entry) => Ok(entry@),
        Err(e) => Err(e@),
    }
}

fn lacking_part(what: &str) -> (res: Error)
    ensures
        res@ == ErrorView::absent(what@),
{
    Error::new(ErrorKind::Unrecoverable, Some(String::from_str(what)), Failure::Absent)
}

fn bad_number(what: &str) -> (res: Error)
    ensures
        res@ == ErrorView::during(what@, FailureView::InvalidNumber),
{
    Error::new(ErrorKind::Unrecoverable, Some(String::from_str(what)), Failure::InvalidNumber)
}

/// Makes an entry of the words of a line.
pub fn entry_from_parts(parts: &Vec<String>) -> (res: Result<BlameEntry, Error>)
    ensures
        entry_outcome(res) == entry_of(parts.deep_view()),
{
    if parts.len() < 1 {
        return Err(lacking_part("expected `name`"));
    }
    if parts.len() < 2 {
        return Err(lacking_part("expected `duration`"));
    }
    assert(parts.deep_view()[1] == parts[1]@);
    let duration = match parse_decimal(parts[1].as_str(), u128::MAX) {
        Some(n) => n,
        None => {
            return Err(bad_number("failed to parse `duration`"));
        },
    };
    if parts.len() < 3 {
        return Err(lacking_part("expected `level`"));
    }
    assert(parts.deep_view()[2] == parts[2]@);
    let level = match parse_decimal(parts[2].as_str(), usize::MAX as u128) {
        Some(n) => n as usize,
        None => {
            return Err(bad_number("failed to parse `level`"));
        },
    };
    assert(parts.deep_view()[0] == parts[0]@);
    Ok(BlameEntry { name: parts[0].clone(), duration, level })
}

impl BlameEntry {
    /// Reads one line of the record of timings.
    pub fn parse_single_entry(line: &str) -> (res: Result<Self, Error>)
        ensures
            entry_outcome(res) == entry_of(words(line@)),
    {
        let parts = split_words(line);
        entry_from_parts(&parts)
    }
}

/// The entries of the lines that make one, in the order of the lines.
pub open spec fn entries_of(lines: Seq<Seq<char>>) -> Seq<BlameEntryView>
    decreases lines.len(),
{
    if lines.len() == 0 {
        Seq::empty()
    } else {
        match entry_of(words(lines.last())) {
            Ok(entry) => entries_of(lines.drop_last()).push(entry),
            Err(_) => entries_of(lines.drop_last()),
        }
    }
}

/// Reads the entries of a list of lines; lines that make no entry are
/// passed over.
pub fn entries_from_lines(lines: &Vec<String>) -> (res: Vec<BlameEntry>)
    ensures
        res.deep_view() == entries_of(lines.deep_view()),
{
    let ghost list = lines.deep_view();
    let mut res: Vec<BlameEntry> = Vec::new();
    let mut i: usize = 0;
    assert(list.subrange(0, 0) =~= Seq::<Seq<char>>::empty());
    assert(res.deep_view() =~= entries_of(list.subrange(0, 0)));
    while i < lines.len()
        invariant
            i <= lines.len(),
            list == lines.deep_view(),
            res.deep_view() == entries_of(list.subrange(0, i as int)),
        decreases lines.len() - i,
    {
        let ghost before = res.deep_view();
        proof {
            let longer = list.subrange(0, i + 1);
            assert(longer.drop_last() =~= list.subrange(0, i as int));
            assert(longer.last() == lines[i as int]@);
        }
        match BlameEntry::parse_single_entry(lines[i].as_str()) {
            Ok(entry) => {
                res.push(entry);
                assert(res.deep_view() =~= before.push(entry@));
            },
            Err(_) => {},
        }
        i += 1;
    }
    assert(list.subrange(0, lines.len() as int) =~= list);
    res
}

/// Reads the record of timings.
pub fn parse_blame(lines: &str) -> (res: Vec<BlameEntry>)
    ensures
        res.deep_view() == entries_of(lines_of(lines@)),
{
    let list = split_lines(lines);
    entries_from_lines(&list)
}

} // verus!
