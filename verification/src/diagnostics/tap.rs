use crate::text::{decimal, repeat, repeated, to_decimal};
use vstd::prelude::*;
use vstd::string::*;

verus! {

/// The indentation of a line that is `level` subtests deep.
pub open spec fn indent(level: nat) -> Seq<char> {
    repeated("    "@, level)
}

/// A text, and after it ` - ` and a description where there is one.
pub open spec fn described(text: Seq<char>, desc: Option<Seq<char>>) -> Seq<char> {
    match desc {
        Some(d) => text + " - "@ + d,
        None => text,
    }
}

/// A text, and after it a blank and a description where there is one.
pub open spec fn followed(text: Seq<char>, desc: Option<Seq<char>>) -> Seq<char> {
    match desc {
        Some(d) => text + " "@ + d,
        None => text,
    }
}

/// A description as a mathematical value.
pub open spec fn desc_view(desc: Option<&str>) -> Option<Seq<char>> {
    match desc {
        Some(d) => Some(d@),
        None => None,
    }
}

fn leveled(level: usize, text: String) -> (res: String)
    ensures
        res@ == indent(level as nat) + text@,
{
    repeat("    ", level).concat(text.as_str())
}

/// The line that opens a report.
pub fn header() -> (res: String)
    ensures
        res@ == "TAP version 14"@,
{
    String::from_str("TAP version 14")
}

/// The line that opens a subtest; what follows is one level deeper.
pub fn enter_subtest(level: &mut usize, desc: Option<&str>) -> (res: String)
    ensures
        res@ == indent(*old(level) as nat) + match desc {
            Some(d) => "# Subtest: "@ + d@,
            None => "# Subtest"@,
        },
        *final(level) == old(level).wrapping_add(1),
{
    let text = match desc {
        Some(d) => String::from_str("# Subtest: ").concat(d),
        None => String::from_str("# Subtest"),
    };
    let line = leveled(*level, text);
    *level = level.wrapping_add(1);
    line
}

/// Closes a subtest: what follows is one level less deep.
pub fn exit_subtest(level: &mut usize)
    ensures
        *final(level) == old(level).wrapping_sub(1),
{
    *level = level.wrapping_sub(1);
}

/// The line that announces how many tests follow.
pub fn plan(level: usize, tests: usize) -> (res: String)
    ensures
        res@ == indent(level as nat) + "1.."@ + decimal(tests as nat),
{
    let text = String::from_str("1..").concat(to_decimal(tests as u64).as_str());
    let res = leveled(level, text);
    assert(res@ =~= indent(level as nat) + "1.."@ + decimal(tests as nat));
    res
}

/// The line that gives the whole run up.
pub fn bail(level: usize, desc: Option<&str>) -> (res: String)
    ensures
        res@ == indent(level as nat) + followed("Bail out!"@, desc_view(desc)),
{
    let text = match desc {
        Some(d) => String::from_str("Bail out!").concat(" ").concat(d),
        None => String::from_str("Bail out!"),
    };
    leveled(level, text)
}

/// The line that reports test `test` as passed.
pub fn ok(level: usize, test: usize, desc: Option<&str>) -> (res: String)
    ensures
        res@ == indent(level as nat) + described("ok "@ + decimal(test as nat), desc_view(desc)),
{
    let head = String::from_str("ok ").concat(to_decimal(test as u64).as_str());
    let text = match desc {
        Some(d) => head.concat(" - ").concat(d),
        None => head,
    };
    leveled(level, text)
}

/// The line that reports test `test` as failed.
pub fn not_ok(level: usize, test: usize, desc: Option<&str>) -> (res: String)
    ensures
        res@ == indent(level as nat) + described(
            "not ok "@ + decimal(test as nat),
            desc_view(desc),
        ),
{
    let head = String::from_str("not ok ").concat(to_decimal(test as u64).as_str());
    let text = match desc {
        Some(d) => head.concat(" - ").concat(d),
        None => head,
    };
    leveled(level, text)
}

} // verus!
