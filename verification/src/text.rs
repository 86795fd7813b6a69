use vstd::prelude::*;
use vstd::string::*;

verus! {

/// The character that stands for the digit `d`.
pub open spec fn digit_char(d: nat) -> char {
    if d == 0 {
        '0'
    } else if d == 1 {
        '1'
    } else if d == 2 {
        '2'
    } else if d == 3 {
        '3'
    } else if d == 4 {
        '4'
    } else if d == 5 {
        '5'
    } else if d == 6 {
        '6'
    } else if d == 7 {
        '7'
    } else if d == 8 {
        '8'
    } else {
        '9'
    }
}

/// The decimal numeral of `n`, without leading zeros.
pub open spec fn decimal(n: nat) -> Seq<char>
    decreases n,
{
    if n < 10 {
        seq![digit_char(n)]
    } else {
        decimal(n / 10).push(digit_char(n % 10))
    }
}

/// `count` copies of `unit`, one after the other.
pub open spec fn repeated(unit: Seq<char>, count: nat) -> Seq<char>
    decreases count,
{
    if count == 0 {
        Seq::empty()
    } else {
        repeated(unit, (count - 1) as nat) + unit
    }
}

fn digit_str(d: u64) -> (res: &'static str)
    requires
        d < 10,
    ensures
        res@ == seq![digit_char(d as nat)],
{
    proof {
        reveal_strlit("0");
        reveal_strlit("1");
        reveal_strlit("2");
        reveal_strlit("3");
        reveal_strlit("4");
        reveal_strlit("5");
        reveal_strlit("6");
        reveal_strlit("7");
        reveal_strlit("8");
        reveal_strlit("9");
    }
    let res = if d == 0 {
        "0"
    } else if d == 1 {
        "1"
    } else if d == 2 {
        "2"
    } else if d == 3 {
        "3"
    } else if d == 4 {
        "4"
    } else if d == 5 {
        "5"
    } else if d == 6 {
        "6"
    } else if d == 7 {
        "7"
    } else if d == 8 {
        "8"
    } else {
        "9"
    };
    assert(res@ =~= seq![digit_char(d as nat)]);
    res
}

/// Writes `n` as a decimal numeral.
pub fn to_decimal(n: u64) -> (res: String)
    ensures
        res@ == decimal(n as nat),
    decreases n,
{
    if n < 10 {
        String::from_str(digit_str(n))
    } else {
        let res = to_decimal(n / 10).concat(digit_str(n % 10));
        assert(res@ =~= decimal(n as nat));
        res
    }
}

/// Writes `unit` `count` times in a row.
pub fn repeat(unit: &str, count: usize) -> (res: String)
    ensures
        res@ == repeated(unit@, count as nat),
{
    let mut res = String::new();
    let mut i: usize = 0;
    while i < count
        invariant
            i <= count,
            res@ == repeated(unit@, i as nat),
        decreases count - i,
    {
        res.append(unit);
        i += 1;
    }
    res
}

/// Copies a list of strings.
pub fn clone_strings(list: &Vec<String>) -> (res: Vec<String>)
    ensures
        res.deep_view() == list.deep_view(),
{
    let mut res: Vec<String> = Vec::new();
    let mut i: usize = 0;
    while i < list.len()
        invariant
            i <= list.len(),
            res.len() == i,
            forall|k: int| 0 <= k < i ==> res[k]@ == list[k]@,
        decreases list.len() - i,
    {
        res.push(list[i].clone());
        i += 1;
    }
    assert(res.deep_view() =~= list.deep_view());
    res
}

/// Copies a string that may be absent.
pub fn clone_optional(text: &Option<String>) -> (res: Option<String>)
    ensures
        res.deep_view() == text.deep_view(),
{
    match text {
        Some(s) => Some(s.clone()),
        None => None,
    }
}

/// Whether `c` is one of the digits `0` to `9`.
pub open spec fn is_digit(c: char) -> bool {
    48 <= c as u32 <= 57
}

/// The number that the digits `s` spell.
pub open spec fn digits_value(s: Seq<char>) -> nat
    decreases s.len(),
{
    if s.len() == 0 {
        0
    } else {
        digits_value(s.drop_last()) * 10 + (s.last() as u32 - 48) as nat
    }
}

/// The digits of a numeral: what follows its sign, if it has one.
pub open spec fn numeral_body(s: Seq<char>) -> Seq<char> {
    if s.len() > 0 && s[0] == '+' {
        s.subrange(1, s.len() as int)
    } else {
        s
    }
}

/// Whether `s` is an unsigned decimal numeral: an optional `+` and then
/// one digit or more, nothing before, between or after.
pub open spec fn is_numeral(s: Seq<char>) -> bool {
    let body = numeral_body(s);
    body.len() > 0 && forall|i: int| 0 <= i < body.len() ==> is_digit(#[trigger] body[i])
}

/// The number that `s` stands for, where `s` is a numeral of a number up to
/// `limit`.
pub open spec fn parsed(s: Seq<char>, limit: u128) -> Option<u128> {
    if is_numeral(s) && digits_value(numeral_body(s)) <= limit {
        Some(digits_value(numeral_body(s)) as u128)
    } else {
        None
    }
}

proof fn lemma_digits_grow(s: Seq<char>, i: int)
    requires
        0 <= i <= s.len(),
    ensures
        digits_value(s.subrange(0, i)) <= digits_value(s),
    decreases s.len() - i,
{
    if i == s.len() {
        assert(s.subrange(0, i) =~= s);
    } else {
        lemma_digits_grow(s, i + 1);
        let longer = s.subrange(0, i + 1);
        assert(longer.drop_last() =~= s.subrange(0, i));
        assert(digits_value(longer) == digits_value(s.subrange(0, i)) * 10 + (longer.last() as u32
            - 48) as nat);
        assert(longer.last() == s[i]);
    }
}

/// Reads an unsigned decimal numeral of a number up to `limit`.
pub fn parse_decimal(text: &str, limit: u128) -> (res: Option<u128>)
    ensures
        res == parsed(text@, limit),
{
    let len = text.unicode_len();
    let mut start: usize = 0;
    if len > 0 && text.get_char(0) == '+' {
        start = 1;
    }
    let ghost body = numeral_body(text@);
    assert(body =~= text@.subrange(start as int, len as int));
    if start == len {
        return None;
    }
    let mut value: u128 = 0;
    let mut i: usize = start;
    while i < len
        invariant
            start <= i <= len,
            len == text@.len(),
            body == numeral_body(text@),
            body =~= text@.subrange(start as int, len as int),
            forall|k: int| 0 <= k < i - start ==> is_digit(#[trigger] body[k]),
            value == digits_value(body.subrange(0, i - start)),
            value <= limit,
        decreases len - i,
    {
        let c = text.get_char(i);
        assert(body[i - start] == c);
        let code = c as u32;
        if code < 48 || code > 57 {
            assert(!is_digit(body[i - start]));
            return None;
        }
        let digit = (code - 48) as u128;
        proof {
            let longer = body.subrange(0, i - start + 1);
            assert(longer.drop_last() =~= body.subrange(0, i - start));
            assert(longer.last() == c);
            assert(digits_value(longer) == value * 10 + digit);
            lemma_digits_grow(body, i - start + 1);
        }
        if digit > limit {
            return None;
        }
        if value > (limit - digit) / 10 {
            assert(value * 10 + digit > limit) by (nonlinear_arith)
                requires
                    value > (limit - digit) / 10,
                    limit >= digit >= 0,
            ;
            return None;
        }
        assert(value * 10 + digit <= limit) by (nonlinear_arith)
            requires
                value <= (limit - digit) / 10,
                limit >= digit,
        ;
        value = value * 10 + digit;
        i += 1;
    }
    assert(body.subrange(0, len - start) =~= body);
    Some(value)
}

/// Finds the first place of the character `c` in `text`.
pub fn find_char(text: &str, c: char) -> (res: Option<usize>)
    ensures
        match res {
            Some(i) => i < text@.len() && text@[i as int] == c && forall|k: int|
                0 <= k < i ==> text@[k] != c,
            None => forall|k: int| 0 <= k < text@.len() ==> text@[k] != c,
        },
{
    let len = text.unicode_len();
    let mut i: usize = 0;
    while i < len
        invariant
            i <= len,
            len == text@.len(),
            forall|k: int| 0 <= k < i ==> text@[k] != c,
        decreases len - i,
    {
        if text.get_char(i) == c {
            return Some(i);
        }
        i += 1;
    }
    None
}

/// `text` begins with `prefix`.
pub open spec fn prefixed(text: Seq<char>, prefix: Seq<char>) -> bool {
    prefix.len() <= text.len() && text.subrange(0, prefix.len() as int) == prefix
}

/// Whether `text` begins with `prefix`.
pub fn has_prefix(text: &str, prefix: &str) -> (res: bool)
    ensures
        res == prefixed(text@, prefix@),
{
    let len = prefix.unicode_len();
    if len > text.unicode_len() {
        return false;
    }
    let mut i: usize = 0;
    while i < len
        invariant
            i <= len,
            len == prefix@.len(),
            len <= text@.len(),
            forall|k: int| 0 <= k < i ==> text@[k] == prefix@[k],
        decreases len - i,
    {
        if text.get_char(i) != prefix.get_char(i) {
            assert(text@.subrange(0, len as int)[i as int] != prefix@[i as int]);
            return false;
        }
        i += 1;
    }
    assert(text@.subrange(0, len as int) =~= prefix@);
    true
}

/// The words that `str::split_whitespace` parts this text into.
pub uninterp spec fn words(text: Seq<char>) -> Seq<Seq<char>>;

/// Parts a text into its words with `str::split_whitespace`. Nothing is
/// claimed of the words but that the same text always gives the same
/// words.
#[verifier::external_body]
pub(crate) fn split_words(text: &str) -> (res: Vec<String>)
    ensures
        res.deep_view() == words(text@),
{
    text.split_whitespace().map(|w| w.to_string()).collect()
}

/// The pieces that the character `sep` parts `text` into: one more than
/// there are such characters in it.
pub open spec fn pieces(text: Seq<char>, sep: char) -> Seq<Seq<char>>
    decreases text.len(),
{
    if text.len() == 0 {
        seq![Seq::empty()]
    } else if text.last() == sep {
        pieces(text.drop_last(), sep).push(Seq::empty())
    } else {
        let before = pieces(text.drop_last(), sep);
        before.drop_last().push(before.last().push(text.last()))
    }
}

/// Parts `text` at every character `sep`.
pub fn split_at_char(text: &str, sep: char) -> (res: Vec<String>)
    ensures
        res.deep_view() == pieces(text@, sep),
{
    let len = text.unicode_len();
    let mut res: Vec<String> = Vec::new();
    let mut from: usize = 0;
    let mut i: usize = 0;
    assert(text@.subrange(0, 0) =~= Seq::<char>::empty());
    while i < len
        invariant
            from <= i <= len,
            len == text@.len(),
            res.deep_view().push(text@.subrange(from as int, i as int)) == pieces(
                text@.subrange(0, i as int),
                sep,
            ),
        decreases len - i,
    {
        let ghost done = res.deep_view();
        let ghost open = text@.subrange(from as int, i as int);
        proof {
            let longer = text@.subrange(0, i + 1);
            assert(longer.drop_last() =~= text@.subrange(0, i as int));
            assert(longer.last() == text@[i as int]);
            assert(done.push(open).drop_last() =~= done);
            assert(done.push(open).last() == open);
        }
        if text.get_char(i) == sep {
            res.push(String::from_str(text.substring_char(from, i)));
            from = i + 1;
            assert(res.deep_view() =~= done.push(open));
            assert(text@.subrange(from as int, i + 1) =~= Seq::<char>::empty());
        } else {
            assert(text@.subrange(from as int, i + 1) =~= open.push(text@[i as int]));
        }
        i += 1;
    }
    let ghost done = res.deep_view();
    res.push(String::from_str(text.substring_char(from, len)));
    assert(res.deep_view() =~= done.push(text@.subrange(from as int, len as int)));
    assert(text@.subrange(0, len as int) =~= text@);
    res
}

/// A line without the carriage return that it ends in, if it ends in one.
pub open spec fn without_return(line: Seq<char>) -> Seq<char> {
    if line.len() > 0 && line.last() == '\r' {
        line.drop_last()
    } else {
        line
    }
}

/// The lines of a text. A line ends in a line feed, or in a carriage
/// return and a line feed, and neither belongs to it; what stands behind
/// the last line feed is a line as it is, unless it is empty.
pub open spec fn lines_of(text: Seq<char>) -> Seq<Seq<char>> {
    let parts = pieces(text, '\n');
    let ended = Seq::new((parts.len() - 1) as nat, |i: int| without_return(parts[i]));
    if parts.last().len() == 0 {
        ended
    } else {
        ended.push(parts.last())
    }
}

/// A text has at least one piece.
pub proof fn lemma_pieces_not_empty(text: Seq<char>, sep: char)
    ensures
        pieces(text, sep).len() >= 1,
    decreases text.len(),
{
    if text.len() > 0 {
        lemma_pieces_not_empty(text.drop_last(), sep);
    }
}

/// Parts a text into its lines.
pub fn split_lines(text: &str) -> (res: Vec<String>)
    ensures
        res.deep_view() == lines_of(text@),
{
    let parts = split_at_char(text, '\n');
    let ghost all = pieces(text@, '\n');
    let ghost ended = Seq::new((all.len() - 1) as nat, |i: int| without_return(all[i]));
    proof {
        lemma_pieces_not_empty(text@, '\n');
    }
    let last: usize = parts.len() - 1;
    let mut res: Vec<String> = Vec::new();
    let mut i: usize = 0;
    assert(res.deep_view() =~= ended.subrange(0, 0));
    while i < last
        invariant
            i <= last,
            last + 1 == parts.len(),
            parts.deep_view() == all,
            ended == Seq::new((all.len() - 1) as nat, |i: int| without_return(all[i])),
            res.deep_view() == ended.subrange(0, i as int),
        decreases last - i,
    {
        let ghost done = res.deep_view();
        let line = parts[i].as_str();
        let len = line.unicode_len();
        assert(line@ == all[i as int]);
        if len > 0 && line.get_char(len - 1) == '\r' {
            res.push(String::from_str(line.substring_char(0, len - 1)));
            assert(line@.subrange(0, len - 1) =~= line@.drop_last());
        } else {
            res.push(String::from_str(line));
        }
        assert(res.deep_view() =~= done.push(ended[i as int]));
        assert(res.deep_view() =~= ended.subrange(0, i + 1));
        i += 1;
    }
    assert(ended.subrange(0, last as int) =~= ended);
    let rest = parts[last].as_str();
    assert(rest@ == all.last());
    if rest.unicode_len() > 0 {
        let ghost done = res.deep_view();
        res.push(String::from_str(rest));
        assert(res.deep_view() =~= done.push(rest@));
    }
    res
}

/// `text` holds `part` from the place `at` on.
pub open spec fn holds_at(text: Seq<char>, part: Seq<char>, at: int) -> bool {
    0 <= at && at + part.len() <= text.len() && text.subrange(at, at + part.len()) == part
}

/// `part` stands somewhere in `text`.
pub open spec fn holds(text: Seq<char>, part: Seq<char>) -> bool {
    exists|at: int| holds_at(text, part, at)
}

/// Whether `part` stands somewhere in `text`.
pub fn contains_text(text: &str, part: &str) -> (res: bool)
    ensures
        res == holds(text@, part@),
{
    let len = text.unicode_len();
    let size = part.unicode_len();
    if size > len {
        assert forall|at: int| !holds_at(text@, part@, at) by {}
        return false;
    }
    let last = len - size;
    let mut at: usize = 0;
    loop
        invariant
            at <= last,
            last == len - size,
            size <= len,
            len == text@.len(),
            size == part@.len(),
            forall|k: int| 0 <= k < at ==> !holds_at(text@, part@, k),
        decreases last - at,
    {
        let mut i: usize = 0;
        let mut same = true;
        while i < size
            invariant
                i <= size,
                at + size <= len,
                len == text@.len(),
                size == part@.len(),
                same ==> forall|k: int| 0 <= k < i ==> text@[at + k] == part@[k],
                !same ==> !holds_at(text@, part@, at as int),
            decreases size - i,
        {
            if same && text.get_char(at + i) != part.get_char(i) {
                same = false;
                assert(text@.subrange(at as int, at + size)[i as int] != part@[i as int]);
            }
            i += 1;
        }
        if same {
            assert(text@.subrange(at as int, at + size) =~= part@);
            assert(holds_at(text@, part@, at as int));
            return true;
        }
        if at == last {
            assert forall|k: int| !holds_at(text@, part@, k) by {
                if holds_at(text@, part@, k) {
                    assert(k <= at);
                }
            }
            return false;
        }
        at += 1;
    }
}

/// The text that `str::trim` leaves of this text.
pub uninterp spec fn trimmed(text: Seq<char>) -> Seq<char>;

/// Takes the white space off both ends of a text with `str::trim`. Nothing
/// is claimed of the result but that the same text always gives the same
/// result.
#[verifier::external_body]
pub(crate) fn trim_text(text: &str) -> (res: String)
    ensures
        res@ == trimmed(text@),
{
    text.trim().to_string()
}

} // verus!
