//! How the segments of a store are named, and how they are found again.
//!
//! Segment `G` is the file `<G>.db` in the store directory, `<G>` being the
//! decimal digits of a 64-bit number. Files with other names are not part
//! of the store.
use vstd::prelude::*;
use vstd::string::*;

verus! {

/// The text of the first group of the leftmost match of the regular
/// expression `pattern` in `text`, as the `regex` crate finds it; `None`
/// where `pattern` is no regular expression, nothing matches, or the group
/// takes no part in the match.
pub uninterp spec fn regex_first_group(pattern: Seq<char>, text: Seq<char>) -> Option<Seq<char>>;

/// Compiles `pattern` with `regex::Regex::new`, searches `text` with
/// `Regex::captures`, and hands out the text of group 1 of the match, as
/// `Captures::get` and `Match::as_str` give it. Trusted: what comes back is
/// the text named `regex_first_group`.
#[verifier::external_body]
fn first_group(pattern: &str, text: &str) -> (r: Option<String>)
    ensures
        match r {
            Some(found) => regex_first_group(pattern@, text@) == Some(found@),
            None => regex_first_group(pattern@, text@) is None,
        },
{
    let found = regex::Regex::new(pattern).ok()?.captures(text)?.get(1)?;
    Some(found.as_str().to_string())
}

/// One of the ten digits.
pub open spec fn is_digit(c: char) -> bool {
    48 <= c as u32 <= 57
}

/// The number that a digit stands for.
pub open spec fn digit_value(c: char) -> nat {
    (c as u32 - 48) as nat
}

/// The digit that stands for a number below ten.
pub open spec fn digit_char(d: nat) -> char {
    if d == 0 {
        '0'
    } else if d == 1 {
        '1'
    } else if d == 2 {
        '2'
    } else if d == 3 {
        '3'
    } else if d == 4 {
        '4'
    } else if d == 5 {
        '5'
    } else if d == 6 {
        '6'
    } else if d == 7 {
        '7'
    } else if d == 8 {
        '8'
    } else {
        '9'
    }
}

/// Every character of `digits` is a digit.
pub open spec fn all_digits(digits: Seq<char>) -> bool {
    forall|i: int| 0 <= i < digits.len() ==> is_digit(#[trigger] digits[i])
}

/// The number that a run of digits stands for, read in base ten.
pub open spec fn decimal_value(digits: Seq<char>) -> nat
    decreases digits.len(),
{
    if digits.len() == 0 {
        0
    } else {
        decimal_value(digits.drop_last()) * 10 + digit_value(digits.last())
    }
}

/// The digits of a number in base ten, without leading zeros.
pub open spec fn decimal_digits(n: nat) -> Seq<char>
    decreases n,
{
    if n < 10 {
        seq![digit_char(n)]
    } else {
        decimal_digits(n / 10).push(digit_char(n % 10))
    }
}

/// The generation that a run of characters names: they are digits, at
/// least one, and their number fits in 64 bits. Leading zeros are allowed.
pub open spec fn generation_named(digits: Seq<char>) -> Option<u64> {
    if digits.len() > 0 && all_digits(digits) && decimal_value(digits) <= u64::MAX {
        Some(decimal_value(digits) as u64)
    } else {
        None
    }
}

/// The name of the file of a segment: `<G>.db`.
pub open spec fn file_name(generation: u64) -> Seq<char> {
    decimal_digits(generation as nat) + seq!['.', 'd', 'b']
}

/// `name` inside the directory `dir`: a `/` is put between them unless
/// `dir` is empty or ends in one.
pub open spec fn path_join(dir: Seq<char>, name: Seq<char>) -> Seq<char> {
    if dir.len() == 0 {
        name
    } else if dir.last() == '/' {
        dir + name
    } else {
        dir + seq!['/'] + name
    }
}

/// The regular expression that the path of a segment file matches; its
/// group holds the digits.
pub open spec fn generation_pattern() -> Seq<char> {
    "/(\\d+)\\.db$"@
}

/// The generation that a path names: what the digits stand for that
/// `generation_pattern` finds in it.
pub open spec fn generation_of(path: Seq<char>) -> Option<u64> {
    match regex_first_group(generation_pattern(), path) {
        Some(digits) => generation_named(digits),
        None => None,
    }
}

/// Each number is smaller than the next.
pub open spec fn ascending(numbers: Seq<u64>) -> bool {
    forall|i: int, j: int| 0 <= i < j < numbers.len() ==> numbers[i] < numbers[j]
}

/// The first digits of a run stand for no more than the whole run.
pub proof fn lemma_decimal_value_grows(digits: Seq<char>, count: int)
    requires
        0 <= count <= digits.len(),
    ensures
        decimal_value(digits.take(count)) <= decimal_value(digits),
    decreases digits.len(),
{
    if count == digits.len() {
        assert(digits.take(count) =~= digits);
    } else {
        assert(digits.drop_last().take(count) =~= digits.take(count));
        lemma_decimal_value_grows(digits.drop_last(), count);
    }
}

/// A number is read back from its own digits: the file that is written for
/// a generation names that generation.
pub proof fn lemma_decimal_round_trip(n: nat)
    ensures
        all_digits(decimal_digits(n)),
        decimal_digits(n).len() > 0,
        decimal_value(decimal_digits(n)) == n,
    decreases n,
{
    if n < 10 {
        let one = decimal_digits(n);
        assert(one.drop_last() =~= Seq::<char>::empty());
        assert(decimal_value(one.drop_last()) == 0);
    } else {
        lemma_decimal_round_trip(n / 10);
        let all = decimal_digits(n);
        assert(all.drop_last() =~= decimal_digits(n / 10));
    }
}

/// Reads a generation from a run of characters.
pub fn parse_generation(digits: &str) -> (r: Option<u64>)
    ensures
        r == generation_named(digits@),
{
    let count = digits.unicode_len();
    if count == 0 {
        return None;
    }
    let mut value: u64 = 0;
    let mut at: usize = 0;
    while at < count
        invariant
            at <= count,
            count == digits@.len(),
            all_digits(digits@.take(at as int)),
            value == decimal_value(digits@.take(at as int)),
        decreases count - at,
    {
        let code: u32 = digits.get_char(at) as u32;
        if code < 48 || code > 57 {
            return None;
        }
        let digit: u64 = (code - 48) as u64;
        proof {
            assert(digits@.take(at + 1).drop_last() =~= digits@.take(at as int));
            lemma_decimal_value_grows(digits@, at + 1);
        }
        if value > (u64::MAX - digit) / 10 {
            return None;
        }
        value = value * 10 + digit;
        at = at + 1;
    }
    assert(digits@.take(count as int) =~= digits@);
    Some(value)
}

/// The text of one digit.
fn digit_text(d: u64) -> (text: &'static str)
    requires
        d < 10,
    ensures
        text@ == seq![digit_char(d as nat)],
{
    proof {
        reveal_strlit("0");
        reveal_strlit("1");
        reveal_strlit("2");
        reveal_strlit("3");
        reveal_strlit("4");
        reveal_strlit("5");
        reveal_strlit("6");
        reveal_strlit("7");
        reveal_strlit("8");
        reveal_strlit("9");
    }
    let text = if d == 0 {
        "0"
    } else if d == 1 {
        "1"
    } else if d == 2 {
        "2"
    } else if d == 3 {
        "3"
    } else if d == 4 {
        "4"
    } else if d == 5 {
        "5"
    } else if d == 6 {
        "6"
    } else if d == 7 {
        "7"
    } else if d == 8 {
        "8"
    } else {
        "9"
    };
    assert(text@ =~= seq![digit_char(d as nat)]);
    text
}

/// Writes a number in base ten.
pub fn decimal_text(n: u64) -> (text: String)
    ensures
        text@ == decimal_digits(n as nat),
    decreases n,
{
    if n < 10 {
        digit_text(n).to_owned()
    } else {
        let mut text = decimal_text(n / 10);
        text.append(digit_text(n % 10));
        assert(text@ =~= decimal_digits(n as nat));
        text
    }
}

/// The path of the file of a segment in the store directory.
pub fn generation_path(dirpath: &str, generation: u64) -> (path: String)
    ensures
        path@ == path_join(dirpath@, file_name(generation)),
{
    let count = dirpath.unicode_len();
    let mut path = dirpath.to_owned();
    if count > 0 && dirpath.get_char(count - 1) as u32 != 47 {
        proof {
            reveal_strlit("/");
        }
        path.append("/");
    }
    let digits = decimal_text(generation);
    path.append(digits.as_str());
    proof {
        reveal_strlit(".db");
    }
    path.append(".db");
    assert(path@ =~= path_join(dirpath@, file_name(generation)));
    path
}

/// The search pattern that finds the segment files of the store
/// directory: `<dirpath>/*.db`.
pub fn glob_pattern(dirpath: &str) -> (pattern: String)
    ensures
        pattern@ == dirpath@ + seq!['/', '*', '.', 'd', 'b'],
{
    let mut pattern = dirpath.to_owned();
    proof {
        reveal_strlit("/*.db");
    }
    pattern.append("/*.db");
    assert(pattern@ =~= dirpath@ + seq!['/', '*', '.', 'd', 'b']);
    pattern
}

/// The generation that a path names, if it is the path of a segment file.
pub fn path_generation(path: &str) -> (r: Option<u64>)
    ensures
        r == generation_of(path@),
{
    match first_group("/(\\d+)\\.db$", path) {
        Some(digits) => parse_generation(digits.as_str()),
        None => None,
    }
}

/// Puts `generation` at its place in an ascending list, unless the list
/// holds it already.
fn insert_ascending(list: &mut Vec<u64>, generation: u64)
    requires
        ascending(old(list)@),
    ensures
        ascending(final(list)@),
        forall|g: u64| final(list)@.contains(g) <==> (old(list)@.contains(g) || g == generation),
{
    let mut at: usize = 0;
    while at < list.len() && list[at] < generation
        invariant
            at <= list@.len(),
            list@ == old(list)@,
            forall|i: int| 0 <= i < at ==> list@[i] < generation,
        decreases list@.len() - at,
    {
        at = at + 1;
    }
    if at < list.len() && list[at] == generation {
        assert(list@.contains(generation));
        return;
    }
    let ghost before = list@;
    list.insert(at, generation);
    let ghost after = list@;
    assert forall|g: u64| after.contains(g) <==> (before.contains(g) || g == generation) by {
        if after.contains(g) {
            let j = choose|j: int| 0 <= j < after.len() && after[j] == g;
            if j < at {
                assert(before[j] == g);
            } else if j > at {
                assert(before[j - 1] == g);
            }
        }
        if before.contains(g) {
            let j = choose|j: int| 0 <= j < before.len() && before[j] == g;
            if j < at {
                assert(after[j] == g);
            } else {
                assert(after[j + 1] == g);
            }
        }
        if g == generation {
            assert(after[at as int] == g);
        }
    }
}

/// The generations whose files are among `paths`, each once, in ascending
/// order. A path that is not that of a segment file is passed over.
pub fn active_generations(paths: &Vec<String>) -> (generations: Vec<u64>)
    ensures
        ascending(generations@),
        forall|g: u64|
            generations@.contains(g) <==> exists|i: int|
                0 <= i < paths@.len() && generation_of(#[trigger] paths@[i]@) == Some(g),
{
    let mut generations: Vec<u64> = Vec::new();
    let mut at: usize = 0;
    while at < paths.len()
        invariant
            at <= paths@.len(),
            ascending(generations@),
            forall|g: u64|
                generations@.contains(g) <==> exists|i: int|
                    0 <= i < at && generation_of(#[trigger] paths@[i]@) == Some(g),
        decreases paths@.len() - at,
    {
        let ghost before = generations@;
        match path_generation(paths[at].as_str()) {
            Some(generation) => {
                insert_ascending(&mut generations, generation);
            },
            None => {},
        }
        at = at + 1;
        assert forall|g: u64|
            generations@.contains(g) <==> exists|i: int|
                0 <= i < at && generation_of(#[trigger] paths@[i]@) == Some(g) by {
            if generations@.contains(g) {
                if before.contains(g) {
                    let i = choose|i: int|
                        0 <= i < at - 1 && generation_of(#[trigger] paths@[i]@) == Some(g);
                    assert(0 <= i < at && generation_of(paths@[i]@) == Some(g));
                } else {
                    assert(generation_of(paths@[at - 1]@) == Some(g));
                }
            }
            if exists|i: int| 0 <= i < at && generation_of(#[trigger] paths@[i]@) == Some(g) {
                let i = choose|i: int|
                    0 <= i < at && generation_of(#[trigger] paths@[i]@) == Some(g);
                if i < at - 1 {
                    assert(before.contains(g));
                }
            }
        }
    }
    generations
}

} // verus!
