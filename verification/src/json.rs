//! JSON string literals and the marks between them.
//!
//! The commands of the log are JSON values. What a string literal looks like
//! inside its quotes is left to `serde_json`; where a literal ends, and the
//! whitespace and punctuation around it, are handled here.
use crate::error::KvError;
use vstd::prelude::*;
use vstd::slice::slice_subrange;

verus! {

/// The byte `"`.
pub const QUOTE: u8 = 0x22;

/// The byte `\`.
pub const BACKSLASH: u8 = 0x5c;

/// The JSON string literal, quotes included, that `serde_json` writes for
/// `text`.
pub uninterp spec fn json_literal(text: Seq<char>) -> Seq<u8>;

/// The text that `serde_json` reads from `literal` as a JSON string, or
/// `None` where it reads none.
pub uninterp spec fn json_literal_text(literal: Seq<u8>) -> Option<Seq<char>>;

/// JSON whitespace: space, line feed, carriage return, tab.
pub open spec fn is_space(b: u8) -> bool {
    b == 0x20 || b == 0x0a || b == 0x0d || b == 0x09
}

/// The first position at or after `at` that holds no whitespace.
pub open spec fn spaces_end(bytes: Seq<u8>, at: int) -> int
    decreases bytes.len() - at,
{
    if 0 <= at < bytes.len() && is_space(bytes[at]) {
        spaces_end(bytes, at + 1)
    } else {
        at
    }
}

/// Where the string literal whose content starts at `at` ends: the position
/// after the first quote that no backslash escapes. `None` where the bytes
/// run out first.
pub open spec fn literal_end(bytes: Seq<u8>, at: int) -> Option<int>
    decreases bytes.len() - at,
{
    if at < 0 || at >= bytes.len() {
        None
    } else if bytes[at] == QUOTE {
        Some(at + 1)
    } else if bytes[at] == BACKSLASH {
        if at + 1 < bytes.len() {
            literal_end(bytes, at + 2)
        } else {
            None
        }
    } else {
        literal_end(bytes, at + 1)
    }
}

/// `bytes` is one whole string literal: an opening quote, and the closing
/// quote as its last byte.
pub open spec fn is_literal(bytes: Seq<u8>) -> bool {
    &&& bytes.len() >= 2
    &&& bytes[0] == QUOTE
    &&& literal_end(bytes, 1) == Some(bytes.len() as int)
}

/// What is wrong with a stretch of log.
#[derive(Debug)]
pub enum Flaw {
    /// A mark is missing or misplaced, or the bytes end too early.
    Structure,
    /// A string literal is closed, but `serde_json` rejects what it holds.
    Text,
}

/// The byte `mark` as the first thing after the whitespace at `at`: the
/// position after it.
pub open spec fn mark_at(bytes: Seq<u8>, at: int, mark: u8) -> Option<int> {
    let found = spaces_end(bytes, at);
    if 0 <= found < bytes.len() && bytes[found] == mark {
        Some(found + 1)
    } else {
        None
    }
}

/// The string literal that is the first thing after the whitespace at `at`:
/// its text, and the position after its closing quote.
pub open spec fn text_at(bytes: Seq<u8>, at: int) -> Result<(Seq<char>, int), Flaw> {
    match mark_at(bytes, at, QUOTE) {
        Some(inside) => match literal_end(bytes, inside) {
            Some(end) => match json_literal_text(bytes.subrange(inside - 1, end)) {
                Some(text) => Ok((text, end)),
                None => Err(Flaw::Text),
            },
            None => Err(Flaw::Structure),
        },
        None => Err(Flaw::Structure),
    }
}

/// The bytes of `a` from `lo` to `hi` stand in `b` as well, `shift` places
/// further on.
pub open spec fn same_window(a: Seq<u8>, b: Seq<u8>, lo: int, hi: int, shift: int) -> bool {
    &&& 0 <= lo <= hi <= a.len()
    &&& 0 <= lo + shift
    &&& hi + shift <= b.len()
    &&& forall|j: int| lo <= j < hi ==> #[trigger] a[j] == b[j + shift]
}

/// Whitespace ends at or after the place where it was looked for, and within
/// the bytes.
pub proof fn lemma_spaces_end_bounds(bytes: Seq<u8>, at: int)
    requires
        0 <= at <= bytes.len(),
    ensures
        at <= spaces_end(bytes, at) <= bytes.len(),
    decreases bytes.len() - at,
{
    if at < bytes.len() && is_space(bytes[at]) {
        lemma_spaces_end_bounds(bytes, at + 1);
    }
}

/// A literal ends after the place where its content starts, and within the
/// bytes.
pub proof fn lemma_literal_end_bounds(bytes: Seq<u8>, at: int)
    requires
        literal_end(bytes, at) is Some,
    ensures
        0 <= at < literal_end(bytes, at).unwrap() <= bytes.len(),
    decreases bytes.len() - at,
{
    if bytes[at] == QUOTE {
    } else if bytes[at] == BACKSLASH {
        lemma_literal_end_bounds(bytes, at + 2);
    } else {
        lemma_literal_end_bounds(bytes, at + 1);
    }
}

/// A mark is found after the place where it was looked for, and within the
/// bytes.
pub proof fn lemma_mark_bounds(bytes: Seq<u8>, at: int, mark: u8)
    requires
        0 <= at <= bytes.len(),
        mark_at(bytes, at, mark) is Some,
    ensures
        at < mark_at(bytes, at, mark).unwrap() <= bytes.len(),
{
    lemma_spaces_end_bounds(bytes, at);
}

/// A string literal ends after the place where it was looked for, and
/// within the bytes.
pub proof fn lemma_text_bounds(bytes: Seq<u8>, at: int)
    requires
        0 <= at <= bytes.len(),
        text_at(bytes, at) is Ok,
    ensures
        at < text_at(bytes, at).unwrap().1 <= bytes.len(),
{
    lemma_mark_bounds(bytes, at, QUOTE);
    lemma_literal_end_bounds(bytes, mark_at(bytes, at, QUOTE).unwrap());
}

/// Whitespace that ends inside a window ends at the same place of the
/// window wherever the window stands.
pub proof fn lemma_spaces_end_window(
    a: Seq<u8>,
    b: Seq<u8>,
    lo: int,
    hi: int,
    shift: int,
    at: int,
)
    requires
        same_window(a, b, lo, hi, shift),
        lo <= at,
        spaces_end(a, at) < hi,
    ensures
        spaces_end(b, at + shift) == spaces_end(a, at) + shift,
    decreases hi - at,
{
    if at <= a.len() {
        lemma_spaces_end_bounds(a, at);
    }
    if is_space(a[at]) {
        lemma_spaces_end_window(a, b, lo, hi, shift, at + 1);
    }
}

/// A mark found inside a window is found at the same place of the window
/// wherever the window stands.
pub proof fn lemma_mark_window(
    a: Seq<u8>,
    b: Seq<u8>,
    lo: int,
    hi: int,
    shift: int,
    at: int,
    mark: u8,
)
    requires
        same_window(a, b, lo, hi, shift),
        lo <= at,
        mark_at(a, at, mark) is Some,
        mark_at(a, at, mark).unwrap() <= hi,
    ensures
        mark_at(b, at + shift, mark) == Some(mark_at(a, at, mark).unwrap() + shift),
{
    if at <= a.len() {
        lemma_spaces_end_bounds(a, at);
    }
    lemma_spaces_end_window(a, b, lo, hi, shift, at);
    let found = spaces_end(a, at);
    assert(a[found] == b[found + shift]);
}

/// A literal that ends inside a window ends at the same place of the window
/// wherever the window stands.
pub proof fn lemma_literal_end_window(
    a: Seq<u8>,
    b: Seq<u8>,
    lo: int,
    hi: int,
    shift: int,
    at: int,
)
    requires
        same_window(a, b, lo, hi, shift),
        lo <= at,
        literal_end(a, at) is Some,
        literal_end(a, at).unwrap() <= hi,
    ensures
        literal_end(b, at + shift) == Some(literal_end(a, at).unwrap() + shift),
    decreases hi - at,
{
    lemma_literal_end_bounds(a, at);
    if a[at] == QUOTE {
    } else if a[at] == BACKSLASH {
        lemma_literal_end_bounds(a, at + 2);
        lemma_literal_end_window(a, b, lo, hi, shift, at + 2);
    } else {
        lemma_literal_end_window(a, b, lo, hi, shift, at + 1);
    }
}

/// A string literal read inside a window is read with the same text, at the
/// same place of the window, wherever the window stands.
pub proof fn lemma_text_window(a: Seq<u8>, b: Seq<u8>, lo: int, hi: int, shift: int, at: int)
    requires
        same_window(a, b, lo, hi, shift),
        lo <= at,
        text_at(a, at) is Ok,
        text_at(a, at).unwrap().1 <= hi,
    ensures
        text_at(b, at + shift) == Ok::<(Seq<char>, int), Flaw>(
            (text_at(a, at).unwrap().0, text_at(a, at).unwrap().1 + shift),
        ),
{
    let inside = mark_at(a, at, QUOTE).unwrap();
    let end = literal_end(a, inside).unwrap();
    lemma_literal_end_bounds(a, inside);
    lemma_spaces_end_bounds(a, at);
    lemma_mark_window(a, b, lo, hi, shift, at, QUOTE);
    lemma_literal_end_window(a, b, lo, hi, shift, inside);
    assert(a.subrange(inside - 1, end) =~= b.subrange(inside - 1 + shift, end + shift));
}

/// Whitespace that runs to the end of `a` runs on into what is put after
/// `a`.
pub proof fn lemma_spaces_run_on(a: Seq<u8>, rest: Seq<u8>, at: int)
    requires
        0 <= at <= a.len(),
        spaces_end(a, at) >= a.len(),
    ensures
        spaces_end(a + rest, at) == spaces_end(a + rest, a.len() as int),
    decreases a.len() - at,
{
    if at < a.len() {
        assert((a + rest)[at] == a[at]);
        lemma_spaces_run_on(a, rest, at + 1);
    }
}

/// Calls `serde_json::to_vec` on a string slice. Trusted: the call succeeds,
/// as a string is written into a vector and neither can refuse; what comes
/// back is the literal named `json_literal`; it is one whole string
/// literal; and `serde_json` reads the same text back from it.
#[verifier::external_body]
pub(crate) fn quote(text: &str) -> (r: Result<Vec<u8>, serde_json::Error>)
    ensures
        r is Ok,
        r matches Ok(literal) ==> literal@ == json_literal(text@),
        r matches Ok(literal) ==> is_literal(literal@),
        r matches Ok(literal) ==> json_literal_text(literal@) == Some(text@),
{
    serde_json::to_vec(text)
}

/// Calls `serde_json::from_slice` for a `String`. Trusted: the text that
/// comes back is the one named `json_literal_text`, and an error comes back
/// where that is `None`.
#[verifier::external_body]
pub(crate) fn unquote(literal: &[u8]) -> (r: Result<String, serde_json::Error>)
    ensures
        match r {
            Ok(text) => json_literal_text(literal@) == Some(text@),
            Err(_) => json_literal_text(literal@) is None,
        },
{
    serde_json::from_slice::<String>(literal)
}

/// Skips the whitespace at `at`.
pub fn skip_spaces(bytes: &[u8], at: usize) -> (r: usize)
    requires
        at <= bytes@.len(),
    ensures
        r == spaces_end(bytes@, at as int),
        at <= r <= bytes@.len(),
{
    let mut here: usize = at;
    while here < bytes.len() && (bytes[here] == 0x20 || bytes[here] == 0x0a || bytes[here] == 0x0d
        || bytes[here] == 0x09)
        invariant
            at <= here <= bytes@.len(),
            spaces_end(bytes@, here as int) == spaces_end(bytes@, at as int),
        decreases bytes@.len() - here,
    {
        here = here + 1;
    }
    here
}

/// Finds the end of the string literal whose content starts at `at`.
pub fn find_literal_end(bytes: &[u8], at: usize) -> (r: Option<usize>)
    requires
        at <= bytes@.len(),
    ensures
        match r {
            Some(end) => literal_end(bytes@, at as int) == Some(end as int) && at < end
                <= bytes@.len(),
            None => literal_end(bytes@, at as int) is None,
        },
{
    let mut here: usize = at;
    while here < bytes.len()
        invariant
            at <= here,
            literal_end(bytes@, here as int) == literal_end(bytes@, at as int),
        decreases bytes@.len() - here,
    {
        if bytes[here] == QUOTE {
            return Some(here + 1);
        } else if bytes[here] == BACKSLASH {
            if bytes.len() - here < 2 {
                return None;
            }
            here = here + 2;
        } else {
            here = here + 1;
        }
    }
    None
}

/// Reads the byte `mark` after the whitespace at `at`.
pub fn read_mark(bytes: &[u8], at: usize, mark: u8) -> (r: Option<usize>)
    requires
        at <= bytes@.len(),
    ensures
        match r {
            Some(next) => mark_at(bytes@, at as int, mark) == Some(next as int) && at < next
                <= bytes@.len(),
            None => mark_at(bytes@, at as int, mark) is None,
        },
{
    let found = skip_spaces(bytes, at);
    if found < bytes.len() && bytes[found] == mark {
        Some(found + 1)
    } else {
        None
    }
}

/// Reads the string literal after the whitespace at `at`. A literal that is
/// not closed, or no literal at all, is damage to the log; one that
/// `serde_json` rejects comes back as its error.
pub fn read_text(bytes: &[u8], at: usize) -> (r: Result<(String, usize), KvError>)
    requires
        at <= bytes@.len(),
    ensures
        match r {
            Ok((text, end)) => text_at(bytes@, at as int) == Ok::<(Seq<char>, int), Flaw>(
                (text@, end as int),
            ) && at < end <= bytes@.len(),
            Err(e) => match text_at(bytes@, at as int) {
                Ok(_) => false,
                Err(Flaw::Structure) => e is UnexpectedAction,
                Err(Flaw::Text) => e is Serde,
            },
        },
{
    match read_mark(bytes, at, QUOTE) {
        None => Err(KvError::UnexpectedAction),
        Some(inside) => match find_literal_end(bytes, inside) {
            None => Err(KvError::UnexpectedAction),
            Some(end) => match unquote(slice_subrange(bytes, inside - 1, end)) {
                Ok(text) => Ok((text, end)),
                Err(e) => Err(KvError::Serde(e)),
            },
        },
    }
}

} // verus!
