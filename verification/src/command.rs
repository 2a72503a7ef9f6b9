//! The commands of the log and their wire form.
//!
//! A command is one JSON value: `{"Set":["<key>","<value>"]}` or
//! `{"Remove":"<key>"}`. Commands follow one another in a segment with
//! nothing between them; a reader that starts at the front finds each
//! command and the place where the next one starts.
use crate::error::KvError;
use crate::json::{
    is_literal, is_space, json_literal, json_literal_text, lemma_literal_end_window,
    lemma_mark_bounds, lemma_mark_window, lemma_spaces_end_bounds, lemma_spaces_end_window,
    lemma_text_bounds, lemma_text_window, mark_at, quote, read_mark, read_text, same_window,
    skip_spaces, spaces_end, text_at, Flaw, QUOTE,
};
use vstd::prelude::*;

verus! {

/// The byte `{`.
pub const BRACE_OPEN: u8 = 0x7b;

/// The byte `}`.
pub const BRACE_CLOSE: u8 = 0x7d;

/// The byte `[`.
pub const BRACKET_OPEN: u8 = 0x5b;

/// The byte `]`.
pub const BRACKET_CLOSE: u8 = 0x5d;

/// The byte `:`.
pub const COLON: u8 = 0x3a;

/// The byte `,`.
pub const COMMA: u8 = 0x2c;

/// A command as the log means it.
pub enum Command {
    /// Binds the key to the value; written under the name `Set`.
    Put(Seq<char>, Seq<char>),
    /// Unbinds the key.
    Remove(Seq<char>),
}

/// A command of the log.
#[derive(Debug)]
pub enum KvAction {
    /// Binds the key to the value; written under the name `Set`.
    Put(String, String),
    /// Unbinds the key.
    Remove(String),
}

impl View for KvAction {
    type V = Command;

    open spec fn view(&self) -> Command {
        match self {
            KvAction::Put(key, value) => Command::Put(key@, value@),
            KvAction::Remove(key) => Command::Remove(key@),
        }
    }
}

/// The name under which a `Set` command is written.
pub open spec fn set_tag() -> Seq<char> {
    "Set"@
}

/// The name under which a `Remove` command is written.
pub open spec fn remove_tag() -> Seq<char> {
    "Remove"@
}

/// A `Set` command around its three string literals:
/// `{<tag>:[<key>,<value>]}`.
pub open spec fn put_frame(tag: Seq<u8>, key: Seq<u8>, value: Seq<u8>) -> Seq<u8> {
    seq![BRACE_OPEN] + tag + seq![COLON, BRACKET_OPEN] + key + seq![COMMA] + value + seq![
        BRACKET_CLOSE,
        BRACE_CLOSE,
    ]
}

/// A `Remove` command around its two string literals: `{<tag>:<key>}`.
pub open spec fn remove_frame(tag: Seq<u8>, key: Seq<u8>) -> Seq<u8> {
    seq![BRACE_OPEN] + tag + seq![COLON] + key + seq![BRACE_CLOSE]
}

/// The bytes written for a command: its frame around the JSON literals of
/// its name and of its strings.
pub open spec fn canonical(cmd: Command) -> Seq<u8> {
    match cmd {
        Command::Put(key, value) => put_frame(
            json_literal(set_tag()),
            json_literal(key),
            json_literal(value),
        ),
        Command::Remove(key) => remove_frame(json_literal(remove_tag()), json_literal(key)),
    }
}

/// The two kinds of command.
#[derive(Clone, Copy, Debug, PartialEq, Eq)]
pub enum Tag {
    /// The kind that is written under the name `Set`.
    Put,
    /// The kind that is written under the name `Remove`.
    Remove,
}

/// The kind of command that a name stands for.
pub open spec fn tag_of(name: Seq<char>) -> Option<Tag> {
    if name == set_tag() {
        Some(Tag::Put)
    } else if name == remove_tag() {
        Some(Tag::Remove)
    } else {
        None
    }
}

/// What a reader finds at a place of the log.
pub enum Entry {
    /// Nothing but whitespace is left.
    End,
    /// A command, and the position after it.
    Found(Command, int),
    /// Something that is no command.
    Broken(Flaw),
}

/// The rest of a `Set` command after its colon: `["<key>","<value>"]}`.
pub open spec fn set_body_at(bytes: Seq<u8>, at: int) -> Entry {
    match mark_at(bytes, at, BRACKET_OPEN) {
        None => Entry::Broken(Flaw::Structure),
        Some(at1) => match text_at(bytes, at1) {
            Err(flaw) => Entry::Broken(flaw),
            Ok((key, at2)) => match mark_at(bytes, at2, COMMA) {
                None => Entry::Broken(Flaw::Structure),
                Some(at3) => match text_at(bytes, at3) {
                    Err(flaw) => Entry::Broken(flaw),
                    Ok((value, at4)) => match mark_at(bytes, at4, BRACKET_CLOSE) {
                        None => Entry::Broken(Flaw::Structure),
                        Some(at5) => match mark_at(bytes, at5, BRACE_CLOSE) {
                            None => Entry::Broken(Flaw::Structure),
                            Some(end) => Entry::Found(Command::Put(key, value), end),
                        },
                    },
                },
            },
        },
    }
}

/// The rest of a `Remove` command after its colon: `"<key>"}`.
pub open spec fn remove_body_at(bytes: Seq<u8>, at: int) -> Entry {
    match text_at(bytes, at) {
        Err(flaw) => Entry::Broken(flaw),
        Ok((key, at1)) => match mark_at(bytes, at1, BRACE_CLOSE) {
            None => Entry::Broken(Flaw::Structure),
            Some(end) => Entry::Found(Command::Remove(key), end),
        },
    }
}

/// What stands in `bytes` at `at`: whitespace, then either the end of the
/// bytes or one command. Whitespace may stand between the marks and the
/// string literals of a command.
#[verifier::opaque]
pub open spec fn entry_at(bytes: Seq<u8>, at: int) -> Entry {
    if spaces_end(bytes, at) >= bytes.len() {
        Entry::End
    } else {
        match mark_at(bytes, at, BRACE_OPEN) {
            None => Entry::Broken(Flaw::Structure),
            Some(at1) => match text_at(bytes, at1) {
                Err(flaw) => Entry::Broken(flaw),
                Ok((tag, at2)) => match mark_at(bytes, at2, COLON) {
                    None => Entry::Broken(Flaw::Structure),
                    Some(at3) => if tag == set_tag() {
                        set_body_at(bytes, at3)
                    } else if tag == remove_tag() {
                        remove_body_at(bytes, at3)
                    } else {
                        Entry::Broken(Flaw::Structure)
                    },
                },
            },
        }
    }
}

/// What `bytes` hold when they are to hold one command and nothing else but
/// whitespace.
pub open spec fn decoded(bytes: Seq<u8>) -> Result<Command, Flaw> {
    match entry_at(bytes, 0) {
        Entry::End => Err(Flaw::Structure),
        Entry::Broken(flaw) => Err(flaw),
        Entry::Found(cmd, end) => if spaces_end(bytes, end) >= bytes.len() {
            Ok(cmd)
        } else {
            Err(Flaw::Structure)
        },
    }
}

/// The error that reports a flaw.
pub open spec fn reports(e: KvError, flaw: Flaw) -> bool {
    match flaw {
        Flaw::Structure => e is UnexpectedAction,
        Flaw::Text => e is Serde,
    }
}

/// A mark that stands right at `at` is found there.
pub proof fn lemma_mark_here(bytes: Seq<u8>, at: int, mark: u8)
    requires
        0 <= at < bytes.len(),
        bytes[at] == mark,
        !is_space(mark),
    ensures
        spaces_end(bytes, at) == at,
        mark_at(bytes, at, mark) == Some(at + 1),
{
}

/// A whole literal that stands right at `at` is read there, with the text
/// that `serde_json` reads from it.
pub proof fn lemma_text_here(bytes: Seq<u8>, at: int, literal: Seq<u8>, text: Seq<char>)
    requires
        0 <= at,
        at + literal.len() <= bytes.len(),
        bytes.subrange(at, at + literal.len()) == literal,
        is_literal(literal),
        json_literal_text(literal) == Some(text),
    ensures
        text_at(bytes, at) == Ok::<(Seq<char>, int), Flaw>((text, at + literal.len())),
{
    assert(same_window(literal, bytes, 0, literal.len() as int, at)) by {
        assert forall|j: int| 0 <= j < literal.len() implies #[trigger] literal[j] == bytes[j
            + at] by {
            assert(bytes.subrange(at, at + literal.len())[j] == bytes[j + at]);
        }
    }
    assert(bytes[at] == literal[0]);
    lemma_mark_here(bytes, at, QUOTE);
    lemma_literal_end_window(literal, bytes, 0, literal.len() as int, at, 1);
}

/// A command is found after the place where it was looked for, and within
/// the bytes.
pub proof fn lemma_entry_bounds(bytes: Seq<u8>, at: int)
    requires
        0 <= at <= bytes.len(),
        entry_at(bytes, at) is Found,
    ensures
        at < entry_at(bytes, at)->Found_1 <= bytes.len(),
{
    reveal(entry_at);
    lemma_mark_bounds(bytes, at, BRACE_OPEN);
    let at1 = mark_at(bytes, at, BRACE_OPEN).unwrap();
    lemma_text_bounds(bytes, at1);
    let (tag, at2) = text_at(bytes, at1).unwrap();
    lemma_mark_bounds(bytes, at2, COLON);
    let at3 = mark_at(bytes, at2, COLON).unwrap();
    if tag == set_tag() {
        lemma_mark_bounds(bytes, at3, BRACKET_OPEN);
        let at4 = mark_at(bytes, at3, BRACKET_OPEN).unwrap();
        lemma_text_bounds(bytes, at4);
        let at5 = text_at(bytes, at4).unwrap().1;
        lemma_mark_bounds(bytes, at5, COMMA);
        let at6 = mark_at(bytes, at5, COMMA).unwrap();
        lemma_text_bounds(bytes, at6);
        let at7 = text_at(bytes, at6).unwrap().1;
        lemma_mark_bounds(bytes, at7, BRACKET_CLOSE);
        let at8 = mark_at(bytes, at7, BRACKET_CLOSE).unwrap();
        lemma_mark_bounds(bytes, at8, BRACE_CLOSE);
    } else {
        lemma_text_bounds(bytes, at3);
        let at4 = text_at(bytes, at3).unwrap().1;
        lemma_mark_bounds(bytes, at4, BRACE_CLOSE);
    }
}

/// The log ends at a place exactly where nothing but whitespace is left.
pub proof fn lemma_entry_end(bytes: Seq<u8>, at: int)
    ensures
        entry_at(bytes, at) is End <==> spaces_end(bytes, at) >= bytes.len(),
{
    reveal(entry_at);
}

/// What stands at a place does not depend on the whitespace that comes
/// first: two places from which whitespace ends at the same byte hold the
/// same thing.
pub proof fn lemma_entry_after_spaces(bytes: Seq<u8>, at: int, other: int)
    requires
        spaces_end(bytes, at) == spaces_end(bytes, other),
    ensures
        entry_at(bytes, at) == entry_at(bytes, other),
{
    reveal(entry_at);
}

/// A command found inside a window is found, the same command at the same
/// place of the window, wherever the window stands: neither what comes
/// before a command nor what follows it changes how it reads.
pub proof fn lemma_entry_window(a: Seq<u8>, b: Seq<u8>, lo: int, hi: int, shift: int, at: int)
    requires
        same_window(a, b, lo, hi, shift),
        lo <= at,
        entry_at(a, at) is Found,
        entry_at(a, at)->Found_1 <= hi,
    ensures
        entry_at(b, at + shift) == Entry::Found(
            entry_at(a, at)->Found_0,
            entry_at(a, at)->Found_1 + shift,
        ),
{
    reveal(entry_at);
    lemma_entry_bounds(a, at);
    lemma_spaces_end_bounds(a, at);
    lemma_mark_bounds(a, at, BRACE_OPEN);
    let at1 = mark_at(a, at, BRACE_OPEN).unwrap();
    lemma_text_bounds(a, at1);
    let (tag, at2) = text_at(a, at1).unwrap();
    lemma_mark_bounds(a, at2, COLON);
    let at3 = mark_at(a, at2, COLON).unwrap();
    if tag == set_tag() {
        lemma_mark_bounds(a, at3, BRACKET_OPEN);
        let at4 = mark_at(a, at3, BRACKET_OPEN).unwrap();
        lemma_text_bounds(a, at4);
        let at5 = text_at(a, at4).unwrap().1;
        lemma_mark_bounds(a, at5, COMMA);
        let at6 = mark_at(a, at5, COMMA).unwrap();
        lemma_text_bounds(a, at6);
        let at7 = text_at(a, at6).unwrap().1;
        lemma_mark_bounds(a, at7, BRACKET_CLOSE);
        let at8 = mark_at(a, at7, BRACKET_CLOSE).unwrap();
        lemma_mark_bounds(a, at8, BRACE_CLOSE);
        lemma_spaces_end_window(a, b, lo, hi, shift, at);
        lemma_mark_window(a, b, lo, hi, shift, at, BRACE_OPEN);
        lemma_text_window(a, b, lo, hi, shift, at1);
        lemma_mark_window(a, b, lo, hi, shift, at2, COLON);
        lemma_mark_window(a, b, lo, hi, shift, at3, BRACKET_OPEN);
        lemma_text_window(a, b, lo, hi, shift, at4);
        lemma_mark_window(a, b, lo, hi, shift, at5, COMMA);
        lemma_text_window(a, b, lo, hi, shift, at6);
        lemma_mark_window(a, b, lo, hi, shift, at7, BRACKET_CLOSE);
        lemma_mark_window(a, b, lo, hi, shift, at8, BRACE_CLOSE);
    } else {
        lemma_text_bounds(a, at3);
        let at4 = text_at(a, at3).unwrap().1;
        lemma_mark_bounds(a, at4, BRACE_CLOSE);
        lemma_spaces_end_window(a, b, lo, hi, shift, at);
        lemma_mark_window(a, b, lo, hi, shift, at, BRACE_OPEN);
        lemma_text_window(a, b, lo, hi, shift, at1);
        lemma_mark_window(a, b, lo, hi, shift, at2, COLON);
        lemma_text_window(a, b, lo, hi, shift, at3);
        lemma_mark_window(a, b, lo, hi, shift, at4, BRACE_CLOSE);
    }
}

/// A `Set` command that is framed around whole literals reads back as the
/// command of the texts that the literals hold.
pub proof fn lemma_put_frame_reads(
    tag: Seq<u8>,
    first: Seq<u8>,
    second: Seq<u8>,
    key: Seq<char>,
    value: Seq<char>,
)
    requires
        is_literal(tag),
        is_literal(first),
        is_literal(second),
        json_literal_text(tag) == Some(set_tag()),
        json_literal_text(first) == Some(key),
        json_literal_text(second) == Some(value),
    ensures
        entry_at(put_frame(tag, first, second), 0) == Entry::Found(
            Command::Put(key, value),
            put_frame(tag, first, second).len() as int,
        ),
{
    reveal(entry_at);
    let b = put_frame(tag, first, second);
    let at1: int = tag.len() as int + 1;
    let at2: int = at1 + 2 + first.len();
    let at3: int = at2 + 1 + second.len();
    assert(b.subrange(1, at1) =~= tag);
    assert(b.subrange(at1 + 2, at2) =~= first);
    assert(b.subrange(at2 + 1, at3) =~= second);
    lemma_mark_here(b, 0, BRACE_OPEN);
    lemma_text_here(b, 1, tag, set_tag());
    lemma_mark_here(b, at1, COLON);
    lemma_mark_here(b, at1 + 1, BRACKET_OPEN);
    lemma_text_here(b, at1 + 2, first, key);
    lemma_mark_here(b, at2, COMMA);
    lemma_text_here(b, at2 + 1, second, value);
    lemma_mark_here(b, at3, BRACKET_CLOSE);
    lemma_mark_here(b, at3 + 1, BRACE_CLOSE);
}

/// A `Remove` command that is framed around whole literals reads back as
/// the command of the text that the literal holds.
pub proof fn lemma_remove_frame_reads(tag: Seq<u8>, first: Seq<u8>, key: Seq<char>)
    requires
        is_literal(tag),
        is_literal(first),
        json_literal_text(tag) == Some(remove_tag()),
        json_literal_text(first) == Some(key),
    ensures
        entry_at(remove_frame(tag, first), 0) == Entry::Found(
            Command::Remove(key),
            remove_frame(tag, first).len() as int,
        ),
{
    reveal(entry_at);
    let b = remove_frame(tag, first);
    let at1: int = tag.len() as int + 1;
    let at2: int = at1 + 1 + first.len();
    assert(b.subrange(1, at1) =~= tag);
    assert(b.subrange(at1 + 1, at2) =~= first);
    lemma_tags_differ();
    lemma_mark_here(b, 0, BRACE_OPEN);
    lemma_text_here(b, 1, tag, remove_tag());
    lemma_mark_here(b, at1, COLON);
    lemma_text_here(b, at1 + 1, first, key);
    lemma_mark_here(b, at2, BRACE_CLOSE);
}

/// The two names are not the same.
pub proof fn lemma_tags_differ()
    ensures
        set_tag() != remove_tag(),
{
    reveal_strlit("Set");
    reveal_strlit("Remove");
    assert(set_tag().len() == 3);
    assert(remove_tag().len() == 6);
}

/// Appends `part` to `out`.
fn put(out: &mut Vec<u8>, part: Vec<u8>)
    ensures
        final(out)@ == old(out)@ + part@,
{
    let mut part = part;
    out.append(&mut part);
}

/// Frames a `Set` command around the literals of its name, its key and its
/// value.
pub fn frame_put(tag: Vec<u8>, key: Vec<u8>, value: Vec<u8>) -> (out: Vec<u8>)
    ensures
        out@ == put_frame(tag@, key@, value@),
{
    let mut out: Vec<u8> = Vec::new();
    out.push(BRACE_OPEN);
    put(&mut out, tag);
    out.push(COLON);
    out.push(BRACKET_OPEN);
    put(&mut out, key);
    out.push(COMMA);
    put(&mut out, value);
    out.push(BRACKET_CLOSE);
    out.push(BRACE_CLOSE);
    assert(out@ =~= put_frame(tag@, key@, value@));
    out
}

/// Frames a `Remove` command around the literals of its name and its key.
pub fn frame_remove(tag: Vec<u8>, key: Vec<u8>) -> (out: Vec<u8>)
    ensures
        out@ == remove_frame(tag@, key@),
{
    let mut out: Vec<u8> = Vec::new();
    out.push(BRACE_OPEN);
    put(&mut out, tag);
    out.push(COLON);
    put(&mut out, key);
    out.push(BRACE_CLOSE);
    assert(out@ =~= remove_frame(tag@, key@));
    out
}

/// Writes a command in its wire form. The strings of the form are written
/// by `serde_json`, which does not fail on a string. What comes back is
/// `canonical` of the command, and reads back as the command.
pub fn encode(action: &KvAction) -> (r: Result<Vec<u8>, KvError>)
    ensures
        r matches Ok(bytes) && bytes@ == canonical(action@) && entry_at(bytes@, 0)
            == Entry::Found(action@, bytes@.len() as int),
{
    match action {
        KvAction::Put(key, value) => {
            let tag = match quote("Set") {
                Ok(literal) => literal,
                Err(e) => { return Err(KvError::Serde(e)); },
            };
            let first = match quote(key.as_str()) {
                Ok(literal) => literal,
                Err(e) => { return Err(KvError::Serde(e)); },
            };
            let second = match quote(value.as_str()) {
                Ok(literal) => literal,
                Err(e) => { return Err(KvError::Serde(e)); },
            };
            proof {
                lemma_put_frame_reads(tag@, first@, second@, key@, value@);
            }
            Ok(frame_put(tag, first, second))
        },
        KvAction::Remove(key) => {
            let tag = match quote("Remove") {
                Ok(literal) => literal,
                Err(e) => { return Err(KvError::Serde(e)); },
            };
            let first = match quote(key.as_str()) {
                Ok(literal) => literal,
                Err(e) => { return Err(KvError::Serde(e)); },
            };
            proof {
                lemma_remove_frame_reads(tag@, first@, key@);
            }
            Ok(frame_remove(tag, first))
        },
    }
}

/// The kind of command that a name stands for, `None` for a name that
/// stands for none.
pub fn tag_named(name: &str) -> (r: Option<Tag>)
    ensures
        r == tag_of(name@),
{
    let text = name.to_owned();
    if text == "Set".to_owned() {
        Some(Tag::Put)
    } else if text == "Remove".to_owned() {
        Some(Tag::Remove)
    } else {
        None
    }
}

/// Reads what stands at `at`: `None` at the end of the bytes, else one
/// command with the position after it.
pub fn read_entry(bytes: &[u8], at: usize) -> (r: Result<Option<(KvAction, usize)>, KvError>)
    requires
        at <= bytes@.len(),
    ensures
        match r {
            Ok(None) => entry_at(bytes@, at as int) == Entry::End,
            Ok(Some((action, end))) => entry_at(bytes@, at as int) == Entry::Found(
                action@,
                end as int,
            ) && at < end <= bytes@.len(),
            Err(e) => entry_at(bytes@, at as int) matches Entry::Broken(flaw) && reports(e, flaw),
        },
{
    proof {
        reveal(entry_at);
    }
    if skip_spaces(bytes, at) >= bytes.len() {
        return Ok(None);
    }
    let at1 = match read_mark(bytes, at, BRACE_OPEN) {
        Some(next) => next,
        None => { return Err(KvError::UnexpectedAction); },
    };
    let (tag, at2) = match read_text(bytes, at1) {
        Ok(found) => found,
        Err(e) => { return Err(e); },
    };
    let at3 = match read_mark(bytes, at2, COLON) {
        Some(next) => next,
        None => { return Err(KvError::UnexpectedAction); },
    };
    let kind = tag_named(tag.as_str());
    proof {
        lemma_tags_differ();
    }
    if let Some(Tag::Put) = kind {
        let at4 = match read_mark(bytes, at3, BRACKET_OPEN) {
            Some(next) => next,
            None => { return Err(KvError::UnexpectedAction); },
        };
        let (key, at5) = match read_text(bytes, at4) {
            Ok(found) => found,
            Err(e) => { return Err(e); },
        };
        let at6 = match read_mark(bytes, at5, COMMA) {
            Some(next) => next,
            None => { return Err(KvError::UnexpectedAction); },
        };
        let (value, at7) = match read_text(bytes, at6) {
            Ok(found) => found,
            Err(e) => { return Err(e); },
        };
        let at8 = match read_mark(bytes, at7, BRACKET_CLOSE) {
            Some(next) => next,
            None => { return Err(KvError::UnexpectedAction); },
        };
        match read_mark(bytes, at8, BRACE_CLOSE) {
            Some(end) => Ok(Some((KvAction::Put(key, value), end))),
            None => Err(KvError::UnexpectedAction),
        }
    } else if let Some(Tag::Remove) = kind {
        let (key, at4) = match read_text(bytes, at3) {
            Ok(found) => found,
            Err(e) => { return Err(e); },
        };
        match read_mark(bytes, at4, BRACE_CLOSE) {
            Some(end) => Ok(Some((KvAction::Remove(key), end))),
            None => Err(KvError::UnexpectedAction),
        }
    } else {
        Err(KvError::UnexpectedAction)
    }
}

/// Reads the one command that `bytes` hold. Anything but whitespace before
/// or after it, or no command at all, is damage.
pub fn decode(bytes: &[u8]) -> (r: Result<KvAction, KvError>)
    ensures
        match r {
            Ok(action) => decoded(bytes@) == Ok::<Command, Flaw>(action@),
            Err(e) => decoded(bytes@) matches Err(flaw) && reports(e, flaw),
        },
{
    match read_entry(bytes, 0) {
        Err(e) => Err(e),
        Ok(None) => Err(KvError::UnexpectedAction),
        Ok(Some((action, end))) => {
            if skip_spaces(bytes, end) >= bytes.len() {
                Ok(action)
            } else {
                Err(KvError::UnexpectedAction)
            }
        },
    }
}

} // verus!
