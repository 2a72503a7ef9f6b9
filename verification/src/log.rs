//! What a log means, and how the index is rebuilt from it.
//!
//! A store directory is a list of segments in ascending order of
//! generation. Read from the front, the commands of all segments give the
//! visible state of the store: each `Set` binds its key, each `Remove`
//! unbinds it. The index is rebuilt by the same walk; it keeps, for each
//! bound key, the place of the command that bound it, and counts the bytes
//! of the commands that no longer matter.
use crate::command::{
    entry_at, lemma_entry_after_spaces, lemma_entry_bounds, lemma_entry_end, lemma_entry_window,
    read_entry, reports, Command, Entry, KvAction,
};
use crate::error::KvError;
use crate::index::{KvIndex, KvIndexRecord};
use crate::json::{lemma_spaces_run_on, same_window, Flaw};
use crate::kvreader::{KvReader, SeekFrom};
use vstd::prelude::*;

verus! {

/// The state after a command.
pub open spec fn apply(state: Map<Seq<char>, Seq<char>>, cmd: Command) -> Map<
    Seq<char>,
    Seq<char>,
> {
    match cmd {
        Command::Put(key, value) => state.insert(key, value),
        Command::Remove(key) => state.remove(key),
    }
}

/// The state after the commands that stand in `bytes` from `at` on, or the
/// flaw of the first stretch that is no command.
pub open spec fn replay_from(bytes: Seq<u8>, at: int, state: Map<Seq<char>, Seq<char>>) -> Result<
    Map<Seq<char>, Seq<char>>,
    Flaw,
>
    decreases bytes.len() - at,
{
    match entry_at(bytes, at) {
        Entry::End => Ok(state),
        Entry::Broken(flaw) => Err(flaw),
        Entry::Found(cmd, next) => if at < next <= bytes.len() {
            replay_from(bytes, next, apply(state, cmd))
        } else {
            Err(Flaw::Structure)
        },
    }
}

/// The state after the commands of all segments, first segment first.
pub open spec fn replay(segments: Seq<(u64, Seq<u8>)>) -> Result<Map<Seq<char>, Seq<char>>, Flaw>
    decreases segments.len(),
{
    if segments.len() == 0 {
        Ok(Map::empty())
    } else {
        match replay(segments.drop_last()) {
            Ok(state) => replay_from(segments.last().1, 0, state),
            Err(flaw) => Err(flaw),
        }
    }
}

/// The record of a command that stands from `at` to `next` in a segment.
pub open spec fn record_of(generation: u64, at: int, next: int) -> KvIndexRecord {
    KvIndexRecord { generation, offset: at as u64, length: (next - at) as u64 }
}

/// The length of the record that `key` has in the index, 0 if it has none.
pub open spec fn prior_length(index: Map<Seq<char>, KvIndexRecord>, key: Seq<char>) -> nat {
    if index.contains_key(key) {
        index[key].length as nat
    } else {
        0
    }
}

/// The index after a command that stands at `record`.
pub open spec fn index_after(
    index: Map<Seq<char>, KvIndexRecord>,
    cmd: Command,
    record: KvIndexRecord,
) -> Map<Seq<char>, KvIndexRecord> {
    match cmd {
        Command::Put(key, _) => index.insert(key, record),
        Command::Remove(key) => index.remove(key),
    }
}

/// The bytes that a command at `record` makes stale: the record it
/// replaces or removes, and a `Remove` command itself.
pub open spec fn stale_after(
    index: Map<Seq<char>, KvIndexRecord>,
    cmd: Command,
    record: KvIndexRecord,
) -> nat {
    match cmd {
        Command::Put(key, _) => prior_length(index, key),
        Command::Remove(key) => prior_length(index, key) + record.length as nat,
    }
}

/// The index and the count of stale bytes after the commands that stand in
/// segment `generation` from `at` on.
pub open spec fn load_from(
    bytes: Seq<u8>,
    generation: u64,
    at: int,
    index: Map<Seq<char>, KvIndexRecord>,
    stale: nat,
) -> Result<(Map<Seq<char>, KvIndexRecord>, nat), Flaw>
    decreases bytes.len() - at,
{
    match entry_at(bytes, at) {
        Entry::End => Ok((index, stale)),
        Entry::Broken(flaw) => Err(flaw),
        Entry::Found(cmd, next) => if at < next <= bytes.len() {
            let record = record_of(generation, at, next);
            load_from(
                bytes,
                generation,
                next,
                index_after(index, cmd, record),
                stale + stale_after(index, cmd, record),
            )
        } else {
            Err(Flaw::Structure)
        },
    }
}

/// The index and the count of stale bytes after all segments.
pub open spec fn load_all(segments: Seq<(u64, Seq<u8>)>) -> Result<
    (Map<Seq<char>, KvIndexRecord>, nat),
    Flaw,
>
    decreases segments.len(),
{
    if segments.len() == 0 {
        Ok((Map::empty(), 0nat))
    } else {
        match load_all(segments.drop_last()) {
            Ok((index, stale)) => match load_from(
                segments.last().1,
                segments.last().0,
                0,
                index,
                0,
            ) {
                Ok((loaded, more)) => Ok((loaded, stale + more)),
                Err(flaw) => Err(flaw),
            },
            Err(flaw) => Err(flaw),
        }
    }
}

/// A count of bytes as the store holds it: it stops at the largest number
/// that 64 bits hold.
pub open spec fn saturate(count: nat) -> u64 {
    if count > u64::MAX {
        u64::MAX
    } else {
        count as u64
    }
}

/// The bytes of a segment that a record points at.
pub open spec fn slice_of(bytes: Seq<u8>, record: KvIndexRecord) -> Seq<u8> {
    bytes.subrange(record.offset as int, record.offset + record.length)
}

/// The bytes that `record` points at are, from the first to the last, one
/// `Set` command for `key`.
pub open spec fn holds_put(bytes: Seq<u8>, record: KvIndexRecord, key: Seq<char>) -> bool {
    &&& record.offset + record.length <= bytes.len()
    &&& entry_at(slice_of(bytes, record), 0) is Found
    &&& entry_at(slice_of(bytes, record), 0)->Found_0 is Put
    &&& entry_at(slice_of(bytes, record), 0)->Found_0->Put_0 == key
    &&& entry_at(slice_of(bytes, record), 0)->Found_1 == record.length
}

/// The value of the `Set` command that `record` points at.
pub open spec fn value_in(bytes: Seq<u8>, record: KvIndexRecord) -> Seq<char> {
    entry_at(slice_of(bytes, record), 0)->Found_0->Put_1
}

/// Each segment has a smaller generation than the next.
pub open spec fn generations_ascend(segments: Seq<(u64, Seq<u8>)>) -> bool {
    forall|i: int, j: int| 0 <= i < j < segments.len() ==> segments[i].0 < segments[j].0
}

/// One of the segments has this generation.
pub open spec fn has_generation(segments: Seq<(u64, Seq<u8>)>, generation: u64) -> bool {
    exists|i: int| 0 <= i < segments.len() && #[trigger] segments[i].0 == generation
}

/// The bytes of the segment with this generation.
pub open spec fn bytes_of(segments: Seq<(u64, Seq<u8>)>, generation: u64) -> Seq<u8> {
    segments[choose|i: int| 0 <= i < segments.len() && #[trigger] segments[i].0 == generation].1
}

/// Every record of the index points at a `Set` command for its key.
pub open spec fn faithful(
    index: Map<Seq<char>, KvIndexRecord>,
    segments: Seq<(u64, Seq<u8>)>,
) -> bool {
    forall|key: Seq<char>| #[trigger]
        index.contains_key(key) ==> has_generation(segments, index[key].generation) && holds_put(
            bytes_of(segments, index[key].generation),
            index[key],
            key,
        )
}

/// The state that an index shows: each key with the value of the command
/// that its record points at.
pub open spec fn visible(
    index: Map<Seq<char>, KvIndexRecord>,
    segments: Seq<(u64, Seq<u8>)>,
) -> Map<Seq<char>, Seq<char>> {
    Map::new(
        |key: Seq<char>| index.contains_key(key),
        |key: Seq<char>| value_in(bytes_of(segments, index[key].generation), index[key]),
    )
}

/// The lengths of all segments, added up.
pub open spec fn total_bytes(segments: Seq<(u64, Seq<u8>)>) -> nat
    decreases segments.len(),
{
    if segments.len() == 0 {
        0
    } else {
        total_bytes(segments.drop_last()) + segments.last().1.len()
    }
}

/// A generation names one segment.
pub proof fn lemma_bytes_of(segments: Seq<(u64, Seq<u8>)>, at: int)
    requires
        generations_ascend(segments),
        0 <= at < segments.len(),
    ensures
        has_generation(segments, segments[at].0),
        bytes_of(segments, segments[at].0) == segments[at].1,
{
    let generation = segments[at].0;
    let found = choose|i: int| 0 <= i < segments.len() && #[trigger] segments[i].0 == generation;
    if found < at {
        assert(segments[found].0 < segments[at].0);
    } else if at < found {
        assert(segments[at].0 < segments[found].0);
    }
}

/// A command cut out of its segment reads as it does in the segment.
pub proof fn lemma_entry_cut(bytes: Seq<u8>, at: int)
    requires
        0 <= at <= bytes.len(),
        entry_at(bytes, at) is Found,
    ensures
        entry_at(bytes.subrange(at, entry_at(bytes, at)->Found_1), 0) == Entry::Found(
            entry_at(bytes, at)->Found_0,
            entry_at(bytes, at)->Found_1 - at,
        ),
{
    lemma_entry_bounds(bytes, at);
    let next = entry_at(bytes, at)->Found_1;
    let cut = bytes.subrange(at, next);
    assert(same_window(bytes, cut, at, next, -at));
    lemma_entry_window(bytes, cut, at, next, -at, at);
}

/// Bytes put after a log add their one command to what the log means.
pub proof fn lemma_replay_append(
    bytes: Seq<u8>,
    more: Seq<u8>,
    at: int,
    state: Map<Seq<char>, Seq<char>>,
)
    requires
        0 <= at <= bytes.len(),
        replay_from(bytes, at, state) is Ok,
        entry_at(more, 0) is Found,
        entry_at(more, 0)->Found_1 == more.len(),
    ensures
        replay_from(bytes + more, at, state) == Ok::<Map<Seq<char>, Seq<char>>, Flaw>(
            apply(replay_from(bytes, at, state).unwrap(), entry_at(more, 0)->Found_0),
        ),
    decreases bytes.len() - at,
{
    let all = bytes + more;
    match entry_at(bytes, at) {
        Entry::End => {
            lemma_entry_end(bytes, at);
            lemma_spaces_run_on(bytes, more, at);
            assert(same_window(more, all, 0, more.len() as int, bytes.len() as int));
            lemma_entry_window(more, all, 0, more.len() as int, bytes.len() as int, 0);
            lemma_entry_bounds(more, 0);
            lemma_entry_after_spaces(all, at, bytes.len() as int);
            lemma_entry_end(all, all.len() as int);
            let cmd = entry_at(more, 0)->Found_0;
            assert(replay_from(all, all.len() as int, apply(state, cmd)) == Ok::<
                Map<Seq<char>, Seq<char>>,
                Flaw,
            >(apply(state, cmd)));
            assert(entry_at(all, at) == Entry::Found(cmd, all.len() as int));
        },
        Entry::Broken(_) => {},
        Entry::Found(cmd, next) => {
            lemma_entry_bounds(bytes, at);
            assert(same_window(bytes, all, 0, bytes.len() as int, 0));
            lemma_entry_window(bytes, all, 0, bytes.len() as int, 0, at);
            assert(entry_at(all, at) == Entry::Found(cmd, next));
            assert(replay_from(bytes, at, state) == replay_from(bytes, next, apply(state, cmd)));
            lemma_replay_append(bytes, more, next, apply(state, cmd));
            assert(replay_from(all, at, state) == replay_from(all, next, apply(state, cmd)));
        },
    }
}

/// A segment put behind the others leaves what the index shows as it was.
pub proof fn lemma_push_segment(
    index: Map<Seq<char>, KvIndexRecord>,
    segments: Seq<(u64, Seq<u8>)>,
    segment: (u64, Seq<u8>),
)
    requires
        faithful(index, segments),
        generations_ascend(segments.push(segment)),
    ensures
        faithful(index, segments.push(segment)),
        visible(index, segments.push(segment)) == visible(index, segments),
{
    let longer = segments.push(segment);
    assert(generations_ascend(segments)) by {
        assert forall|i: int, j: int| 0 <= i < j < segments.len() implies segments[i].0
            < segments[j].0 by {
            assert(longer[i].0 < longer[j].0);
        }
    }
    assert forall|key: Seq<char>| #[trigger] index.contains_key(key) implies has_generation(
        longer,
        index[key].generation,
    ) && bytes_of(longer, index[key].generation) == bytes_of(segments, index[key].generation) by {
        let generation = index[key].generation;
        let i = choose|i: int| 0 <= i < segments.len() && #[trigger] segments[i].0 == generation;
        lemma_bytes_of(segments, i);
        assert(longer[i] == segments[i]);
        lemma_bytes_of(longer, i);
    }
    assert(visible(index, longer) =~= visible(index, segments));
}

/// Bytes put after the last segment leave what the index shows as it was.
pub proof fn lemma_grow_segment(
    index: Map<Seq<char>, KvIndexRecord>,
    segments: Seq<(u64, Seq<u8>)>,
    more: Seq<u8>,
)
    requires
        segments.len() > 0,
        faithful(index, segments),
        generations_ascend(segments),
    ensures
        generations_ascend(
            segments.update(
                segments.len() - 1,
                (segments.last().0, segments.last().1 + more),
            ),
        ),
        faithful(
            index,
            segments.update(
                segments.len() - 1,
                (segments.last().0, segments.last().1 + more),
            ),
        ),
        visible(
            index,
            segments.update(
                segments.len() - 1,
                (segments.last().0, segments.last().1 + more),
            ),
        ) == visible(index, segments),
{
    let last = segments.len() - 1;
    let grown = segments.update(last, (segments.last().0, segments.last().1 + more));
    assert(generations_ascend(grown)) by {
        assert forall|i: int, j: int| 0 <= i < j < grown.len() implies grown[i].0 < grown[j].0 by {
            assert(segments[i].0 < segments[j].0);
        }
    }
    assert forall|key: Seq<char>| #[trigger] index.contains_key(key) implies has_generation(
        grown,
        index[key].generation,
    ) && holds_put(bytes_of(grown, index[key].generation), index[key], key) && value_in(
        bytes_of(grown, index[key].generation),
        index[key],
    ) == value_in(bytes_of(segments, index[key].generation), index[key]) by {
        let record = index[key];
        let i = choose|i: int|
            0 <= i < segments.len() && #[trigger] segments[i].0 == record.generation;
        lemma_bytes_of(segments, i);
        assert(grown[i].0 == record.generation);
        lemma_bytes_of(grown, i);
        if i == last {
            assert(slice_of(grown[i].1, record) =~= slice_of(segments[i].1, record));
        }
    }
    assert(visible(index, grown) =~= visible(index, segments));
}

/// Rebuilding the index over the last segment keeps it faithful, and what
/// it then shows is what the commands of the segment make of what it
/// showed before.
pub proof fn lemma_load_replays(
    segments: Seq<(u64, Seq<u8>)>,
    at: int,
    index: Map<Seq<char>, KvIndexRecord>,
    stale: nat,
)
    requires
        segments.len() > 0,
        generations_ascend(segments),
        0 <= at <= segments.last().1.len() <= u64::MAX,
        faithful(index, segments),
        load_from(segments.last().1, segments.last().0, at, index, stale) is Ok,
    ensures
        faithful(
            load_from(segments.last().1, segments.last().0, at, index, stale).unwrap().0,
            segments,
        ),
        replay_from(segments.last().1, at, visible(index, segments)) == Ok::<
            Map<Seq<char>, Seq<char>>,
            Flaw,
        >(
            visible(
                load_from(segments.last().1, segments.last().0, at, index, stale).unwrap().0,
                segments,
            ),
        ),
    decreases segments.last().1.len() - at,
{
    let bytes = segments.last().1;
    let generation = segments.last().0;
    match entry_at(bytes, at) {
        Entry::End => {},
        Entry::Broken(_) => {},
        Entry::Found(cmd, next) => {
            lemma_entry_bounds(bytes, at);
            lemma_entry_cut(bytes, at);
            lemma_bytes_of(segments, segments.len() - 1);
            let record = record_of(generation, at, next);
            let after = index_after(index, cmd, record);
            assert(slice_of(bytes, record) =~= bytes.subrange(at, next));
            assert(faithful(after, segments)) by {
                assert forall|key: Seq<char>| #[trigger] after.contains_key(key) implies has_generation(
                    segments,
                    after[key].generation,
                ) && holds_put(bytes_of(segments, after[key].generation), after[key], key) by {
                    if cmd is Put && key == cmd->Put_0 {
                    } else {
                        assert(index.contains_key(key));
                    }
                }
            }
            assert(visible(after, segments) =~= apply(visible(index, segments), cmd));
            lemma_load_replays(segments, next, after, stale + stale_after(index, cmd, record));
        },
    }
}

/// The walk that rebuilds the index stops where the walk that gives the
/// state stops, and for the same reason.
pub proof fn lemma_load_follows_replay(
    bytes: Seq<u8>,
    generation: u64,
    at: int,
    index: Map<Seq<char>, KvIndexRecord>,
    stale: nat,
    state: Map<Seq<char>, Seq<char>>,
)
    ensures
        match replay_from(bytes, at, state) {
            Ok(_) => load_from(bytes, generation, at, index, stale) is Ok,
            Err(flaw) => load_from(bytes, generation, at, index, stale) == Err::<
                (Map<Seq<char>, KvIndexRecord>, nat),
                Flaw,
            >(flaw),
        },
    decreases bytes.len() - at,
{
    match entry_at(bytes, at) {
        Entry::End => {},
        Entry::Broken(_) => {},
        Entry::Found(cmd, next) => {
            if at < next <= bytes.len() {
                let record = record_of(generation, at, next);
                lemma_load_follows_replay(
                    bytes,
                    generation,
                    next,
                    index_after(index, cmd, record),
                    stale + stale_after(index, cmd, record),
                    apply(state, cmd),
                );
            }
        },
    }
}

/// A log that gives a state is a log from which the index is rebuilt.
pub proof fn lemma_load_all_follows_replay(segments: Seq<(u64, Seq<u8>)>)
    requires
        replay(segments) is Ok,
    ensures
        load_all(segments) is Ok,
    decreases segments.len(),
{
    if segments.len() > 0 {
        lemma_load_all_follows_replay(segments.drop_last());
        let (index, stale) = load_all(segments.drop_last()).unwrap();
        lemma_load_follows_replay(
            segments.last().1,
            segments.last().0,
            0,
            index,
            0,
            replay(segments.drop_last()).unwrap(),
        );
    }
}

/// The state after the commands of all segments, first segment first,
/// when the walk starts from `state`.
pub open spec fn replay_onto(
    segments: Seq<(u64, Seq<u8>)>,
    state: Map<Seq<char>, Seq<char>>,
) -> Result<Map<Seq<char>, Seq<char>>, Flaw>
    decreases segments.len(),
{
    if segments.len() == 0 {
        Ok(state)
    } else {
        match replay_onto(segments.drop_last(), state) {
            Ok(earlier) => replay_from(segments.last().1, 0, earlier),
            Err(flaw) => Err(flaw),
        }
    }
}

/// `upper` holds all of `lower`, and what it holds besides is from `base`.
pub open spec fn overlays(
    upper: Map<Seq<char>, Seq<char>>,
    lower: Map<Seq<char>, Seq<char>>,
    base: Map<Seq<char>, Seq<char>>,
) -> bool {
    &&& forall|key: Seq<char>| #[trigger]
        lower.contains_key(key) ==> upper.contains_key(key) && upper[key] == lower[key]
    &&& forall|key: Seq<char>| #[trigger]
        upper.contains_key(key) ==> lower.contains_key(key) || (base.contains_key(key)
            && upper[key] == base[key])
}

/// What a log means is what it makes of the empty state.
pub proof fn lemma_replay_onto_empty(segments: Seq<(u64, Seq<u8>)>)
    ensures
        replay(segments) == replay_onto(segments, Map::empty()),
    decreases segments.len(),
{
    if segments.len() > 0 {
        lemma_replay_onto_empty(segments.drop_last());
    }
}

/// Reading two lists of segments one after the other is reading them as one
/// list.
pub proof fn lemma_replay_onto_split(
    first: Seq<(u64, Seq<u8>)>,
    second: Seq<(u64, Seq<u8>)>,
    state: Map<Seq<char>, Seq<char>>,
)
    ensures
        replay_onto(first + second, state) == (match replay_onto(first, state) {
            Ok(earlier) => replay_onto(second, earlier),
            Err(flaw) => Err(flaw),
        }),
    decreases second.len(),
{
    if second.len() == 0 {
        assert(first + second =~= first);
    } else {
        assert((first + second).drop_last() =~= first + second.drop_last());
        assert((first + second).last() == second.last());
        lemma_replay_onto_split(first, second.drop_last(), state);
    }
}

/// The same commands read onto two states, one of which holds all of the
/// other, stop at the same place, and leave two states of which the one
/// still holds all of the other.
pub proof fn lemma_overlay_segment(
    bytes: Seq<u8>,
    at: int,
    upper: Map<Seq<char>, Seq<char>>,
    lower: Map<Seq<char>, Seq<char>>,
    base: Map<Seq<char>, Seq<char>>,
)
    requires
        overlays(upper, lower, base),
    ensures
        match (replay_from(bytes, at, upper), replay_from(bytes, at, lower)) {
            (Ok(above), Ok(below)) => overlays(above, below, base),
            (Err(one), Err(other)) => one == other,
            _ => false,
        },
    decreases bytes.len() - at,
{
    match entry_at(bytes, at) {
        Entry::End => {},
        Entry::Broken(_) => {},
        Entry::Found(cmd, next) => {
            if at < next <= bytes.len() {
                let above = apply(upper, cmd);
                let below = apply(lower, cmd);
                assert(overlays(above, below, base)) by {
                    assert forall|key: Seq<char>| #[trigger]
                        below.contains_key(key) implies above.contains_key(key) && above[key]
                        == below[key] by {
                        if lower.contains_key(key) {
                        }
                    }
                    assert forall|key: Seq<char>| #[trigger]
                        above.contains_key(key) implies below.contains_key(key) || (
                    base.contains_key(key) && above[key] == base[key]) by {
                        if upper.contains_key(key) {
                        }
                    }
                }
                lemma_overlay_segment(bytes, next, above, below, base);
            }
        },
    }
}

/// The same segments read onto two states, one of which holds all of the
/// other, stop at the same place, and leave two states of which the one
/// still holds all of the other.
pub proof fn lemma_overlay_segments(
    segments: Seq<(u64, Seq<u8>)>,
    upper: Map<Seq<char>, Seq<char>>,
    lower: Map<Seq<char>, Seq<char>>,
    base: Map<Seq<char>, Seq<char>>,
)
    requires
        overlays(upper, lower, base),
    ensures
        match (replay_onto(segments, upper), replay_onto(segments, lower)) {
            (Ok(above), Ok(below)) => overlays(above, below, base),
            (Err(one), Err(other)) => one == other,
            _ => false,
        },
    decreases segments.len(),
{
    if segments.len() > 0 {
        lemma_overlay_segments(segments.drop_last(), upper, lower, base);
        match (replay_onto(segments.drop_last(), upper), replay_onto(segments.drop_last(), lower)) {
            (Ok(above), Ok(below)) => {
                lemma_overlay_segment(segments.last().1, 0, above, below, base);
            },
            _ => {},
        }
    }
}

/// Adds a count of bytes to a count that stops at the largest number.
fn add_stale(count: u64, more: u64) -> (sum: u64)
    ensures
        sum == saturate(count as nat + more as nat),
{
    count.saturating_add(more)
}

/// Rebuilds the index from one segment: walks the commands of the segment
/// from its first byte, binds each key to the place of its latest `Set`
/// command, unbinds the key of each `Remove` command, and returns the count
/// of the bytes that became stale on the way. A stretch of the segment that
/// is no command ends the walk with an error, and the index stays as the
/// walk left it.
pub fn load(index: &mut KvIndex, generation: u64, reader: &mut KvReader) -> (r: Result<
    u64,
    KvError,
>)
    requires
        old(index).wf(),
    ensures
        final(index).wf(),
        final(reader).bytes() == old(reader).bytes(),
        match load_from(old(reader).bytes(), generation, 0, old(index)@, 0) {
            Ok((loaded, stale)) => r == Ok::<u64, KvError>(saturate(stale)) && final(index)@
                == loaded && final(index).live_bytes() + stale <= old(index).live_bytes() + old(
                reader,
            ).bytes().len(),
            Err(flaw) => r matches Err(e) && reports(e, flaw),
        },
{
    let size = reader.len();
    reader.seek(SeekFrom::Start(0));
    let data = reader.read(size as u64);
    let bytes = data.as_slice();
    assert(bytes@ =~= old(reader).bytes());
    let mut count: u64 = 0;
    let mut at: usize = 0;
    let ghost mut stale: nat = 0;
    loop
        invariant
            index.wf(),
            at <= bytes@.len(),
            bytes@ == old(reader).bytes(),
            reader.bytes() == old(reader).bytes(),
            count == saturate(stale),
            index.live_bytes() + stale == old(index).live_bytes() + at,
            load_from(bytes@, generation, at as int, index@, stale) == load_from(
                bytes@,
                generation,
                0,
                old(index)@,
                0,
            ),
        decreases bytes@.len() - at,
    {
        match read_entry(bytes, at) {
            Err(e) => {
                return Err(e);
            },
            Ok(None) => {
                return Ok(count);
            },
            Ok(Some((action, next))) => {
                let record = KvIndexRecord {
                    generation,
                    offset: at as u64,
                    length: (next - at) as u64,
                };
                assert(record == record_of(generation, at as int, next as int));
                proof {
                    stale = stale + stale_after(index@, action@, record);
                }
                match action {
                    KvAction::Put(key, _) => {
                        if let Some(outdated) = index.insert(key, record) {
                            count = add_stale(count, outdated.length);
                        }
                    },
                    KvAction::Remove(key) => {
                        if let Some(outdated) = index.remove(key.as_str()) {
                            count = add_stale(count, outdated.length);
                        }
                        count = add_stale(count, record.length);
                    },
                }
                at = next;
            },
        }
    }
}

} // verus!
