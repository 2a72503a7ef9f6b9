//! The store: `open`, `set`, `get`, `remove`, and compaction.
//!
//! A store holds the image of its directory: the bytes of each segment, in
//! ascending order of generation. Commands are appended to the last
//! segment, the active one. Each change to the image is also recorded, so
//! that a caller can carry it out on stable storage.
use crate::command::{
    canonical, decode, decoded, encode, lemma_entry_end, reports, Command, KvAction,
};
use crate::error::KvError;
use crate::index::{
    items_after_insert, items_after_remove, sum_lengths, KvIndex, KvIndexRecord,
};
use crate::json::Flaw;
use crate::kvreader::{KvReader, SeekFrom};
use crate::kvwriter::KvWriter;
use crate::log::{
    bytes_of, faithful, generations_ascend, has_generation, holds_put, lemma_bytes_of,
    lemma_grow_segment, lemma_load_all_follows_replay, lemma_load_replays,
    lemma_overlay_segment, lemma_overlay_segments, lemma_push_segment, lemma_replay_append,
    lemma_replay_onto_empty, lemma_replay_onto_split, load, load_all, load_from, prior_length, record_of, replay, replay_from,
    overlays, replay_onto, saturate, slice_of, total_bytes, value_in, visible,
};
use vstd::prelude::*;

verus! {

/// The count of stale bytes above which a store compacts, unless it was
/// opened with another: 1 MiB.
pub const THRESHOLD: u64 = 1048576;

/// One segment of a store: its generation and a reader over its bytes.
struct Segment {
    generation: u64,
    reader: KvReader,
}

/// A change to the store directory, for the caller to carry out.
#[derive(Debug)]
pub enum Change {
    /// Create the empty file of this generation.
    Create(u64),
    /// Append these bytes to the file of this generation.
    Append(u64, Vec<u8>),
    /// Delete the file of this generation.
    Delete(u64),
}

/// A change to the store directory, as contracts speak of it.
pub enum Effect {
    /// The empty segment of this generation is put behind the others.
    Create(u64),
    /// The segment of this generation grows by these bytes.
    Append(u64, Seq<u8>),
    /// The segment of this generation goes.
    Delete(u64),
}

impl View for Change {
    type V = Effect;

    open spec fn view(&self) -> Effect {
        match self {
            Change::Create(generation) => Effect::Create(*generation),
            Change::Append(generation, bytes) => Effect::Append(*generation, bytes@),
            Change::Delete(generation) => Effect::Delete(*generation),
        }
    }
}

/// The changes of a list, as contracts speak of them.
pub open spec fn effects(changes: Seq<Change>) -> Seq<Effect> {
    Seq::new(changes.len(), |i: int| changes[i]@)
}

/// The place of the segment with this generation.
pub open spec fn position_of(segments: Seq<(u64, Seq<u8>)>, generation: u64) -> int {
    choose|i: int| 0 <= i < segments.len() && #[trigger] segments[i].0 == generation
}

/// The image of the directory after one change. A change to a segment that
/// is not there changes nothing.
pub open spec fn effect_on(segments: Seq<(u64, Seq<u8>)>, effect: Effect) -> Seq<(u64, Seq<u8>)> {
    match effect {
        Effect::Create(generation) => segments.push((generation, Seq::empty())),
        Effect::Append(generation, bytes) => if has_generation(segments, generation) {
            let at = position_of(segments, generation);
            segments.update(at, (generation, segments[at].1 + bytes))
        } else {
            segments
        },
        Effect::Delete(generation) => if has_generation(segments, generation) {
            segments.remove(position_of(segments, generation))
        } else {
            segments
        },
    }
}

/// The image of the directory after a list of changes, first change first.
pub open spec fn carry(segments: Seq<(u64, Seq<u8>)>, changes: Seq<Effect>) -> Seq<
    (u64, Seq<u8>),
>
    decreases changes.len(),
{
    if changes.len() == 0 {
        segments
    } else {
        effect_on(carry(segments, changes.drop_last()), changes.last())
    }
}

/// The files that a caller hands to `open`, as an image of the directory.
pub open spec fn image_of(files: Seq<(u64, Vec<u8>)>) -> Seq<(u64, Seq<u8>)> {
    Seq::new(files.len(), |i: int| (files[i].0, files[i].1@))
}

/// The state after `set(key, value)`.
pub open spec fn after_set(
    state: Map<Seq<char>, Seq<char>>,
    key: Seq<char>,
    value: Seq<char>,
) -> Map<Seq<char>, Seq<char>> {
    state.insert(key, value)
}

/// The state after a `remove(key)` that succeeds.
pub open spec fn after_remove(state: Map<Seq<char>, Seq<char>>, key: Seq<char>) -> Map<
    Seq<char>,
    Seq<char>,
> {
    state.remove(key)
}

/// What `get(key)` returns in a state.
pub open spec fn found(state: Map<Seq<char>, Seq<char>>, key: Seq<char>) -> Option<Seq<char>> {
    if state.contains_key(key) {
        Some(state[key])
    } else {
        None
    }
}

/// What an optional string stands for.
pub open spec fn text_of(value: Option<String>) -> Option<Seq<char>> {
    match value {
        Some(text) => Some(text@),
        None => None,
    }
}

/// The image that readers hold.
spec fn image(readers: Seq<Segment>) -> Seq<(u64, Seq<u8>)> {
    Seq::new(readers.len(), |i: int| (readers[i].generation, readers[i].reader.bytes()))
}

/// The place of a generation in an ascending image.
proof fn lemma_position_of(segments: Seq<(u64, Seq<u8>)>, at: int)
    requires
        generations_ascend(segments),
        0 <= at < segments.len(),
    ensures
        has_generation(segments, segments[at].0),
        position_of(segments, segments[at].0) == at,
{
    let found = position_of(segments, segments[at].0);
    if found < at {
        assert(segments[found].0 < segments[at].0);
    } else if at < found {
        assert(segments[at].0 < segments[found].0);
    }
}

/// Changes carried out one list after another are the two lists carried
/// out as one.
proof fn lemma_carry_both(segments: Seq<(u64, Seq<u8>)>, first: Seq<Effect>, second: Seq<Effect>)
    ensures
        carry(segments, first + second) == carry(carry(segments, first), second),
    decreases second.len(),
{
    if second.len() == 0 {
        assert(first + second =~= first);
    } else {
        assert((first + second).drop_last() =~= first + second.drop_last());
        lemma_carry_both(segments, first, second.drop_last());
    }
}

/// One more change is carried out after the others.
proof fn lemma_carry_push(segments: Seq<(u64, Seq<u8>)>, changes: Seq<Effect>, effect: Effect)
    ensures
        carry(segments, changes.push(effect)) == effect_on(carry(segments, changes), effect),
{
    assert(changes.push(effect).drop_last() =~= changes);
}

/// A segment that grows makes the image larger by as much.
proof fn lemma_total_grow(segments: Seq<(u64, Seq<u8>)>, more: Seq<u8>)
    requires
        segments.len() > 0,
    ensures
        total_bytes(
            segments.update(
                segments.len() - 1,
                (segments.last().0, segments.last().1 + more),
            ),
        ) == total_bytes(segments) + more.len(),
{
    let grown = segments.update(segments.len() - 1, (segments.last().0, segments.last().1 + more));
    assert(grown.drop_last() =~= segments.drop_last());
}

/// A failure to load some of the segments is a failure to load all.
proof fn lemma_load_all_fails(segments: Seq<(u64, Seq<u8>)>, count: int)
    requires
        0 <= count <= segments.len(),
        load_all(segments.take(count)) is Err,
    ensures
        load_all(segments) == load_all(segments.take(count)),
    decreases segments.len() - count,
{
    if count == segments.len() {
        assert(segments.take(count) =~= segments);
    } else {
        assert(segments.take(count + 1).drop_last() =~= segments.take(count));
        lemma_load_all_fails(segments, count + 1);
    }
}

/// The deletion of each segment of an image, first segment first.
pub open spec fn deletes_of(segments: Seq<(u64, Seq<u8>)>) -> Seq<Effect> {
    Seq::new(segments.len(), |i: int| Effect::Delete(segments[i].0))
}

/// Deleting the first segments of an image one by one leaves the others.
proof fn lemma_carry_deletes(
    segments: Seq<(u64, Seq<u8>)>,
    fresh: (u64, Seq<u8>),
    count: int,
)
    requires
        generations_ascend(segments.push(fresh)),
        0 <= count <= segments.len(),
    ensures
        carry(segments.push(fresh), deletes_of(segments).take(count)) == segments.skip(count).push(
            fresh,
        ),
    decreases count,
{
    let all = segments.push(fresh);
    if count == 0 {
        assert(segments.skip(0) =~= segments);
        assert(deletes_of(segments).take(0) =~= Seq::<Effect>::empty());
    } else {
        lemma_carry_deletes(segments, fresh, count - 1);
        let current = segments.skip(count - 1).push(fresh);
        assert(deletes_of(segments).take(count).drop_last() =~= deletes_of(segments).take(
            count - 1,
        ));
        assert(generations_ascend(current)) by {
            assert forall|i: int, j: int| 0 <= i < j < current.len() implies current[i].0
                < current[j].0 by {
                assert(all[i + count - 1].0 < all[j + count - 1].0);
            }
        }
        assert(current[0].0 == segments[count - 1].0);
        lemma_position_of(current, 0);
        assert(current.remove(0) =~= segments.skip(count).push(fresh));
    }
}

/// Records the deletion of each segment, first segment first.
fn record_deletes(changes: &mut Vec<Change>, readers: &Vec<Segment>)
    ensures
        effects(final(changes)@) == effects(old(changes)@) + deletes_of(image(readers@)),
{
    let mut at: usize = 0;
    while at < readers.len()
        invariant
            at <= readers@.len(),
            effects(changes@) == effects(old(changes)@) + deletes_of(image(readers@)).take(
                at as int,
            ),
        decreases readers@.len() - at,
    {
        let ghost listed = changes@;
        changes.push(Change::Delete(readers[at].generation));
        assert(effects(changes@) =~= effects(listed).push(
            Effect::Delete(image(readers@)[at as int].0),
        ));
        at = at + 1;
        assert(effects(changes@) =~= effects(old(changes)@) + deletes_of(image(readers@)).take(
            at as int,
        ));
    }
    assert(deletes_of(image(readers@)).take(at as int) =~= deletes_of(image(readers@)));
}

/// A fresh segment that alone gives the state of a log can take the place
/// of the log step by step: once it is created and filled, the segments of
/// the log may go one by one, first segment first, and at every step what
/// is left gives the same state.
proof fn lemma_compaction_steps(
    segments: Seq<(u64, Seq<u8>)>,
    fresh: (u64, Seq<u8>),
    state: Map<Seq<char>, Seq<char>>,
    count: int,
)
    requires
        generations_ascend(segments.push(fresh)),
        replay(segments) == Ok::<Map<Seq<char>, Seq<char>>, Flaw>(state),
        replay_from(fresh.1, 0, Map::empty()) == Ok::<Map<Seq<char>, Seq<char>>, Flaw>(state),
        0 <= count <= 2 + segments.len(),
    ensures
        replay(
            carry(
                segments,
                (seq![Effect::Create(fresh.0), Effect::Append(fresh.0, fresh.1)] + deletes_of(
                    segments,
                )).take(count),
            ),
        ) == Ok::<Map<Seq<char>, Seq<char>>, Flaw>(state),
{
    let two = seq![Effect::Create(fresh.0), Effect::Append(fresh.0, fresh.1)];
    let all = two + deletes_of(segments);
    let created = segments.push((fresh.0, Seq::<u8>::empty()));
    let longer = segments.push(fresh);
    let one = seq![Effect::Create(fresh.0)];
    assert(one.drop_last() =~= Seq::<Effect>::empty());
    assert(carry(segments, one.drop_last()) == segments);
    assert(carry(segments, one) == created);
    if count == 0 {
        assert(all.take(0) =~= Seq::<Effect>::empty());
    } else if count == 1 {
        assert(all.take(1) =~= one);
        assert(created.drop_last() =~= segments);
        lemma_entry_end(Seq::<u8>::empty(), 0);
    } else {
        let gone = count - 2;
        assert(generations_ascend(created)) by {
            assert forall|i: int, j: int| 0 <= i < j < created.len() implies created[i].0
                < created[j].0 by {
                assert(longer[i].0 < longer[j].0);
            }
        }
        lemma_position_of(created, created.len() - 1);
        assert(two.drop_last() =~= one);
        assert(Seq::<u8>::empty() + fresh.1 =~= fresh.1);
        assert(created.update(created.len() - 1, fresh) =~= longer);
        assert(carry(segments, two) == longer);
        assert(all.take(count) =~= two + deletes_of(segments).take(gone));
        lemma_carry_both(segments, two, deletes_of(segments).take(gone));
        lemma_carry_deletes(segments, fresh, gone);
        let kept = segments.skip(gone);
        let current = kept.push(fresh);
        assert(current.drop_last() =~= kept);
        assert(segments =~= segments.take(gone) + kept);
        lemma_replay_onto_empty(segments);
        lemma_replay_onto_split(segments.take(gone), kept, Map::empty());
        let before = replay_onto(segments.take(gone), Map::empty()).unwrap();
        lemma_overlay_segments(kept, before, Map::empty(), before);
        lemma_replay_onto_empty(kept);
        let partial = replay(kept).unwrap();
        lemma_overlay_segment(fresh.1, 0, partial, Map::empty(), partial);
        let result = replay_from(fresh.1, 0, partial).unwrap();
        assert(result =~= state) by {
            assert forall|key: Seq<char>| result.contains_key(key) <==> state.contains_key(
                key,
            ) by {
                if result.contains_key(key) && !state.contains_key(key) {
                    assert(partial.contains_key(key));
                }
            }
        }
    }
}

/// Finds the segment with this generation.
fn find_segment(readers: &Vec<Segment>, generation: u64) -> (r: Option<usize>)
    ensures
        match r {
            Some(at) => at < readers@.len() && image(readers@)[at as int].0 == generation,
            None => !has_generation(image(readers@), generation),
        },
{
    let mut at: usize = readers.len();
    while at > 0
        invariant
            at <= readers@.len(),
            forall|i: int| at <= i < readers@.len() ==> image(readers@)[i].0 != generation,
        decreases at,
    {
        at = at - 1;
        if readers[at].generation == generation {
            return Some(at);
        }
    }
    None
}

/// Reads the bytes of a record through the reader of its segment: seeks to
/// the offset and reads exactly the length.
fn fetch(readers: &mut Vec<Segment>, at: usize, record: KvIndexRecord) -> (out: Vec<u8>)
    requires
        at < old(readers)@.len(),
        record.offset + record.length <= image(old(readers)@)[at as int].1.len(),
    ensures
        image(final(readers)@) == image(old(readers)@),
        out@ == slice_of(image(old(readers)@)[at as int].1, record),
{
    let mut segment = readers.remove(at);
    segment.reader.seek(SeekFrom::Start(record.offset));
    let out = segment.reader.read(record.length);
    readers.insert(at, segment);
    assert(image(readers@) =~= image(old(readers)@));
    out
}

/// Lets the reader of the last segment take in bytes that were appended.
fn grow(readers: &mut Vec<Segment>, more: Vec<u8>)
    requires
        old(readers)@.len() > 0,
    ensures
        final(readers)@.len() == old(readers)@.len(),
        image(old(readers)@).last().1.len() + more@.len() <= usize::MAX,
        image(final(readers)@) == image(old(readers)@).update(
            old(readers)@.len() - 1,
            (image(old(readers)@).last().0, image(old(readers)@).last().1 + more@),
        ),
{
    let mut segment = match readers.pop() {
        Some(segment) => segment,
        None => {
            return;
        },
    };
    segment.reader.extend(more);
    readers.push(segment);
    assert(image(readers@) =~= image(old(readers)@).update(
        old(readers)@.len() - 1,
        (image(old(readers)@).last().0, image(old(readers)@).last().1 + more@),
    ));
}

/// Whether each file has a smaller generation than the next.
fn in_order(files: &Vec<(u64, Vec<u8>)>) -> (r: bool)
    ensures
        r == generations_ascend(image_of(files@)),
{
    let mut at: usize = 1;
    while at < files.len()
        invariant
            1 <= at,
            forall|i: int, j: int|
                0 <= i < j < at && j < files@.len() ==> image_of(files@)[i].0 < image_of(
                    files@,
                )[j].0,
        decreases files@.len() - at,
    {
        if files[at - 1].0 >= files[at].0 {
            assert(!(image_of(files@)[at - 1].0 < image_of(files@)[at as int].0));
            return false;
        }
        assert forall|i: int, j: int| 0 <= i < j < at + 1 && j < files@.len() implies image_of(
            files@,
        )[i].0 < image_of(files@)[j].0 by {
            if j == at {
                if i < at - 1 {
                    assert(image_of(files@)[i].0 < image_of(files@)[at - 1].0);
                }
            }
        }
        at = at + 1;
    }
    true
}

/// A persistent store of string keys and string values.
///
/// The segments stand in a vector, in ascending order of generation: that
/// is the order in which the log is read, and the order in which compaction
/// deletes.
pub struct KvStore {
    path: String,
    generation: u64,
    index: KvIndex,
    writer: KvWriter,
    readers: Vec<Segment>,
    compactable: u64,
    threshold: u64,
    changes: Vec<Change>,
}

impl View for KvStore {
    type V = Map<Seq<char>, Seq<char>>;

    /// The visible state: each live key with its value.
    closed spec fn view(&self) -> Map<Seq<char>, Seq<char>> {
        visible(self.index@, image(self.readers@))
    }
}

/// `after` holds the same image, index and counters as `before`.
pub open spec fn same_store(before: &KvStore, after: &KvStore) -> bool {
    &&& after.segments() == before.segments()
    &&& after.records() == before.records()
    &&& after.walk() == before.walk()
    &&& after.stale() == before.stale()
    &&& after.limit() == before.limit()
    &&& after.active() == before.active()
    &&& after.directory() == before.directory()
}

/// The changes that `after` has recorded beyond those of `before` carry
/// the image of `before` to the image of `after`.
pub open spec fn recorded(before: &KvStore, after: &KvStore) -> bool {
    &&& before.pending().len() <= after.pending().len()
    &&& after.pending().take(before.pending().len() as int) == before.pending()
    &&& carry(before.segments(), after.pending().skip(before.pending().len() as int))
        == after.segments()
}

impl KvStore {
    /// The image of the store directory: each segment with its bytes, in
    /// ascending order of generation.
    pub closed spec fn segments(&self) -> Seq<(u64, Seq<u8>)> {
        image(self.readers@)
    }

    /// The index: each live key with the place of its latest `Set` command.
    pub closed spec fn records(&self) -> Map<Seq<char>, KvIndexRecord> {
        self.index@
    }

    /// The entries of the index in the order in which compaction walks
    /// them.
    pub closed spec fn walk(&self) -> Seq<(Seq<char>, KvIndexRecord)> {
        self.index.items()
    }

    /// The count of stale bytes.
    pub closed spec fn stale(&self) -> u64 {
        self.compactable
    }

    /// The count of stale bytes above which the store compacts.
    pub closed spec fn limit(&self) -> u64 {
        self.threshold
    }

    /// The active generation.
    pub closed spec fn active(&self) -> u64 {
        self.generation
    }

    /// The path of the store directory.
    pub closed spec fn directory(&self) -> Seq<char> {
        self.path@
    }

    /// The changes recorded and not yet taken.
    pub closed spec fn pending(&self) -> Seq<Effect> {
        effects(self.changes@)
    }

    /// The store is in order: the segments ascend and the last is the
    /// active one, with the writer at its end; every record of the index
    /// points at a `Set` command for its key; the visible state is what the
    /// log means; and the live bytes and the stale bytes together are no
    /// more than the log holds.
    pub closed spec fn wf(&self) -> bool {
        &&& self.readers@.len() > 0
        &&& generations_ascend(image(self.readers@))
        &&& image(self.readers@).last().0 == self.generation
        &&& self.writer.pos() == image(self.readers@).last().1.len()
        &&& self.writer.pending() == Seq::<u8>::empty()
        &&& self.index.wf()
        &&& faithful(self.index@, image(self.readers@))
        &&& replay(image(self.readers@)) == Ok::<Map<Seq<char>, Seq<char>>, Flaw>(
            visible(self.index@, image(self.readers@)),
        )
        &&& self.index.live_bytes() + self.compactable <= total_bytes(image(self.readers@))
    }

    /// Opens a store on the files of its directory, with the default
    /// threshold.
    pub fn open(path: String, files: Vec<(u64, Vec<u8>)>) -> (r: Result<KvStore, KvError>)
        ensures
            opened(path@, image_of(files@), THRESHOLD, r),
    {
        KvStore::open_with(path, files, THRESHOLD)
    }

    /// Opens a store on the files of its directory: each generation with
    /// the bytes of its file, in ascending order of generation. The index is
    /// rebuilt from all of them, first file first. Without files, the store
    /// starts with the empty segment 0 and records its creation. Files out
    /// of order, and a file that holds anything but commands, are refused.
    pub fn open_with(path: String, files: Vec<(u64, Vec<u8>)>, threshold: u64) -> (r: Result<
        KvStore,
        KvError,
    >)
        ensures
            opened(path@, image_of(files@), threshold, r),
    {
        let ghost given = image_of(files@);
        let mut index = KvIndex::new();
        let mut readers: Vec<Segment> = Vec::new();
        let mut changes: Vec<Change> = Vec::new();
        if files.len() == 0 {
            readers.push(Segment { generation: 0, reader: KvReader::new(Vec::new()) });
            changes.push(Change::Create(0));
            let store = KvStore {
                path,
                generation: 0,
                index,
                writer: KvWriter::new(0),
                readers,
                compactable: 0,
                threshold,
                changes,
            };
            proof {
                let segments = image(store.readers@);
                assert(segments =~= seq![(0u64, Seq::<u8>::empty())]);
                assert(given =~= Seq::empty());
                lemma_entry_end(Seq::<u8>::empty(), 0);
                assert(segments.drop_last() =~= Seq::empty());
                assert(replay(segments.drop_last()) == Ok::<Map<Seq<char>, Seq<char>>, Flaw>(
                    Map::empty(),
                ));
                assert(visible(store.index@, segments) =~= Map::<Seq<char>, Seq<char>>::empty());
                assert(store.pending() =~= seq![Effect::Create(0u64)]);
            }
            return Ok(store);
        }
        if !in_order(&files) {
            return Err(KvError::UnexpectedAction);
        }
        let ghost all = files@;
        let count = files.len();
        let mut rest = files;
        let mut compactable: u64 = 0;
        let mut done: usize = 0;
        let ghost mut stale: nat = 0;
        proof {
            assert(given.take(0) =~= Seq::empty());
            assert(visible(index@, given.take(0)) =~= Map::<Seq<char>, Seq<char>>::empty());
        }
        while done < count
            invariant
                done <= count == all.len(),
                given == image_of(all),
                given == image_of(files@),
                generations_ascend(given),
                rest@ == all.skip(done as int),
                index.wf(),
                image(readers@) == given.take(done as int),
                faithful(index@, given.take(done as int)),
                replay(given.take(done as int)) == Ok::<Map<Seq<char>, Seq<char>>, Flaw>(
                    visible(index@, given.take(done as int)),
                ),
                load_all(given.take(done as int)) == Ok::<
                    (Map<Seq<char>, KvIndexRecord>, nat),
                    Flaw,
                >((index@, stale)),
                compactable == saturate(stale),
                index.live_bytes() + stale <= total_bytes(given.take(done as int)),
            decreases count - done,
        {
            let (generation, data) = rest.remove(0);
            assert(all[done as int] == (generation, data));
            let mut reader = KvReader::new(data);
            let size = reader.len();
            let ghost before = given.take(done as int);
            let ghost after = given.take(done + 1);
            let ghost index_before = index@;
            proof {
                assert(after =~= before.push(given[done as int]));
                assert(after.drop_last() =~= before);
                assert(generations_ascend(after)) by {
                    assert forall|i: int, j: int| 0 <= i < j < after.len() implies after[i].0
                        < after[j].0 by {
                        assert(given[i].0 < given[j].0);
                    }
                }
                lemma_push_segment(index_before, before, given[done as int]);
            }
            assert(after.last() == (generation, data@));
            match load(&mut index, generation, &mut reader) {
                Err(e) => {
                    proof {
                        let flaw = load_from(data@, generation, 0, index_before, 0)->Err_0;
                        assert(reports(e, flaw));
                        assert(load_all(after) == Err::<(Map<Seq<char>, KvIndexRecord>, nat), Flaw>(
                            flaw,
                        ));
                        lemma_load_all_fails(given, done + 1);
                        assert(load_all(given) == load_all(after));
                        assert(given.len() > 0);
                    }
                    return Err(e);
                },
                Ok(more) => {
                    proof {
                        lemma_load_replays(after, 0, index_before, 0);
                        stale = stale + load_from(
                            data@,
                            generation,
                            0,
                            index_before,
                            0,
                        ).unwrap().1;
                    }
                    compactable = compactable.saturating_add(more);
                    readers.push(Segment { generation, reader });
                    assert(image(readers@) =~= after);
                    assert(load_all(after) == Ok::<(Map<Seq<char>, KvIndexRecord>, nat), Flaw>(
                        (index@, stale),
                    ));
                },
            }
            done = done + 1;
        }
        let last = readers.len() - 1;
        let size = readers[last].reader.len();
        let store = KvStore {
            path,
            generation: readers[last].generation,
            index,
            writer: KvWriter::new(size as u64),
            readers,
            compactable,
            threshold,
            changes,
        };
        proof {
            assert(given.take(count as int) =~= given);
            assert(store.pending() =~= Seq::empty());
        }
        Ok(store)
    }

    /// Sets the value of a key, and succeeds. The command is appended to
    /// the active segment, and the index points at it. The record that the
    /// key had becomes stale; when the count of stale bytes passes the
    /// threshold, the store compacts. The changes are recorded in the order
    /// in which they are to be carried out: the command is appended first,
    /// and a compaction follows it.
    pub fn set(&mut self, key: String, value: String) -> (r: Result<(), KvError>)
        requires
            old(self).wf(),
        ensures
            final(self).wf(),
            r is Ok,
            final(self)@ == after_set(old(self)@, key@, value@),
            recorded(old(self), final(self)),
            final(self).limit() == old(self).limit(),
            final(self).directory() == old(self).directory(),
            if saturate((old(self).stale() + prior_length(old(self).records(), key@)) as nat)
                > old(self).limit() && old(self).active() < u64::MAX {
                &&& compaction_of(
                    grown(old(self).segments(), canonical(Command::Put(key@, value@))),
                    items_after_insert(old(self).walk(), key@, set_record(old(self), key@, value@)),
                    old(self).active(),
                    final(self),
                )
                &&& final(self).pending() == old(self).pending().push(
                    Effect::Append(old(self).active(), canonical(Command::Put(key@, value@))),
                ) + compaction_changes(
                    grown(old(self).segments(), canonical(Command::Put(key@, value@))),
                    items_after_insert(old(self).walk(), key@, set_record(old(self), key@, value@)),
                    old(self).active(),
                )
                &&& every_step_gives(
                    old(self).segments(),
                    final(self).pending().skip(old(self).pending().len() as int),
                    1,
                    final(self)@,
                )
            } else {
                &&& final(self).active() == old(self).active()
                &&& final(self).walk() == items_after_insert(
                    old(self).walk(),
                    key@,
                    set_record(old(self), key@, value@),
                )
                &&& final(self).stale() == saturate(
                    (old(self).stale() + prior_length(old(self).records(), key@)) as nat,
                )
                &&& final(self).segments() == grown(
                    old(self).segments(),
                    canonical(Command::Put(key@, value@)),
                )
                &&& final(self).records() == old(self).records().insert(
                    key@,
                    set_record(old(self), key@, value@),
                )
                &&& final(self).pending() == old(self).pending().push(
                    Effect::Append(old(self).active(), canonical(Command::Put(key@, value@))),
                )
            },
    {
        let action = KvAction::Put(key, value);
        let bytes = match encode(&action) {
            Ok(bytes) => bytes,
            Err(e) => {
                return Err(e);
            },
        };
        let ghost text = bytes@;
        let ghost segments = self.segments();
        let ghost index_before = self.index@;
        let offset = self.writer.pos();
        self.writer.write(bytes.as_slice());
        let flushed = self.writer.flush();
        grow(&mut self.readers, bytes);
        assert(flushed@ =~= text);
        let length = self.writer.pos() - offset;
        let record = KvIndexRecord { generation: self.generation, offset, length };
        self.changes.push(Change::Append(self.generation, flushed));
        let prior = match action {
            KvAction::Put(key, _) => self.index.insert(key, record),
            KvAction::Remove(key) => None,
        };
        if let Some(outdated) = prior {
            self.compactable = self.compactable.saturating_add(outdated.length);
        }
        proof {
            let grown_image = image(self.readers@);
            lemma_grow_segment(index_before, segments, text);
            lemma_total_grow(segments, text);
            lemma_bytes_of(grown_image, grown_image.len() - 1);
            assert(slice_of(grown_image.last().1, record) =~= text);
            assert(faithful(self.index@, grown_image)) by {
                assert forall|k: Seq<char>| #[trigger]
                    self.index@.contains_key(k) implies has_generation(
                    grown_image,
                    self.index@[k].generation,
                ) && holds_put(
                    bytes_of(grown_image, self.index@[k].generation),
                    self.index@[k],
                    k,
                ) by {
                    if k != key@ {
                        assert(index_before.contains_key(k));
                    }
                }
            }
            assert(visible(self.index@, grown_image) =~= after_set(
                visible(index_before, segments),
                key@,
                value@,
            ));
            assert(grown_image.drop_last() =~= segments.drop_last());
            let earlier = replay(segments.drop_last()).unwrap();
            lemma_replay_append(segments.last().1, text, 0, earlier);
            lemma_position_of(segments, segments.len() - 1);
            assert(self.pending() =~= old(self).pending().push(
                Effect::Append(self.generation, text),
            ));
            assert(self.pending().skip(old(self).pending().len() as int) =~= seq![
                Effect::Append(self.generation, text),
            ]);
            lemma_carry_push(segments, Seq::empty(), Effect::Append(self.generation, text));
            assert(seq![Effect::Append(self.generation, text)] =~= Seq::<Effect>::empty().push(
                Effect::Append(self.generation, text),
            ));
            assert(self.pending().take(old(self).pending().len() as int) =~= old(self).pending());
        }
        if self.compactable > self.threshold {
            let ghost middle = *self;
            self.compact();
            proof {
                lemma_recorded_twice(old(self), &middle, self);
                if middle.generation < u64::MAX {
                    let first = seq![Effect::Append(middle.generation, text)];
                    let rest = compaction_changes(
                        middle.segments(),
                        middle.walk(),
                        middle.generation,
                    );
                    let list = self.pending().skip(old(self).pending().len() as int);
                    assert(list =~= first + rest);
                    assert(carry(segments, first) == middle.segments());
                    assert forall|count: int| 1 <= count <= list.len() implies replay(
                        carry(segments, #[trigger] list.take(count)),
                    ) == Ok::<Map<Seq<char>, Seq<char>>, Flaw>(self@) by {
                        assert(list.take(count) =~= first + rest.take(count - 1));
                        lemma_carry_both(segments, first, rest.take(count - 1));
                    }
                }
            }
        }
        Ok(())
    }

    /// Gets the value of a key, `None` if the key has none. The value is
    /// read from the place that the index gives: the reader of the segment
    /// seeks to the offset, reads the length, and the bytes are decoded.
    pub fn get(&mut self, key: String) -> (r: Result<Option<String>, KvError>)
        requires
            old(self).wf(),
        ensures
            final(self).wf(),
            same_store(old(self), final(self)),
            final(self).pending() == old(self).pending(),
            final(self)@ == old(self)@,
            r matches Ok(value) && text_of(value) == found(old(self)@, key@),
    {
        let record = match self.index.get(key.as_str()) {
            Some(record) => record,
            None => {
                return Ok(None);
            },
        };
        let ghost segments = self.segments();
        let at = match find_segment(&self.readers, record.generation) {
            Some(at) => at,
            None => {
                return Err(KvError::UnexpectedAction);
            },
        };
        proof {
            lemma_bytes_of(segments, at as int);
        }
        let bytes = fetch(&mut self.readers, at, record);
        proof {
            lemma_entry_end(bytes@, bytes@.len() as int);
        }
        match decode(bytes.as_slice()) {
            Ok(KvAction::Put(_, value)) => Ok(Some(value)),
            Ok(KvAction::Remove(_)) => Err(KvError::UnexpectedAction),
            Err(e) => Err(e),
        }
    }

    /// Removes a key. A key that has no value is an error, `KeyNotFound`,
    /// and the only one; nothing is changed or recorded then. The `Remove`
    /// command is appended to the active segment; it is stale at once, and
    /// so is the record that the key had.
    pub fn remove(&mut self, key: String) -> (r: Result<(), KvError>)
        requires
            old(self).wf(),
        ensures
            final(self).wf(),
            r is Ok <==> old(self)@.contains_key(key@),
            recorded(old(self), final(self)),
            final(self).limit() == old(self).limit(),
            final(self).directory() == old(self).directory(),
            final(self).active() == old(self).active(),
            match r {
                Ok(()) => {
                    &&& final(self)@ == after_remove(old(self)@, key@)
                    &&& final(self).stale() == saturate(
                        (old(self).stale() + prior_length(old(self).records(), key@) + canonical(
                            Command::Remove(key@),
                        ).len()) as nat,
                    )
                    &&& final(self).segments() == grown(
                        old(self).segments(),
                        canonical(Command::Remove(key@)),
                    )
                    &&& final(self).records() == old(self).records().remove(key@)
                    &&& final(self).walk() == items_after_remove(old(self).walk(), key@)
                    &&& final(self).pending() == old(self).pending().push(
                        Effect::Append(old(self).active(), canonical(Command::Remove(key@))),
                    )
                },
                Err(e) => {
                    &&& e is KeyNotFound
                    &&& same_store(old(self), final(self))
                    &&& final(self).pending() == old(self).pending()
                    &&& final(self)@ == old(self)@
                },
            },
    {
        if !self.index.contains_key(key.as_str()) {
            proof {
                lemma_nothing_recorded(old(self), self);
            }
            return Err(KvError::KeyNotFound);
        }
        let action = KvAction::Remove(key);
        let bytes = match encode(&action) {
            Ok(bytes) => bytes,
            Err(e) => {
                return Err(e);
            },
        };
        let ghost text = bytes@;
        let ghost segments = self.segments();
        let ghost index_before = self.index@;
        let offset = self.writer.pos();
        self.writer.write(bytes.as_slice());
        let flushed = self.writer.flush();
        grow(&mut self.readers, bytes);
        assert(flushed@ =~= text);
        let length = self.writer.pos() - offset;
        self.changes.push(Change::Append(self.generation, flushed));
        let prior = match action {
            KvAction::Remove(key) => self.index.remove(key.as_str()),
            KvAction::Put(key, _) => None,
        };
        if let Some(outdated) = prior {
            self.compactable = self.compactable.saturating_add(outdated.length);
        }
        self.compactable = self.compactable.saturating_add(length);
        proof {
            let grown_image = image(self.readers@);
            lemma_grow_segment(index_before, segments, text);
            lemma_total_grow(segments, text);
            assert(faithful(self.index@, grown_image)) by {
                assert forall|k: Seq<char>| #[trigger]
                    self.index@.contains_key(k) implies has_generation(
                    grown_image,
                    self.index@[k].generation,
                ) && holds_put(
                    bytes_of(grown_image, self.index@[k].generation),
                    self.index@[k],
                    k,
                ) by {
                    assert(index_before.contains_key(k));
                }
            }
            assert(visible(self.index@, grown_image) =~= after_remove(
                visible(index_before, segments),
                key@,
            ));
            assert(grown_image.drop_last() =~= segments.drop_last());
            let earlier = replay(segments.drop_last()).unwrap();
            lemma_replay_append(segments.last().1, text, 0, earlier);
            lemma_position_of(segments, segments.len() - 1);
            assert(self.pending() =~= old(self).pending().push(
                Effect::Append(self.generation, text),
            ));
            assert(self.pending().skip(old(self).pending().len() as int) =~= seq![
                Effect::Append(self.generation, text),
            ]);
            lemma_carry_push(segments, Seq::empty(), Effect::Append(self.generation, text));
            assert(seq![Effect::Append(self.generation, text)] =~= Seq::<Effect>::empty().push(
                Effect::Append(self.generation, text),
            ));
            assert(self.pending().take(old(self).pending().len() as int) =~= old(self).pending());
        }
        Ok(())
    }

    /// Compacts the log: writes the command of each live key into a fresh
    /// segment of the next generation, makes that segment the active one,
    /// and drops all others. Each command is copied byte for byte, exactly
    /// its length, and its record then points at the copy. The visible
    /// state stays as it is, no stale byte is left, and the log is shorter
    /// by at least the stale bytes it held. The fresh segment is created and
    /// filled before any other is deleted, and the others are deleted first
    /// segment first, so that the directory holds a log of the same state
    /// however far the changes were carried out. A store whose active
    /// generation is the largest there is stays as it is.
    pub fn compact(&mut self)
        requires
            old(self).wf(),
        ensures
            final(self).wf(),
            final(self)@ == old(self)@,
            recorded(old(self), final(self)),
            final(self).limit() == old(self).limit(),
            final(self).directory() == old(self).directory(),
            if old(self).active() < u64::MAX {
                &&& compaction_of(
                    old(self).segments(),
                    old(self).walk(),
                    old(self).active(),
                    final(self),
                )
                &&& final(self).pending() == old(self).pending() + compaction_changes(
                    old(self).segments(),
                    old(self).walk(),
                    old(self).active(),
                )
                &&& every_step_gives(
                    old(self).segments(),
                    compaction_changes(old(self).segments(), old(self).walk(), old(self).active()),
                    0,
                    old(self)@,
                )
                &&& total_bytes(final(self).segments()) == sum_lengths(old(self).walk())
                &&& total_bytes(final(self).segments()) + old(self).stale() <= total_bytes(
                    old(self).segments(),
                )
                &&& final(self).records().dom() == old(self).records().dom()
            } else {
                same_store(old(self), final(self)) && final(self).pending() == old(self).pending()
            },
    {
        if self.generation == u64::MAX {
            proof {
                lemma_nothing_recorded(old(self), self);
            }
            return;
        }
        let fresh_generation = self.generation + 1;
        let ghost old_segments = image(self.readers@);
        let ghost old_items = self.index.items();
        let ghost old_index = self.index@;
        let ghost old_view = visible(old_index, old_segments);
        let mut writer = KvWriter::new(0);
        let mut fresh = KvReader::new(Vec::new());
        let ghost mut copied: Map<Seq<char>, Seq<char>> = Map::empty();
        let count = self.index.len();
        let mut at: usize = 0;
        proof {
            self.index.lemma_items();
            lemma_entry_end(Seq::<u8>::empty(), 0);
            assert(old_items.take(0) =~= Seq::empty());
        }
        while at < count
            invariant
                at <= count == old_items.len(),
                self.index.wf(),
                self.index.items().len() == count,
                self.index@.dom() == old_index.dom(),
                self.index.live_bytes() == sum_lengths(old_items),
                image(self.readers@) == old_segments,
                generations_ascend(old_segments),
                old_segments.len() > 0,
                old_segments.last().0 == self.generation,
                faithful(old_index, old_segments),
                old_view == visible(old_index, old_segments),
                forall|j: int|
                    0 <= j < count ==> old_index.contains_key(#[trigger] old_items[j].0)
                        && old_index[old_items[j].0] == old_items[j].1,
                forall|j: int| 0 <= j < count ==> (#[trigger] self.index.items()[j]).0 == old_items[j].0,
                forall|j: int|
                    at <= j < count ==> (#[trigger] self.index.items()[j]).1 == old_items[j].1,
                forall|j: int|
                    0 <= j < at ==> moved(
                        fresh.bytes(),
                        fresh_generation,
                        (#[trigger] self.index.items()[j]).1,
                        old_items[j].0,
                        old_view,
                    ),
                writer.pos() == fresh.bytes().len(),
                writer.pending() == fresh.bytes(),
                fresh.bytes() == packed(old_items, old_segments, at as int),
                forall|j: int|
                    0 <= j < at ==> (#[trigger] self.index.items()[j]).1 == packed_walk(
                        old_items,
                        old_segments,
                        fresh_generation,
                    )[j].1,
                fresh.bytes().len() == sum_lengths(old_items.take(at as int)),
                replay_from(fresh.bytes(), 0, Map::empty()) == Ok::<
                    Map<Seq<char>, Seq<char>>,
                    Flaw,
                >(copied),
                forall|k: Seq<char>|
                    copied.contains_key(k) <==> exists|j: int|
                        0 <= j < at && #[trigger] old_items[j].0 == k,
                forall|k: Seq<char>| copied.contains_key(k) ==> copied[k] == old_view[k],
                self.generation == old(self).generation,
                fresh_generation == self.generation + 1,
                self.compactable == old(self).compactable,
                self.threshold == old(self).threshold,
                self.changes == old(self).changes,
                self.path == old(self).path,
            decreases count - at,
        {
            let record = self.index.record_at(at);
            let ghost key = old_items[at as int].0;
            assert(self.index.items()[at as int].1 == old_items[at as int].1);
            assert(old_index.contains_key(key));
            // Every record points into a segment that is there.
            let place = match find_segment(&self.readers, record.generation) {
                Some(place) => place,
                None => {
                    return;
                },
            };
            proof {
                lemma_bytes_of(old_segments, place as int);
            }
            let bytes = fetch(&mut self.readers, place, record);
            let ghost text = bytes@;
            let ghost before = fresh.bytes();
            let ghost items_before = self.index.items();
            let offset = writer.pos();
            writer.write(bytes.as_slice());
            fresh.extend(bytes);
            let fresh_record = KvIndexRecord {
                generation: fresh_generation,
                offset,
                length: record.length,
            };
            self.index.set_record_at(at, fresh_record);
            proof {
                let value = value_in(old_segments[place as int].1, record);
                assert(old_view[key] == value);
                lemma_replay_append(before, text, 0, Map::empty());
                let ghost earlier = copied;
                copied = copied.insert(key, value);
                assert(slice_of(before + text, fresh_record) =~= text);
                assert forall|j: int| 0 <= j < at + 1 implies moved(
                    fresh.bytes(),
                    fresh_generation,
                    (#[trigger] self.index.items()[j]).1,
                    old_items[j].0,
                    old_view,
                ) by {
                    if j < at {
                        let r = items_before[j].1;
                        assert(moved(before, fresh_generation, r, old_items[j].0, old_view));
                        assert(self.index.items()[j] == items_before[j]);
                        assert(slice_of(before + text, r) =~= slice_of(before, r));
                    }
                }
                assert(old_items.take(at + 1).drop_last() =~= old_items.take(at as int));
                assert forall|k: Seq<char>|
                    copied.contains_key(k) <==> exists|j: int|
                        0 <= j < at + 1 && #[trigger] old_items[j].0 == k by {
                    if copied.contains_key(k) {
                        if k == key {
                            assert(old_items[at as int].0 == k);
                        } else {
                            assert(earlier.contains_key(k));
                            let j = choose|j: int| 0 <= j < at && #[trigger] old_items[j].0 == k;
                            assert(0 <= j < at + 1 && old_items[j].0 == k);
                        }
                    }
                    if exists|j: int| 0 <= j < at + 1 && #[trigger] old_items[j].0 == k {
                        let j = choose|j: int| 0 <= j < at + 1 && #[trigger] old_items[j].0 == k;
                        if j < at {
                            assert(earlier.contains_key(k));
                        }
                    }
                }
                assert(self.index@.dom() =~= old_index.dom());
            }
            at = at + 1;
        }
        let flushed = writer.flush();
        let ghost text = flushed@;
        let ghost fresh_segment = (fresh_generation, text);
        let ghost delta = seq![
            Effect::Create(fresh_generation),
            Effect::Append(fresh_generation, text),
        ];
        let ghost listed = self.changes@;
        self.changes.push(Change::Create(fresh_generation));
        self.changes.push(Change::Append(fresh_generation, flushed));
        assert(effects(self.changes@) =~= effects(listed) + delta);
        record_deletes(&mut self.changes, &self.readers);
        proof {
            let created = old_segments.push((fresh_generation, Seq::<u8>::empty()));
            let longer = old_segments.push(fresh_segment);
            assert(generations_ascend(longer) && generations_ascend(created)) by {
                assert forall|i: int| 0 <= i < old_segments.len() implies old_segments[i].0
                    < fresh_generation by {
                    if i < old_segments.len() - 1 {
                        assert(old_segments[i].0 < old_segments[old_segments.len() - 1].0);
                    }
                }
                assert forall|i: int, j: int| 0 <= i < j < longer.len() implies longer[i].0
                    < longer[j].0 && created[i].0 < created[j].0 by {
                    if j < longer.len() - 1 {
                        assert(old_segments[i].0 < old_segments[j].0);
                    }
                }
            }
            lemma_position_of(created, created.len() - 1);
            let one = seq![Effect::Create(fresh_generation)];
            assert(one.drop_last() =~= Seq::<Effect>::empty());
            assert(carry(old_segments, one.drop_last()) == old_segments);
            assert(carry(old_segments, one) == created);
            assert(delta.drop_last() =~= one);
            assert(Seq::<u8>::empty() + text =~= text);
            assert(created.update(created.len() - 1, fresh_segment) =~= longer);
            assert(carry(old_segments, delta) == longer);
            let deletes = deletes_of(old_segments);
            lemma_carry_deletes(old_segments, fresh_segment, old_segments.len() as int);
            assert(deletes.take(old_segments.len() as int) =~= deletes);
            lemma_carry_both(old_segments, delta, deletes);
            assert(effects(self.changes@) =~= effects(listed) + (delta + deletes));
            assert(carry(old_segments, delta + deletes) == old_segments.skip(
                old_segments.len() as int,
            ).push(fresh_segment));
        }
        let ghost changed = delta + deletes_of(old_segments);
        let mut readers: Vec<Segment> = Vec::new();
        readers.push(Segment { generation: fresh_generation, reader: fresh });
        self.readers = readers;
        self.writer = writer;
        self.generation = fresh_generation;
        self.compactable = 0;
        proof {
            let segments = image(self.readers@);
            assert(segments =~= seq![fresh_segment]);
            assert(old_segments.skip(old_segments.len() as int).push(fresh_segment) =~= segments);
            assert(text == fresh_segment.1);
            assert(self.index.items() =~= packed_walk(old_items, old_segments, fresh_generation));
            assert(old_items.take(count as int) =~= old_items);
            lemma_bytes_of(segments, 0);
            self.index.lemma_items();
            assert(faithful(self.index@, segments)) by {
                assert forall|k: Seq<char>| #[trigger]
                    self.index@.contains_key(k) implies has_generation(
                    segments,
                    self.index@[k].generation,
                ) && holds_put(bytes_of(segments, self.index@[k].generation), self.index@[k], k) by {
                    let j = choose|j: int|
                        0 <= j < self.index.items().len() && #[trigger] self.index.items()[j].0
                            == k;
                    assert(moved(text, fresh_generation, self.index.items()[j].1, k, old_view));
                }
            }
            assert(visible(self.index@, segments) =~= old_view) by {
                assert forall|k: Seq<char>| #[trigger]
                    self.index@.contains_key(k) implies value_in(
                    bytes_of(segments, self.index@[k].generation),
                    self.index@[k],
                ) == old_view[k] by {
                    let j = choose|j: int|
                        0 <= j < self.index.items().len() && #[trigger] self.index.items()[j].0
                            == k;
                    assert(moved(text, fresh_generation, self.index.items()[j].1, k, old_view));
                }
            }
            assert(copied =~= old_view) by {
                assert forall|k: Seq<char>| copied.contains_key(k) <==> old_view.contains_key(
                    k,
                ) by {
                    if old_view.contains_key(k) {
                        assert(self.index@.contains_key(k));
                        let j = choose|j: int|
                            0 <= j < self.index.items().len() && #[trigger] self.index.items()[j].0
                                == k;
                        assert(old_items[j].0 == k);
                    }
                    if copied.contains_key(k) {
                        let j = choose|j: int| 0 <= j < count && #[trigger] old_items[j].0 == k;
                        assert(old_index.contains_key(old_items[j].0));
                    }
                }
            }
            assert(segments.drop_last() =~= Seq::empty());
            assert(replay(segments.drop_last()) == Ok::<Map<Seq<char>, Seq<char>>, Flaw>(
                Map::empty(),
            ));
            assert(total_bytes(segments.drop_last()) == 0);
            assert(self.pending().take(old(self).pending().len() as int) =~= old(self).pending());
            assert(self.pending().skip(old(self).pending().len() as int) =~= changed);
            assert(text == packed(old_items, old_segments, old_items.len() as int));
            assert(changed =~= compaction_changes(old_segments, old_items, old(self).generation));
            assert(self.pending() =~= old(self).pending() + changed);
            assert forall|count: int| 0 <= count <= changed.len() implies replay(
                carry(old_segments, #[trigger] changed.take(count)),
            ) == Ok::<Map<Seq<char>, Seq<char>>, Flaw>(old_view) by {
                lemma_compaction_steps(old_segments, fresh_segment, old_view, count);
            }
        }
    }

    /// Hands out the changes recorded since the last call, first change
    /// first, and forgets them.
    pub fn take_changes(&mut self) -> (out: Vec<Change>)
        ensures
            effects(out@) == old(self).pending(),
            final(self).pending() == Seq::<Effect>::empty(),
            same_store(old(self), final(self)),
            final(self)@ == old(self)@,
            old(self).wf() ==> final(self).wf(),
    {
        let mut out: Vec<Change> = Vec::new();
        out.append(&mut self.changes);
        assert(effects(out@) =~= old(self).pending());
        assert(self.pending() =~= Seq::<Effect>::empty());
        out
    }

    /// The place of the latest `Set` command of a key, `None` if the key
    /// has no value.
    pub fn locate(&self, key: &str) -> (r: Option<KvIndexRecord>)
        requires
            self.wf(),
        ensures
            r == (if self.records().contains_key(key@) {
                Some(self.records()[key@])
            } else {
                None
            }),
    {
        self.index.get(key)
    }

    /// The path of the store directory.
    pub fn path(&self) -> (path: &String)
        ensures
            path@ == self.directory(),
    {
        &self.path
    }

    /// The active generation.
    pub fn generation(&self) -> (generation: u64)
        ensures
            generation == self.active(),
    {
        self.generation
    }

    /// The count of stale bytes.
    pub fn stale_bytes(&self) -> (count: u64)
        ensures
            count == self.stale(),
    {
        self.compactable
    }

    /// A copy of the image of the store directory: each generation with the
    /// bytes of its segment, in ascending order. A store opened on it shows
    /// the same state.
    pub fn files(&mut self) -> (files: Vec<(u64, Vec<u8>)>)
        requires
            old(self).wf(),
        ensures
            final(self).wf(),
            same_store(old(self), final(self)),
            final(self).pending() == old(self).pending(),
            final(self)@ == old(self)@,
            image_of(files@) == old(self).segments(),
    {
        let mut files: Vec<(u64, Vec<u8>)> = Vec::new();
        let mut at: usize = 0;
        while at < self.readers.len()
            invariant
                at <= self.readers@.len(),
                image(self.readers@) == image(old(self).readers@),
                self.index == old(self).index,
                self.writer == old(self).writer,
                self.generation == old(self).generation,
                self.compactable == old(self).compactable,
                self.threshold == old(self).threshold,
                self.changes == old(self).changes,
                self.path == old(self).path,
                image_of(files@) == image(self.readers@).take(at as int),
            decreases self.readers@.len() - at,
        {
            let generation = self.readers[at].generation;
            let size = self.readers[at].reader.len();
            let record = KvIndexRecord { generation, offset: 0, length: size as u64 };
            let ghost before = image(self.readers@);
            assert(before[at as int].0 == generation);
            let bytes = fetch(&mut self.readers, at, record);
            assert(bytes@ =~= before[at as int].1);
            let ghost listed = files@;
            files.push((generation, bytes));
            assert(image_of(files@) =~= image_of(listed).push(before[at as int]));
            at = at + 1;
            assert(image_of(files@) =~= image(self.readers@).take(at as int));
        }
        assert(image(self.readers@).take(at as int) =~= image(self.readers@));
        files
    }

    /// The generations of the segments, in ascending order.
    pub fn generations(&self) -> (list: Vec<u64>)
        ensures
            list@.len() == self.segments().len(),
            forall|i: int| 0 <= i < list@.len() ==> list@[i] == self.segments()[i].0,
    {
        let mut list: Vec<u64> = Vec::new();
        let mut at: usize = 0;
        while at < self.readers.len()
            invariant
                at <= self.readers@.len(),
                list@.len() == at,
                forall|i: int| 0 <= i < at ==> list@[i] == image(self.readers@)[i].0,
            decreases self.readers@.len() - at,
        {
            list.push(self.readers[at].generation);
            at = at + 1;
        }
        list
    }
}

/// What `open` returns for an image of the directory.
pub open spec fn opened(
    path: Seq<char>,
    given: Seq<(u64, Seq<u8>)>,
    threshold: u64,
    r: Result<KvStore, KvError>,
) -> bool {
    if given.len() == 0 {
        &&& r matches Ok(store)
        &&& store.wf()
        &&& store.segments() == seq![(0u64, Seq::<u8>::empty())]
        &&& store.pending() == seq![Effect::Create(0u64)]
        &&& store@ == Map::<Seq<char>, Seq<char>>::empty()
        &&& store.records() == Map::<Seq<char>, KvIndexRecord>::empty()
        &&& store.walk() == Seq::<(Seq<char>, KvIndexRecord)>::empty()
        &&& store.stale() == 0
        &&& store.active() == 0
        &&& store.limit() == threshold
        &&& store.directory() == path
    } else if !generations_ascend(given) {
        r matches Err(e) && e is UnexpectedAction
    } else {
        match load_all(given) {
            Err(flaw) => r matches Err(e) && reports(e, flaw),
            Ok((index, stale)) => {
                &&& r matches Ok(store)
                &&& store.wf()
                &&& store.segments() == given
                &&& store.pending() == Seq::<Effect>::empty()
                &&& replay(given) == Ok::<Map<Seq<char>, Seq<char>>, Flaw>(store@)
                &&& store.records() == index
                &&& store.stale() == saturate(stale)
                &&& store.active() == given.last().0
                &&& store.limit() == threshold
                &&& store.directory() == path
            },
        }
    }
}

/// The image after the last segment grew by `more`.
pub open spec fn grown(segments: Seq<(u64, Seq<u8>)>, more: Seq<u8>) -> Seq<(u64, Seq<u8>)> {
    segments.update(segments.len() - 1, (segments.last().0, segments.last().1 + more))
}

/// The bytes of the commands of the first `count` entries of a walk, one
/// after another.
pub open spec fn packed(
    walk: Seq<(Seq<char>, KvIndexRecord)>,
    segments: Seq<(u64, Seq<u8>)>,
    count: int,
) -> Seq<u8>
    decreases count,
{
    if count <= 0 {
        Seq::empty()
    } else {
        packed(walk, segments, count - 1) + slice_of(
            bytes_of(segments, walk[count - 1].1.generation),
            walk[count - 1].1,
        )
    }
}

/// The walk after compaction into the segment `generation`: each key with
/// the place of the copy of its command.
pub open spec fn packed_walk(
    walk: Seq<(Seq<char>, KvIndexRecord)>,
    segments: Seq<(u64, Seq<u8>)>,
    generation: u64,
) -> Seq<(Seq<char>, KvIndexRecord)> {
    Seq::new(
        walk.len(),
        |j: int|
            (
                walk[j].0,
                KvIndexRecord {
                    generation,
                    offset: packed(walk, segments, j).len() as u64,
                    length: walk[j].1.length,
                },
            ),
    )
}

/// The changes that compaction records, in their order: the fresh segment
/// is created and takes the command of each entry of the walk; only then
/// the segments that were there are deleted, first segment first. At any
/// point of the list the directory holds every live command.
pub open spec fn compaction_changes(
    segments: Seq<(u64, Seq<u8>)>,
    walk: Seq<(Seq<char>, KvIndexRecord)>,
    active: u64,
) -> Seq<Effect> {
    seq![
        Effect::Create((active + 1) as u64),
        Effect::Append((active + 1) as u64, packed(walk, segments, walk.len() as int)),
    ] + deletes_of(segments)
}

/// However far a list of changes was carried out, from the first `from`
/// changes on, the directory holds a log that gives `state`.
pub open spec fn every_step_gives(
    segments: Seq<(u64, Seq<u8>)>,
    changes: Seq<Effect>,
    from: int,
    state: Map<Seq<char>, Seq<char>>,
) -> bool {
    forall|count: int|
        from <= count <= changes.len() ==> replay(carry(segments, #[trigger] changes.take(count)))
            == Ok::<Map<Seq<char>, Seq<char>>, Flaw>(state)
}

/// The record of the command that `set(key, value)` appends.
pub open spec fn set_record(before: &KvStore, key: Seq<char>, value: Seq<char>) -> KvIndexRecord {
    record_of(
        before.active(),
        before.segments().last().1.len() as int,
        (before.segments().last().1.len() + canonical(Command::Put(key, value)).len()) as int,
    )
}

/// `after` is the store that compaction makes of an image, a walk and an
/// active generation: one segment, of the next generation, that holds the
/// command of each entry of the walk, in the order of the walk; each entry
/// points at its copy; no byte is stale; and the log is as long as the
/// records of the index together.
pub open spec fn compaction_of(
    segments: Seq<(u64, Seq<u8>)>,
    walk: Seq<(Seq<char>, KvIndexRecord)>,
    active: u64,
    after: &KvStore,
) -> bool {
    &&& after.active() == active + 1
    &&& after.segments() == seq![
        (after.active(), packed(walk, segments, walk.len() as int)),
    ]
    &&& after.walk() == packed_walk(walk, segments, after.active())
    &&& after.stale() == 0
    &&& total_bytes(after.segments()) == sum_lengths(after.walk())
}

/// A record after its command was copied into the fresh segment: it points
/// into that segment, at a `Set` command for the same key with the value
/// that the key had.
spec fn moved(
    fresh: Seq<u8>,
    generation: u64,
    record: KvIndexRecord,
    key: Seq<char>,
    state: Map<Seq<char>, Seq<char>>,
) -> bool {
    &&& record.generation == generation
    &&& holds_put(fresh, record, key)
    &&& value_in(fresh, record) == state[key]
}

/// A call that changes nothing records nothing.
proof fn lemma_nothing_recorded(before: &KvStore, after: &KvStore)
    requires
        after.pending() == before.pending(),
        after.segments() == before.segments(),
    ensures
        recorded(before, after),
{
    assert(after.pending().skip(before.pending().len() as int) =~= Seq::<Effect>::empty());
    assert(after.pending().take(before.pending().len() as int) =~= before.pending());
}

/// What two calls record one after the other carries the image over both.
proof fn lemma_recorded_twice(before: &KvStore, middle: &KvStore, after: &KvStore)
    requires
        recorded(before, middle),
        recorded(middle, after),
    ensures
        recorded(before, after),
{
    let n0 = before.pending().len() as int;
    let n1 = middle.pending().len() as int;
    let first = middle.pending().skip(n0);
    let second = after.pending().skip(n1);
    assert(after.pending().take(n0) =~= before.pending()) by {
        assert(after.pending().take(n1).take(n0) =~= after.pending().take(n0));
    }
    assert(after.pending().skip(n0) =~= first + second) by {
        assert forall|i: int| 0 <= i < n1 - n0 implies after.pending().skip(n0)[i] == first[i] by {
            assert(after.pending().take(n1)[i + n0] == middle.pending()[i + n0]);
        }
    }
    lemma_carry_both(before.segments(), first, second);
}

/// After `set(key, value)`, `get(key)` returns `value`.
pub proof fn read_your_writes(state: Map<Seq<char>, Seq<char>>, key: Seq<char>, value: Seq<char>)
    ensures
        found(after_set(state, key, value), key) == Some(value),
{
}

/// After two calls of `set` for the same key, `get` returns the value of
/// the second.
pub proof fn last_write_wins(
    state: Map<Seq<char>, Seq<char>>,
    key: Seq<char>,
    first: Seq<char>,
    second: Seq<char>,
)
    ensures
        found(after_set(after_set(state, key, first), key, second), key) == Some(second),
{
}

/// After `set(key, value)` a `remove(key)` finds the key; after it `get(key)`
/// returns nothing, and the key is gone, so that a second `remove(key)`
/// fails with `KeyNotFound`.
pub proof fn remove_hides(state: Map<Seq<char>, Seq<char>>, key: Seq<char>, value: Seq<char>)
    ensures
        after_set(state, key, value).contains_key(key),
        found(after_remove(after_set(state, key, value), key), key) is None,
        !after_remove(after_set(state, key, value), key).contains_key(key),
{
}

/// What a store shows is what its log means: the state after the commands
/// of all its segments, first segment first.
pub proof fn log_gives_state(store: &KvStore)
    requires
        store.wf(),
    ensures
        generations_ascend(store.segments()),
        replay(store.segments()) == Ok::<Map<Seq<char>, Seq<char>>, Flaw>(store@),
{
}

/// A store can be opened again on the image that it leaves behind, and the
/// store that is opened shows the same state: what was set and not removed
/// is there, with its latest value, and nothing else.
pub proof fn reopen_shows_the_same(
    store: &KvStore,
    path: Seq<char>,
    threshold: u64,
    r: Result<KvStore, KvError>,
)
    requires
        store.wf(),
        opened(path, store.segments(), threshold, r),
    ensures
        r matches Ok(again) && again@ == store@ && again.segments() == store.segments(),
{
    lemma_load_all_follows_replay(store.segments());
}

/// A store is in order: it has at least one segment, the segments ascend,
/// and the last is the active one; every record of the index lies inside
/// the segment that it names; and the bytes of the records together with
/// the stale bytes are no more than the log holds.
pub proof fn store_is_in_order(store: &KvStore, key: Seq<char>)
    requires
        store.wf(),
    ensures
        store.segments().len() > 0,
        generations_ascend(store.segments()),
        store.segments().last().0 == store.active(),
        store.records().contains_key(key) ==> has_generation(
            store.segments(),
            store.records()[key].generation,
        ) && store.records()[key].offset + store.records()[key].length <= bytes_of(
            store.segments(),
            store.records()[key].generation,
        ).len(),
        sum_lengths(store.walk()) + store.stale() <= total_bytes(store.segments()),
{
}

/// The walk and the index hold the same entries, and the walk meets each
/// key once.
pub proof fn walk_holds_the_records(store: &KvStore)
    requires
        store.wf(),
    ensures
        forall|i: int|
            0 <= i < store.walk().len() ==> store.records().contains_key(
                #[trigger] store.walk()[i].0,
            ) && store.records()[store.walk()[i].0] == store.walk()[i].1,
        forall|key: Seq<char>| #[trigger]
            store.records().contains_key(key) ==> exists|i: int|
                0 <= i < store.walk().len() && #[trigger] store.walk()[i].0 == key,
        forall|i: int, j: int|
            0 <= i < store.walk().len() && 0 <= j < store.walk().len() && i != j
                ==> #[trigger] store.walk()[i].0 != #[trigger] store.walk()[j].0,
{
    store.index.lemma_items();
    assert forall|key: Seq<char>| #[trigger] store.records().contains_key(key) implies exists|
        i: int,
    | 0 <= i < store.walk().len() && #[trigger] store.walk()[i].0 == key by {
        assert(store.index@.contains_key(key));
        let i = choose|i: int|
            0 <= i < store.index.items().len() && #[trigger] store.index.items()[i].0 == key;
        assert(store.walk()[i].0 == key);
    }
}

/// Two stores over the same image of the directory show the same state: a
/// store that is opened on what another store left behind agrees with it
/// on every key.
pub proof fn reopen_agrees(store: &KvStore, again: &KvStore)
    requires
        store.wf(),
        again.wf(),
        again.segments() == store.segments(),
    ensures
        again@ == store@,
{
}

/// The index holds the live keys, and decoding the bytes at the record of a
/// key yields a `Set` command for that key, with the value that the store
/// shows.
pub proof fn index_is_faithful(store: &KvStore, key: Seq<char>)
    requires
        store.wf(),
    ensures
        store.records().dom() == store@.dom(),
        store.records().contains_key(key) ==> {
            let record = store.records()[key];
            &&& has_generation(store.segments(), record.generation)
            &&& decoded(slice_of(bytes_of(store.segments(), record.generation), record)) == Ok::<
                Command,
                Flaw,
            >(Command::Put(key, store@[key]))
        },
{
    assert(store.records().dom() =~= store@.dom());
    if store.records().contains_key(key) {
        let record = store.records()[key];
        let cut = slice_of(bytes_of(store.segments(), record.generation), record);
        lemma_entry_end(cut, cut.len() as int);
    }
}

} // verus!
