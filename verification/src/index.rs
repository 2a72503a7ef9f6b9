//! The in-memory index: where the latest `Set` command of each live key
//! stands in the log.
use vstd::hash_map::StringHashMap;
use vstd::prelude::*;

verus! {

/// The place of one command in the log.
#[derive(Clone, Copy, Debug, PartialEq, Eq, Structural)]
pub struct KvIndexRecord {
    /// The segment that holds the command.
    pub generation: u64,
    /// The offset of the command in the segment.
    pub offset: u64,
    /// The number of bytes the command takes.
    pub length: u64,
}

/// One key with its record.
struct IndexEntry {
    key: String,
    record: KvIndexRecord,
}

/// A map from key to record that can also be walked by position. Keys are
/// looked up through a hash table; the entries stand in a vector without
/// gaps.
pub struct KvIndex {
    slots: StringHashMap<usize>,
    entries: Vec<IndexEntry>,
}

/// The lengths of the records of `items`, added up.
pub open spec fn sum_lengths(items: Seq<(Seq<char>, KvIndexRecord)>) -> nat
    decreases items.len(),
{
    if items.len() == 0 {
        0
    } else {
        sum_lengths(items.drop_last()) + items.last().1.length as nat
    }
}

/// Replacing one item changes the sum by the difference of the two lengths.
pub proof fn lemma_sum_update(
    items: Seq<(Seq<char>, KvIndexRecord)>,
    at: int,
    item: (Seq<char>, KvIndexRecord),
)
    requires
        0 <= at < items.len(),
    ensures
        sum_lengths(items.update(at, item)) == sum_lengths(items) - items[at].1.length
            + item.1.length,
    decreases items.len(),
{
    if at == items.len() - 1 {
        assert(items.update(at, item).drop_last() =~= items.drop_last());
    } else {
        assert(items.update(at, item).drop_last() =~= items.drop_last().update(at, item));
        lemma_sum_update(items.drop_last(), at, item);
    }
}

/// One of the items has this key.
pub open spec fn holds_key(items: Seq<(Seq<char>, KvIndexRecord)>, key: Seq<char>) -> bool {
    exists|i: int| 0 <= i < items.len() && #[trigger] items[i].0 == key
}

/// The place of the item with this key.
pub open spec fn place_of(items: Seq<(Seq<char>, KvIndexRecord)>, key: Seq<char>) -> int {
    choose|i: int| 0 <= i < items.len() && #[trigger] items[i].0 == key
}

/// The walk after `key` was bound to `record`: the item of the key is
/// replaced where it stands; a new key goes to the end.
pub open spec fn items_after_insert(
    items: Seq<(Seq<char>, KvIndexRecord)>,
    key: Seq<char>,
    record: KvIndexRecord,
) -> Seq<(Seq<char>, KvIndexRecord)> {
    if holds_key(items, key) {
        items.update(place_of(items, key), (key, record))
    } else {
        items.push((key, record))
    }
}

/// The walk after `key` was unbound: the last item takes the place of the
/// item of the key.
pub open spec fn items_after_remove(items: Seq<(Seq<char>, KvIndexRecord)>, key: Seq<char>) -> Seq<
    (Seq<char>, KvIndexRecord),
> {
    if holds_key(items, key) {
        items.update(place_of(items, key), items.last()).drop_last()
    } else {
        items
    }
}

impl KvIndex {
    /// The table and the vector agree.
    pub closed spec fn wf(&self) -> bool {
        &&& forall|i: int|
            #![trigger self.entries@[i]]
            0 <= i < self.entries@.len() ==> self.slots@.contains_key(self.entries@[i].key@)
                && self.slots@[self.entries@[i].key@] == i
        &&& forall|k: Seq<char>| #[trigger]
            self.slots@.contains_key(k) ==> self.slots@[k] < self.entries@.len()
                && self.entries@[self.slots@[k] as int].key@ == k
    }

    /// The entries in the order in which they are walked.
    pub closed spec fn items(&self) -> Seq<(Seq<char>, KvIndexRecord)> {
        Seq::new(self.entries@.len(), |i: int| (self.entries@[i].key@, self.entries@[i].record))
    }

    /// The index as a map.
    pub closed spec fn view(&self) -> Map<Seq<char>, KvIndexRecord> {
        Map::new(
            |k: Seq<char>| self.slots@.contains_key(k),
            |k: Seq<char>| self.entries@[self.slots@[k] as int].record,
        )
    }

    /// The bytes of log that the records of the index take.
    pub open spec fn live_bytes(&self) -> nat {
        sum_lengths(self.items())
    }

    /// The walk and the map hold the same entries, and the walk meets each
    /// key once.
    pub proof fn lemma_items(&self)
        requires
            self.wf(),
        ensures
            forall|i: int|
                0 <= i < self.items().len() ==> self@.contains_key(#[trigger] self.items()[i].0)
                    && self@[self.items()[i].0] == self.items()[i].1,
            forall|k: Seq<char>| #[trigger]
                self@.contains_key(k) ==> exists|i: int|
                    0 <= i < self.items().len() && #[trigger] self.items()[i].0 == k,
            forall|i: int, j: int|
                0 <= i < self.items().len() && 0 <= j < self.items().len() && i != j
                    ==> #[trigger] self.items()[i].0 != #[trigger] self.items()[j].0,
    {
        assert forall|k: Seq<char>| #[trigger] self@.contains_key(k) implies exists|i: int|
            0 <= i < self.items().len() && #[trigger] self.items()[i].0 == k by {
            let i = self.slots@[k] as int;
            assert(self.items()[i].0 == k);
        }
        assert forall|i: int, j: int|
            0 <= i < self.items().len() && 0 <= j < self.items().len() && i != j implies #[trigger]
            self.items()[i].0 != #[trigger] self.items()[j].0 by {
            assert(self.slots@[self.entries@[i].key@] == i);
            assert(self.slots@[self.entries@[j].key@] == j);
        }
    }

    /// The key at a position of the walk stands nowhere else in the walk.
    pub proof fn lemma_place(&self, at: int)
        requires
            self.wf(),
            0 <= at < self.items().len(),
        ensures
            holds_key(self.items(), self.items()[at].0),
            place_of(self.items(), self.items()[at].0) == at,
    {
        self.lemma_items();
        let found = place_of(self.items(), self.items()[at].0);
        if found != at {
            assert(self.items()[found].0 != self.items()[at].0);
        }
    }

    /// A key that the map does not hold is not met on the walk.
    pub proof fn lemma_absent(&self, key: Seq<char>)
        requires
            self.wf(),
            !self@.contains_key(key),
        ensures
            !holds_key(self.items(), key),
    {
        self.lemma_items();
    }

    /// An index without entries.
    pub fn new() -> (index: KvIndex)
        ensures
            index.wf(),
            index@ == Map::<Seq<char>, KvIndexRecord>::empty(),
            index.items() == Seq::<(Seq<char>, KvIndexRecord)>::empty(),
    {
        let index = KvIndex { slots: StringHashMap::new(), entries: Vec::new() };
        assert(index@ =~= Map::<Seq<char>, KvIndexRecord>::empty());
        assert(index.items() =~= Seq::<(Seq<char>, KvIndexRecord)>::empty());
        index
    }

    /// The number of entries.
    pub fn len(&self) -> (len: usize)
        ensures
            len == self.items().len(),
    {
        self.entries.len()
    }

    /// The record of `key`, if the index holds one.
    pub fn get(&self, key: &str) -> (r: Option<KvIndexRecord>)
        requires
            self.wf(),
        ensures
            r == (if self@.contains_key(key@) {
                Some(self@[key@])
            } else {
                None
            }),
    {
        match self.slots.get(key) {
            Some(slot) => Some(self.entries[*slot].record),
            None => None,
        }
    }

    /// Whether the index holds a record of `key`.
    pub fn contains_key(&self, key: &str) -> (r: bool)
        ensures
            r == self@.contains_key(key@),
    {
        self.slots.contains_key(key)
    }

    /// The key at a position of the walk.
    pub fn key_at(&self, at: usize) -> (key: &String)
        requires
            at < self.items().len(),
        ensures
            key@ == self.items()[at as int].0,
    {
        &self.entries[at].key
    }

    /// The record at a position of the walk.
    pub fn record_at(&self, at: usize) -> (record: KvIndexRecord)
        requires
            at < self.items().len(),
        ensures
            record == self.items()[at as int].1,
    {
        self.entries[at].record
    }

    /// Replaces the record at a position of the walk.
    pub fn set_record_at(&mut self, at: usize, record: KvIndexRecord)
        requires
            old(self).wf(),
            at < old(self).items().len(),
        ensures
            final(self).wf(),
            final(self).items() == old(self).items().update(
                at as int,
                (old(self).items()[at as int].0, record),
            ),
            final(self)@ == old(self)@.insert(old(self).items()[at as int].0, record),
            final(self).live_bytes() + old(self).items()[at as int].1.length == old(
                self,
            ).live_bytes() + record.length,
    {
        proof {
            lemma_sum_update(
                old(self).items(),
                at as int,
                (old(self).items()[at as int].0, record),
            );
        }
        let key = self.entries[at].key.clone();
        self.entries[at] = IndexEntry { key, record };
        assert(self.items() =~= old(self).items().update(
            at as int,
            (old(self).items()[at as int].0, record),
        ));
        assert(self@ =~= old(self)@.insert(old(self).items()[at as int].0, record));
    }

    /// Binds `key` to `record` and returns the record that `key` had.
    pub fn insert(&mut self, key: String, record: KvIndexRecord) -> (prior: Option<KvIndexRecord>)
        requires
            old(self).wf(),
        ensures
            final(self).wf(),
            final(self)@ == old(self)@.insert(key@, record),
            prior == (if old(self)@.contains_key(key@) {
                Some(old(self)@[key@])
            } else {
                None
            }),
            final(self).live_bytes() + (match prior {
                Some(p) => p.length as nat,
                None => 0,
            }) == old(self).live_bytes() + record.length,
            final(self).items() == items_after_insert(old(self).items(), key@, record),
    {
        let found = match self.slots.get(key.as_str()) {
            Some(slot) => Some(*slot),
            None => None,
        };
        match found {
            Some(slot) => {
                let prior = self.entries[slot].record;
                proof {
                    lemma_sum_update(old(self).items(), slot as int, (key@, record));
                }
                proof {
                    old(self).lemma_place(slot as int);
                }
                self.entries[slot] = IndexEntry { key, record };
                assert(self.items() =~= old(self).items().update(slot as int, (key@, record)));
                assert(self@ =~= old(self)@.insert(key@, record));
                Some(prior)
            },
            None => {
                proof {
                    old(self).lemma_absent(key@);
                }
                let slot = self.entries.len();
                let name = key.clone();
                self.entries.push(IndexEntry { key, record });
                self.slots.insert(name, slot);
                assert(self.items() =~= old(self).items().push((key@, record)));
                assert(self.items().drop_last() =~= old(self).items());
                assert(self@ =~= old(self)@.insert(key@, record));
                None
            },
        }
    }

    /// Unbinds `key` and returns the record that it had.
    pub fn remove(&mut self, key: &str) -> (prior: Option<KvIndexRecord>)
        requires
            old(self).wf(),
        ensures
            final(self).wf(),
            final(self)@ == old(self)@.remove(key@),
            prior == (if old(self)@.contains_key(key@) {
                Some(old(self)@[key@])
            } else {
                None
            }),
            final(self).live_bytes() + (match prior {
                Some(p) => p.length as nat,
                None => 0,
            }) == old(self).live_bytes(),
            final(self).items() == items_after_remove(old(self).items(), key@),
    {
        let found = match self.slots.get(key) {
            Some(slot) => Some(*slot),
            None => None,
        };
        match found {
            None => {
                proof {
                    self.lemma_absent(key@);
                }
                assert(self@ =~= old(self)@.remove(key@));
                None
            },
            Some(slot) => {
                let last = self.entries.len() - 1;
                let ghost before = old(self).items();
                proof {
                    old(self).lemma_place(slot as int);
                    lemma_sum_update(before, slot as int, before.last());
                    assert(self.entries@.update(slot as int, self.entries@.last())[last as int]
                        == self.entries@.last());
                }
                let gone = self.entries.swap_remove(slot);
                self.slots.remove(key);
                if slot < last {
                    let moved = self.entries[slot].key.clone();
                    self.slots.insert(moved, slot);
                }
                assert(self.items() =~= before.update(slot as int, before.last()).drop_last());
                assert(self@ =~= old(self)@.remove(key@));
                Some(gone.record)
            },
        }
    }
}

} // verus!
