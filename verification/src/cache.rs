//! What earlier lookups found, by theme, icon name, size and scale.
//!
//! The cache only stores. A miss is stored with the time it was recorded at,
//! and the one who reads it decides, with `is_fresh`, whether it still counts.

use crate::bytes::bytes_eq;
use vstd::prelude::*;
use vstd::slice::slice_to_vec;
use vstd::string::StringSliceAdditionalSpecFns;

verus! {

/// For how many milliseconds a recorded miss counts.
pub const GRACE_MS: u64 = 5000;

/// What the cache knows of one icon.
#[derive(Debug, Clone, PartialEq)]
pub enum CacheEntry {
    /// It was looked for and not found, at this time in milliseconds.
    NotFound(u64),
    /// It was found at this path.
    Found(Vec<u8>),
    /// It was never looked for, or what was known has been dropped.
    Unknown,
}

/// What a `CacheEntry` is.
pub enum CachedView {
    NotFound(u64),
    Found(Seq<u8>),
    Unknown,
}

impl View for CacheEntry {
    type V = CachedView;

    open spec fn view(&self) -> CachedView {
        match *self {
            CacheEntry::NotFound(at) => CachedView::NotFound(at),
            CacheEntry::Found(path) => CachedView::Found(path@),
            CacheEntry::Unknown => CachedView::Unknown,
        }
    }
}

/// What a lookup is stored under.
pub struct KeyView {
    pub theme: Seq<u8>,
    pub icon: Seq<u8>,
    pub size: u16,
    pub scale: u16,
}

/// The key of the icon `icon` of `theme` at `size` and `scale`.
pub open spec fn key_of(theme: &str, size: u16, scale: u16, icon: &str) -> KeyView {
    KeyView { theme: theme.spec_bytes(), icon: icon.spec_bytes(), size, scale }
}

/// Whether a miss recorded at `recorded` still counts at `now`: less than
/// `GRACE_MS` have passed. A clock that has gone back has passed no time.
pub open spec fn fresh(recorded: u64, now: u64) -> bool {
    now < recorded || now - recorded < GRACE_MS
}

/// Whether a miss recorded at `recorded` still counts at `now`.
pub fn is_fresh(recorded: u64, now: u64) -> (yes: bool)
    ensures
        yes == fresh(recorded, now),
{
    now < recorded || now - recorded < GRACE_MS
}

impl CachedView {
    /// What is left of an entry when the misses are forgotten.
    pub open spec fn without_miss(self) -> CachedView {
        match self {
            CachedView::NotFound(_) => CachedView::Unknown,
            other => other,
        }
    }

    /// The entry that the outcome `path` of a lookup at `now` is stored as.
    pub open spec fn of_outcome(path: Option<Seq<u8>>, now: u64) -> CachedView {
        match path {
            Some(p) => CachedView::Found(p),
            None => CachedView::NotFound(now),
        }
    }
}

/// One stored lookup.
struct Record {
    theme: Vec<u8>,
    icon: Vec<u8>,
    size: u16,
    scale: u16,
    entry: CacheEntry,
}

impl Record {
    /// What the record is stored under.
    spec fn key(self) -> KeyView {
        KeyView { theme: self.theme@, icon: self.icon@, size: self.size, scale: self.scale }
    }
}

/// What the first of `records` with the key `key` holds.
spec fn stored(records: Seq<Record>, key: KeyView) -> CachedView
    decreases records.len(),
{
    if records.len() == 0 {
        CachedView::Unknown
    } else if records[0].key() == key {
        records[0].entry@
    } else {
        stored(records.drop_first(), key)
    }
}

/// Records before which no record has the key `key` do not count.
proof fn lemma_stored_skip(records: Seq<Record>, key: KeyView, at: int)
    requires
        0 <= at <= records.len(),
        forall|j: int| 0 <= j < at ==> records[j].key() != key,
    ensures
        stored(records, key) == stored(records.skip(at), key),
    decreases at,
{
    if at > 0 {
        assert(records.drop_first().skip(at - 1) =~= records.skip(at));
        lemma_stored_skip(records.drop_first(), key, at - 1);
    } else {
        assert(records.skip(0) =~= records);
    }
}

/// A new entry in the first record of a key changes what is stored under
/// that key and nothing else.
proof fn lemma_stored_update(records: Seq<Record>, at: int, record: Record, key: KeyView)
    requires
        0 <= at < records.len(),
        record.key() == records[at].key(),
        forall|j: int| 0 <= j < at ==> records[j].key() != record.key(),
    ensures
        stored(records.update(at, record), key) == if key == record.key() {
            record.entry@
        } else {
            stored(records, key)
        },
    decreases at,
{
    let after = records.update(at, record);
    if at > 0 {
        assert(after.drop_first() =~= records.drop_first().update(at - 1, record));
        lemma_stored_update(records.drop_first(), at - 1, record, key);
    } else {
        assert(after.drop_first() =~= records.drop_first());
    }
}

/// A new record behind the others counts for its key where none of them has
/// it.
proof fn lemma_stored_push(records: Seq<Record>, record: Record, key: KeyView)
    requires
        forall|j: int| 0 <= j < records.len() ==> records[j].key() != record.key(),
    ensures
        stored(records.push(record), key) == if key == record.key() {
            record.entry@
        } else {
            stored(records, key)
        },
    decreases records.len(),
{
    let after = records.push(record);
    if records.len() > 0 {
        assert(after.drop_first() =~= records.drop_first().push(record));
        assert(after[0] == records[0]);
        assert(records[0].key() != record.key());
        assert forall|j: int| 0 <= j < records.drop_first().len() implies records.drop_first()[j]
            .key() != record.key() by {
            assert(records.drop_first()[j] == records[j + 1]);
        }
        lemma_stored_push(records.drop_first(), record, key);
    } else {
        assert(after.drop_first() =~= Seq::<Record>::empty());
        assert(after[0] == record);
        assert(stored(after.drop_first(), key) is Unknown);
        assert(stored(records, key) is Unknown);
    }
}

/// The outcomes of earlier lookups.
pub struct Cache {
    records: Vec<Record>,
}

impl Cache {
    /// What the cache holds under `key`: `Unknown` where nothing was stored.
    pub closed spec fn entry(&self, key: KeyView) -> CachedView {
        stored(self.records@, key)
    }

    /// A cache that knows nothing.
    pub fn new() -> (cache: Cache)
        ensures
            forall|key: KeyView| (#[trigger] cache.entry(key)) is Unknown,
    {
        Cache { records: Vec::new() }
    }

    /// Where the first record with this key stands.
    fn find(&self, theme: &[u8], size: u16, scale: u16, icon: &[u8]) -> (at: usize)
        ensures
            at <= self.records@.len(),
            forall|j: int|
                0 <= j < at ==> self.records@[j].key() != (KeyView {
                    theme: theme@,
                    icon: icon@,
                    size,
                    scale,
                }),
            at < self.records@.len() ==> self.records@[at as int].key() == (KeyView {
                theme: theme@,
                icon: icon@,
                size,
                scale,
            }),
    {
        let mut at: usize = 0;
        while at < self.records.len()
            invariant
                at <= self.records@.len(),
                forall|j: int|
                    0 <= j < at ==> self.records@[j].key() != (KeyView {
                        theme: theme@,
                        icon: icon@,
                        size,
                        scale,
                    }),
            decreases self.records@.len() - at,
        {
            let record = &self.records[at];
            if record.size == size && record.scale == scale && bytes_eq(
                record.theme.as_slice(),
                theme,
            ) && bytes_eq(record.icon.as_slice(), icon) {
                return at;
            }
            at += 1;
        }
        at
    }

    /// Drops every entry.
    pub fn clear(&mut self)
        ensures
            forall|key: KeyView| (#[trigger] final(self).entry(key)) is Unknown,
    {
        self.records.clear();
    }

    /// Stores the outcome of a lookup made at `now`: the path that was found,
    /// or a miss recorded at `now`. What was stored under the same key
    /// before is replaced.
    pub fn insert(
        &mut self,
        theme: &str,
        size: u16,
        scale: u16,
        icon_name: &str,
        icon_path: &Option<Vec<u8>>,
        now: u64,
    )
        ensures
            forall|key: KeyView| #[trigger]
                final(self).entry(key) == if key == key_of(theme, size, scale, icon_name) {
                    CachedView::of_outcome(
                        match *icon_path {
                            Some(p) => Some(p@),
                            None => None,
                        },
                        now,
                    )
                } else {
                    old(self).entry(key)
                },
    {
        let entry = match icon_path {
            Some(path) => CacheEntry::Found(slice_to_vec(path.as_slice())),
            None => CacheEntry::NotFound(now),
        };
        let at = self.find(theme.as_bytes(), size, scale, icon_name.as_bytes());
        let record = Record {
            theme: slice_to_vec(theme.as_bytes()),
            icon: slice_to_vec(icon_name.as_bytes()),
            size,
            scale,
            entry,
        };
        let ghost before = self.records@;
        if at < self.records.len() {
            self.records.set(at, record);
            assert forall|key: KeyView| #[trigger]
                stored(self.records@, key) == if key == record.key() {
                    record.entry@
                } else {
                    stored(before, key)
                } by {
                lemma_stored_update(before, at as int, record, key);
            }
        } else {
            self.records.push(record);
            assert forall|key: KeyView| #[trigger]
                stored(self.records@, key) == if key == record.key() {
                    record.entry@
                } else {
                    stored(before, key)
                } by {
                lemma_stored_push(before, record, key);
            }
        }
    }

    /// What the cache holds for the icon `icon_name` of `theme` at `size`
    /// and `scale`.
    pub fn get(&self, theme: &str, size: u16, scale: u16, icon_name: &str) -> (entry: CacheEntry)
        ensures
            entry@ == self.entry(key_of(theme, size, scale, icon_name)),
    {
        let at = self.find(theme.as_bytes(), size, scale, icon_name.as_bytes());
        proof {
            lemma_stored_skip(self.records@, key_of(theme, size, scale, icon_name), at as int);
        }
        if at < self.records.len() {
            match &self.records[at].entry {
                CacheEntry::NotFound(recorded) => CacheEntry::NotFound(*recorded),
                CacheEntry::Found(path) => CacheEntry::Found(slice_to_vec(path.as_slice())),
                CacheEntry::Unknown => CacheEntry::Unknown,
            }
        } else {
            CacheEntry::Unknown
        }
    }

    /// Forgets every miss, however old: the icons that were not found are
    /// unknown again. What was found stays.
    pub fn reset_none(&mut self)
        ensures
            forall|key: KeyView| #[trigger]
                final(self).entry(key) == old(self).entry(key).without_miss(),
    {
        let mut i: usize = 0;
        let ghost before = self.records@;
        while i < self.records.len()
            invariant
                i <= self.records@.len(),
                self.records@.len() == before.len(),
                forall|j: int|
                    0 <= j < before.len() ==> (#[trigger] self.records@[j]).key()
                        == before[j].key(),
                forall|j: int|
                    0 <= j < i ==> (#[trigger] self.records@[j]).entry@
                        == before[j].entry@.without_miss(),
                forall|j: int|
                    i <= j < before.len() ==> (#[trigger] self.records@[j]).entry@
                        == before[j].entry@,
            decreases self.records@.len() - i,
        {
            let miss: bool = match &self.records[i].entry {
                CacheEntry::NotFound(_) => true,
                _ => false,
            };
            if miss {
                let old_record = &self.records[i];
                let record = Record {
                    theme: slice_to_vec(old_record.theme.as_slice()),
                    icon: slice_to_vec(old_record.icon.as_slice()),
                    size: old_record.size,
                    scale: old_record.scale,
                    entry: CacheEntry::Unknown,
                };
                self.records.set(i, record);
            }
            i += 1;
        }
        assert forall|key: KeyView| #[trigger]
            stored(self.records@, key) == stored(before, key).without_miss() by {
            lemma_stored_without_miss(before, self.records@, key);
        }
    }
}

/// Where each record keeps its key and forgets its miss, so does what is
/// stored under every key.
proof fn lemma_stored_without_miss(before: Seq<Record>, after: Seq<Record>, key: KeyView)
    requires
        after.len() == before.len(),
        forall|j: int| 0 <= j < before.len() ==> (#[trigger] after[j]).key() == before[j].key(),
        forall|j: int|
            0 <= j < before.len() ==> (#[trigger] after[j]).entry@
                == before[j].entry@.without_miss(),
    ensures
        stored(after, key) == stored(before, key).without_miss(),
    decreases before.len(),
{
    if before.len() > 0 {
        assert(after[0].key() == before[0].key());
        assert(after[0].entry@ == before[0].entry@.without_miss());
        if before[0].key() != key {
            assert forall|j: int| 0 <= j < before.drop_first().len() implies (
            #[trigger] after.drop_first()[j]).key() == before.drop_first()[j].key() by {
                assert(after[j + 1].key() == before[j + 1].key());
            }
            assert forall|j: int| 0 <= j < before.drop_first().len() implies (
            #[trigger] after.drop_first()[j]).entry@
                == before.drop_first()[j].entry@.without_miss() by {
                assert(after[j + 1].entry@ == before[j + 1].entry@.without_miss());
            }
            lemma_stored_without_miss(before.drop_first(), after.drop_first(), key);
        }
    }
}

impl Default for Cache {
    fn default() -> (cache: Cache)
        ensures
            forall|key: KeyView| (#[trigger] cache.entry(key)) is Unknown,
    {
        Cache::new()
    }
}

} // verus!
