//! A bounded cache of decoded pixels and tile directories.

use crate::decode::{DirView, TileDir};
use crate::error::ErrorView;
use crate::file_info::InfoView;
use crate::format::FaceDataHeader;
use crate::image::{block_of, dir_of, face_of};
use crate::recency::{
    holds_key, moved_to_front, recent_clear, recent_entries, recent_get, recent_len,
    recent_limit, recent_new, recent_pop, recent_put, KeyCode, Recency,
};
use crate::stream::Stream;
use crate::texel::Arith;
use crate::types::Res;
use std::sync::Arc;
use vstd::prelude::*;

verus! {

/// Default size of the decoded-pixel cache, in bytes (64 MiB).
pub const DEFAULT_CACHE_BUDGET: usize = 64 << 20;

/// Bytes charged to every cache entry on top of its payload, so that a flood
/// of tiny entries is still bounded by the budget.
pub const ENTRY_OVERHEAD: usize = 96;

/// Bytes charged for every tile of a cached tile directory.
pub const TILE_ENTRY_SIZE: usize = 12;

/// Options for opening a [`crate::SharedReader`].
#[derive(Debug, Clone, Copy)]
pub struct CacheOptions {
    /// Premultiply color channels by the alpha channel.
    pub premultiply: bool,
    /// Maximum number of bytes of decoded pixel data to keep resident.
    /// Zero disables caching entirely.
    pub budget_bytes: usize,
}

impl Default for CacheOptions {
    fn default() -> (r: Self)
        ensures
            r == (CacheOptions { premultiply: false, budget_bytes: DEFAULT_CACHE_BUDGET }),
    {
        CacheOptions { premultiply: false, budget_bytes: DEFAULT_CACHE_BUDGET }
    }
}

/// A snapshot of a [`crate::SharedReader`]'s cache counters.
#[derive(Debug, Clone, Copy, PartialEq, Eq, Structural)]
pub struct CacheStats {
    /// Lookups served from the cache.
    pub hits: u64,
    /// Lookups that had to read and decode.
    pub misses: u64,
    /// Entries dropped to stay within the budget.
    pub evictions: u64,
    /// Blocks returned to the caller but not cached, because a single one
    /// would not fit in the budget.
    pub oversized: u64,
    /// Entries currently resident.
    pub entries: usize,
    /// Accounted bytes currently resident.
    pub bytes_resident: usize,
    /// The current budget, in bytes.
    pub bytes_budget: usize,
}

impl Default for CacheStats {
    fn default() -> (r: Self)
        ensures
            r == (CacheStats {
                hits: 0,
                misses: 0,
                evictions: 0,
                oversized: 0,
                entries: 0,
                bytes_resident: 0,
                bytes_budget: 0,
            }),
    {
        CacheStats {
            hits: 0,
            misses: 0,
            evictions: 0,
            oversized: 0,
            entries: 0,
            bytes_resident: 0,
            bytes_budget: 0,
        }
    }
}

/// `Arc::clone`: another pointer to the same value.
#[verifier::external_body]
pub(crate) fn share<T>(a: &Arc<T>) -> (r: Arc<T>)
    ensures
        r == *a,
{
    Arc::clone(a)
}

/// Decoded pixel data, reference-counted so that a cache hit copies nothing.
///
/// The interleaved bytes, in v-major order.
#[derive(Debug)]
pub struct PixelData(Arc<Vec<u8>>);

impl Clone for PixelData {
    fn clone(&self) -> (p: Self)
        ensures
            p == *self,
    {
        self.share()
    }
}

impl View for PixelData {
    type V = Seq<u8>;

    closed spec fn view(&self) -> Seq<u8> {
        self.0@
    }
}

impl std::ops::Deref for PixelData {
    type Target = [u8];

    fn deref(&self) -> (b: &[u8])
        ensures
            b@ == self@,
    {
        self.as_slice()
    }
}

impl AsRef<[u8]> for PixelData {
    fn as_ref(&self) -> (b: &[u8])
        ensures
            b@ == self@,
    {
        self.as_slice()
    }
}

impl PixelData {
    /// Make a handle to pixel bytes.
    pub fn new(data: Vec<u8>) -> (p: Self)
        ensures
            p@ == data@,
    {
        PixelData(Arc::new(data))
    }

    /// The pixel bytes.
    pub fn as_slice(&self) -> (b: &[u8])
        ensures
            b@ == self@,
    {
        self.0.as_slice()
    }

    /// Copy the pixels into a freshly allocated buffer.
    pub fn to_vec(&self) -> (v: Vec<u8>)
        ensures
            v@ == self@,
    {
        vstd::slice::slice_to_vec(self.0.as_slice())
    }

    /// Another handle to the same pixels.
    pub fn share(&self) -> (p: Self)
        ensures
            p == *self,
    {
        PixelData(self::share(&self.0))
    }
}

/// What a cache entry stands for.
#[derive(Debug, Clone, Copy, PartialEq, Eq, Structural)]
pub enum CacheKey {
    /// Decoded pixels of a block stored in the file: a whole face or a
    /// single tile.
    Block {
        /// Absolute file offset of the block.
        pos: u64,
        /// Header of the block.
        fdh: FaceDataHeader,
        /// Resolution of the image in it.
        res: Res,
        /// Level it belongs to, which decides whether alpha
        /// premultiplication was applied.
        levelid: usize,
    },
    /// A dynamically reduced image, which has no file offset of its own.
    Reduced {
        /// Face that was reduced.
        faceid: usize,
        /// Resolution that it was reduced to.
        res: Res,
    },
    /// The tile directory of a tiled block.
    TileDir {
        /// Absolute file offset of the block.
        pos: u64,
        /// Resolution of the face.
        res: Res,
    },
}

impl CacheKey {
    /// The key as integers.
    pub open spec fn spec_code(self) -> KeyCode {
        match self {
            CacheKey::Block { pos, fdh, res, levelid } => (
                0u8,
                pos,
                fdh.data,
                res.spec_val(),
                levelid as u64,
            ),
            CacheKey::Reduced { faceid, res } => (1u8, faceid as u64, 0u32, res.spec_val(), 0u64),
            CacheKey::TileDir { pos, res } => (2u8, pos, 0u32, res.spec_val(), 0u64),
        }
    }

    /// The key as integers.
    pub fn code(&self) -> (c: KeyCode)
        ensures
            c == self.spec_code(),
    {
        match self {
            CacheKey::Block { pos, fdh, res, levelid } => (
                0u8,
                *pos,
                fdh.data,
                res.val(),
                *levelid as u64,
            ),
            CacheKey::Reduced { faceid, res } => (1u8, *faceid as u64, 0u32, res.val(), 0u64),
            CacheKey::TileDir { pos, res } => (2u8, *pos, 0u32, res.val(), 0u64),
        }
    }
}

/// Different things have different keys.
pub proof fn keys_are_distinct(a: CacheKey, b: CacheKey)
    requires
        a.spec_code() == b.spec_code(),
    ensures
        a == b,
{
    let ra = match a {
        CacheKey::Block { res, .. } => res,
        CacheKey::Reduced { res, .. } => res,
        CacheKey::TileDir { res, .. } => res,
    };
    let rb = match b {
        CacheKey::Block { res, .. } => res,
        CacheKey::Reduced { res, .. } => res,
        CacheKey::TileDir { res, .. } => res,
    };
    crate::types::val_round_trip(ra);
    crate::types::val_round_trip(rb);
}

/// A cached value.
#[derive(Debug)]
pub enum CacheValue {
    /// Decoded pixels.
    Pixels(PixelData),
    /// A tile directory.
    Dir(Arc<TileDir>),
}

impl CacheValue {
    /// Bytes that an entry is charged for.
    pub open spec fn spec_size(self) -> nat {
        ENTRY_OVERHEAD as nat + match self {
            CacheValue::Pixels(p) => p@.len(),
            CacheValue::Dir(d) => d@.fdh.len() * TILE_ENTRY_SIZE as nat,
        }
    }

    /// Bytes that an entry is charged for.
    pub fn size(&self) -> (n: u128)
        ensures
            n == self.spec_size(),
    {
        match self {
            CacheValue::Pixels(p) => ENTRY_OVERHEAD as u128 + p.as_slice().len() as u128,
            CacheValue::Dir(d) => ENTRY_OVERHEAD as u128 + d.fdh.len() as u128
                * TILE_ENTRY_SIZE as u128,
        }
    }

    /// Another handle to the same value.
    pub fn share(&self) -> (v: Self)
        ensures
            v == *self,
    {
        match self {
            CacheValue::Pixels(p) => CacheValue::Pixels(p.share()),
            CacheValue::Dir(d) => CacheValue::Dir(self::share(d)),
        }
    }
}

/// `value` is what reading the file gives for `key`.
pub open spec fn is_right(
    f: Stream,
    m: Arith,
    info: InfoView,
    key: CacheKey,
    value: CacheValue,
) -> bool {
    match key {
        CacheKey::Block { pos, fdh, res, levelid } => value is Pixels && block_of(
            f,
            m,
            info,
            pos,
            fdh,
            res,
            levelid as int,
        ) == Ok::<Seq<u8>, ErrorView>(value->Pixels_0@),
        CacheKey::Reduced { faceid, res } => value is Pixels && face_of(
            f,
            m,
            info,
            faceid as int,
            res,
        ) == Ok::<Seq<u8>, ErrorView>(value->Pixels_0@),
        CacheKey::TileDir { pos, res } => value is Dir && dir_of(f, pos, res) == Ok::<
            DirView,
            ErrorView,
        >(value->Dir_0@),
    }
}

/// Entries of a cache, the one used last coming first.
pub type Entries = Seq<(KeyCode, CacheValue)>;

/// Bytes that entries are charged for.
pub open spec fn total_size(entries: Entries) -> nat
    decreases entries.len(),
{
    if entries.len() == 0 {
        0
    } else {
        total_size(entries.drop_last()) + entries.last().1.spec_size()
    }
}

/// What is left of the entries when those that have gone unused for longest
/// are dropped until the rest fits in `room` bytes.
pub open spec fn trimmed(entries: Entries, room: nat) -> Entries
    decreases entries.len(),
{
    if entries.len() == 0 || total_size(entries) <= room {
        entries
    } else {
        trimmed(entries.drop_last(), room)
    }
}

/// No two entries have the same key.
pub open spec fn distinct_keys(entries: Entries) -> bool {
    forall|i: int, j: int|
        0 <= i < entries.len() && 0 <= j < entries.len() && i != j ==> (#[trigger] entries[i]).0
            != (#[trigger] entries[j]).0
}

/// The value of the entry with a key, if there is one.
pub open spec fn find_value(entries: Entries, key: KeyCode) -> Option<CacheValue> {
    if exists|i: int| #[trigger] holds_key(entries, i, key) {
        Some(entries[choose|i: int| #[trigger] holds_key(entries, i, key)].1)
    } else {
        None
    }
}

/// The entries after a lookup: the one that was found comes first.
pub open spec fn after_lookup(entries: Entries, key: KeyCode) -> Entries {
    if exists|i: int| #[trigger] holds_key(entries, i, key) {
        moved_to_front(entries, choose|i: int| #[trigger] holds_key(entries, i, key))
    } else {
        entries
    }
}

pub proof fn lemma_total_front(e: (KeyCode, CacheValue), rest: Entries)
    ensures
        total_size(seq![e] + rest) == e.1.spec_size() + total_size(rest),
    decreases rest.len(),
{
    let s = seq![e] + rest;
    if rest.len() == 0 {
        assert(s.drop_last() =~= rest);
        assert(s.last() == e);
    } else {
        assert(s.drop_last() =~= seq![e] + rest.drop_last());
        assert(s.last() == rest.last());
        lemma_total_front(e, rest.drop_last());
    }
}

pub proof fn lemma_total_remove(entries: Entries, i: int)
    requires
        0 <= i < entries.len(),
    ensures
        total_size(entries) == total_size(entries.remove(i)) + entries[i].1.spec_size(),
    decreases entries.len(),
{
    let s = entries.remove(i);
    if i == entries.len() - 1 {
        assert(s =~= entries.drop_last());
    } else {
        lemma_total_remove(entries.drop_last(), i);
        assert(s.drop_last() =~= entries.drop_last().remove(i));
        assert(s.last() == entries.last());
    }
}

/// Every entry is charged for at least the overhead.
pub proof fn lemma_total_min(entries: Entries)
    ensures
        total_size(entries) >= ENTRY_OVERHEAD * entries.len(),
    decreases entries.len(),
{
    if entries.len() > 0 {
        lemma_total_min(entries.drop_last());
    }
}

/// What is left after trimming fits, and is made up of the entries used last.
pub proof fn lemma_trimmed(entries: Entries, room: nat)
    ensures
        trimmed(entries, room).len() <= entries.len(),
        trimmed(entries, room) == entries.take(trimmed(entries, room).len() as int),
        total_size(trimmed(entries, room)) <= room,
    decreases entries.len(),
{
    if entries.len() == 0 || total_size(entries) <= room {
        assert(entries.take(entries.len() as int) =~= entries);
    } else {
        let rest = entries.drop_last();
        lemma_trimmed(rest, room);
        let n = trimmed(rest, room).len() as int;
        assert(rest.take(n) =~= entries.take(n));
    }
}

/// A byte-budgeted cache over `lru::LruCache`, which is count-bounded only.
pub struct PixelCache {
    lru: Recency,
    bytes: usize,
    budget: usize,
    evictions: u64,
    oversized: u64,
}

impl PixelCache {
    /// Entries, the one used last coming first.
    pub closed spec fn entries(&self) -> Entries {
        recent_entries(self.lru)
    }

    /// Maximum number of bytes that entries may be charged for.
    pub closed spec fn spec_budget(&self) -> nat {
        self.budget as nat
    }

    /// Number of entries dropped to stay within the budget.
    pub closed spec fn spec_evictions(&self) -> u64 {
        self.evictions
    }

    /// Number of values too large to be cached.
    pub closed spec fn spec_oversized(&self) -> u64 {
        self.oversized
    }

    /// The entries have distinct keys, the bytes that they are charged for
    /// are counted, and they stay within the budget.
    pub closed spec fn wf(&self) -> bool {
        &&& distinct_keys(self.entries())
        &&& self.bytes == total_size(self.entries())
        &&& self.bytes <= self.budget
        &&& recent_limit(self.lru) == usize::MAX
    }

    /// Every entry is what reading the file gives for its key.
    pub open spec fn sound(&self, f: Stream, m: Arith, info: InfoView) -> bool {
        forall|i: int, key: CacheKey|
            0 <= i < self.entries().len() && key.spec_code() == (#[trigger] self.entries()[i]).0
                ==> #[trigger] is_right(f, m, info, key, self.entries()[i].1)
    }

    /// The cache never holds more than its budget.
    pub proof fn stays_within_budget(&self)
        requires
            self.wf(),
        ensures
            total_size(self.entries()) <= self.spec_budget(),
            ENTRY_OVERHEAD * self.entries().len() <= self.spec_budget(),
            self.spec_budget() < ENTRY_OVERHEAD ==> self.entries().len() == 0,
            distinct_keys(self.entries()),
    {
        lemma_total_min(self.entries());
    }

    /// An empty cache.
    pub fn new(budget: usize) -> (c: Self)
        ensures
            c.wf(),
            c.entries() == Entries::empty(),
            c.spec_budget() == budget,
            c.spec_evictions() == 0,
            c.spec_oversized() == 0,
    {
        PixelCache { lru: recent_new(), bytes: 0, budget, evictions: 0, oversized: 0 }
    }

    /// The value with the given key, which becomes the one used last.
    pub fn get(&mut self, key: &CacheKey) -> (r: Option<CacheValue>)
        requires
            old(self).wf(),
        ensures
            final(self).wf(),
            final(self).spec_budget() == old(self).spec_budget(),
            final(self).spec_evictions() == old(self).spec_evictions(),
            final(self).spec_oversized() == old(self).spec_oversized(),
            r == find_value(old(self).entries(), key.spec_code()),
            final(self).entries() == after_lookup(old(self).entries(), key.spec_code()),
    {
        let ghost before = self.entries();
        let ghost code = key.spec_code();
        let found = recent_get(&mut self.lru, &key.code());
        let r = match found {
            Some(v) => Some(v.share()),
            None => None,
        };
        proof {
            if r is Some {
                lemma_found(before, code, self.entries(), r->0);
            }
        }
        r
    }

    /// Insert `value`, or return the entry that is already there.
    ///
    /// A value that would not fit in the budget by itself is not cached;
    /// otherwise entries that have gone unused for longest make room for it.
    pub fn insert_or_get(&mut self, key: CacheKey, value: CacheValue) -> (r: CacheValue)
        requires
            old(self).wf(),
        ensures
            final(self).wf(),
            inserted(*old(self), key, value, *final(self), r),
    {
        let ghost before = self.entries();
        let ghost code = key.spec_code();
        let kcode = key.code();
        let existing = match recent_get(&mut self.lru, &kcode) {
            Some(v) => Some(v.share()),
            None => None,
        };
        match existing {
            Some(v) => {
                proof {
                    lemma_found(before, code, self.entries(), v);
                }
                return v;
            },
            None => {},
        }
        let size: u128 = value.size();
        if size > self.budget as u128 {
            // Caching it would evict everything and then itself.
            self.oversized = self.oversized.wrapping_add(1);
            return value;
        }
        let size: usize = size as usize;
        self.trim(self.budget - size);
        let ghost kept = self.entries();
        proof {
            lemma_trimmed(before, (self.budget - size) as nat);
            lemma_total_front((code, value), kept);
            lemma_total_min(kept);
            assert forall|i: int| !#[trigger] holds_key(kept, i, code) by {
                if holds_key(kept, i, code) {
                    assert(holds_key(before, i, code));
                }
            }
        }
        self.bytes = self.bytes + size;
        recent_put(&mut self.lru, kcode, value.share());
        proof {
            let now = self.entries();
            assert forall|i: int, j: int|
                0 <= i < now.len() && 0 <= j < now.len() && i != j implies (#[trigger] now[i]).0
                != (#[trigger] now[j]).0 by {
                if i > 0 {
                    assert(now[i] == kept[i - 1]);
                    assert(!holds_key(kept, i - 1, code));
                }
                if j > 0 {
                    assert(now[j] == kept[j - 1]);
                    assert(!holds_key(kept, j - 1, code));
                }
            }
        }
        value
    }

    /// Drop entries that have gone unused for longest until the rest fits in
    /// `room` bytes.
    fn trim(&mut self, room: usize)
        requires
            distinct_keys(old(self).entries()),
            old(self).bytes == total_size(old(self).entries()),
            recent_limit(old(self).lru) == usize::MAX,
        ensures
            distinct_keys(final(self).entries()),
            final(self).bytes == total_size(final(self).entries()),
            recent_limit(final(self).lru) == usize::MAX,
            final(self).budget == old(self).budget,
            final(self).oversized == old(self).oversized,
            final(self).entries() == trimmed(old(self).entries(), room as nat),
            final(self).evictions == count_up(
                old(self).evictions,
                (old(self).entries().len() - final(self).entries().len()) as nat,
            ),
    {
        let ghost before = self.entries();
        let ghost start = self.evictions;
        while self.bytes > room
            invariant
                distinct_keys(self.entries()),
                self.bytes == total_size(self.entries()),
                recent_limit(self.lru) == usize::MAX,
                self.budget == old(self).budget,
                self.oversized == old(self).oversized,
                trimmed(self.entries(), room as nat) == trimmed(before, room as nat),
                self.entries().len() <= before.len(),
                self.evictions == count_up(start, (before.len() - self.entries().len()) as nat),
            decreases self.entries().len(),
        {
            let ghost here = self.entries();
            match recent_pop(&mut self.lru) {
                Some((_, evicted)) => {
                    proof {
                        assert forall|i: int, j: int|
                            0 <= i < here.len() - 1 && 0 <= j < here.len() - 1 && i
                                != j implies (#[trigger] here.drop_last()[i]).0 != (
                        #[trigger] here.drop_last()[j]).0 by {
                            assert(here[i].0 != here[j].0);
                        }
                    }
                    self.bytes = self.bytes - evicted.size() as usize;
                    self.evictions = self.evictions.wrapping_add(1);
                },
                None => {
                    return ;
                },
            }
        }
    }

    /// Drop all entries.
    pub fn clear(&mut self)
        requires
            old(self).wf(),
        ensures
            final(self).wf(),
            final(self).entries() == Entries::empty(),
            final(self).spec_budget() == old(self).spec_budget(),
            final(self).spec_evictions() == old(self).spec_evictions(),
            final(self).spec_oversized() == old(self).spec_oversized(),
    {
        recent_clear(&mut self.lru);
        self.bytes = 0;
    }

    /// Change the budget, evicting immediately if it shrank.
    pub fn set_budget(&mut self, budget: usize)
        requires
            old(self).wf(),
        ensures
            final(self).wf(),
            final(self).spec_budget() == budget,
            final(self).entries() == trimmed(old(self).entries(), budget as nat),
            final(self).spec_evictions() == count_up(
                old(self).spec_evictions(),
                (old(self).entries().len() - final(self).entries().len()) as nat,
            ),
            final(self).spec_oversized() == old(self).spec_oversized(),
    {
        self.budget = budget;
        self.trim(budget);
        proof {
            lemma_trimmed(old(self).entries(), budget as nat);
        }
    }

    /// The current budget, in bytes.
    pub fn budget(&self) -> (n: usize)
        ensures
            n == self.spec_budget(),
    {
        self.budget
    }

    /// The cache's counters, with the given numbers of hits and misses.
    pub fn stats(&self, hits: u64, misses: u64) -> (s: CacheStats)
        requires
            self.wf(),
        ensures
            s.hits == hits,
            s.misses == misses,
            s.evictions == self.spec_evictions(),
            s.oversized == self.spec_oversized(),
            s.entries == self.entries().len(),
            s.bytes_resident == total_size(self.entries()),
            s.bytes_budget == self.spec_budget(),
    {
        CacheStats {
            hits,
            misses,
            evictions: self.evictions,
            oversized: self.oversized,
            entries: recent_len(&self.lru),
            bytes_resident: self.bytes,
            bytes_budget: self.budget,
        }
    }
}

/// A value was handed to a cache: `r` came back, and `after` is the cache
/// then.
pub open spec fn inserted(
    before: PixelCache,
    key: CacheKey,
    value: CacheValue,
    after: PixelCache,
    r: CacheValue,
) -> bool {
    let code = key.spec_code();
    let size = value.spec_size();
    &&& after.spec_budget() == before.spec_budget()
    &&& match find_value(before.entries(), code) {
        Some(existing) => {
            &&& r == existing
            &&& after.entries() == after_lookup(before.entries(), code)
            &&& after.spec_evictions() == before.spec_evictions()
            &&& after.spec_oversized() == before.spec_oversized()
        },
        None => {
            &&& r == value
            &&& if size > before.spec_budget() {
                &&& after.entries() == before.entries()
                &&& after.spec_evictions() == before.spec_evictions()
                &&& after.spec_oversized() == count_up(before.spec_oversized(), 1)
            } else {
                let kept = trimmed(before.entries(), (before.spec_budget() - size) as nat);
                &&& after.entries() == seq![(code, value)] + kept
                &&& after.spec_evictions() == count_up(
                    before.spec_evictions(),
                    (before.entries().len() - kept.len()) as nat,
                )
                &&& after.spec_oversized() == before.spec_oversized()
            }
        },
    }
}

/// A value that a cache has taken in is found again, and so is one that it
/// held already.
pub proof fn stored_value_is_found(
    before: PixelCache,
    key: CacheKey,
    value: CacheValue,
    after: PixelCache,
    r: CacheValue,
)
    requires
        before.wf(),
        after.wf(),
        inserted(before, key, value, after, r),
        find_value(before.entries(), key.spec_code()) is Some || value.spec_size()
            <= before.spec_budget(),
    ensures
        find_value(after.entries(), key.spec_code()) == Some(r),
{
    let code = key.spec_code();
    let now = after.entries();
    before.stays_within_budget();
    after.stays_within_budget();
    if find_value(before.entries(), code) is Some {
        let i = choose|i: int| #[trigger] holds_key(before.entries(), i, code);
        assert(now[0] == before.entries()[i]);
    }
    assert(holds_key(now, 0, code));
    let j = choose|i: int| #[trigger] holds_key(now, i, code);
    assert(j == 0);
}

/// A counter after `n` more events; counters wrap around.
pub open spec fn count_up(counter: u64, n: nat) -> u64 {
    ((counter + n) % 0x1_0000_0000_0000_0000) as u64
}

/// What a lookup found, and the entries afterwards.
proof fn lemma_found(before: Entries, key: KeyCode, after: Entries, value: CacheValue)
    requires
        distinct_keys(before),
        exists|i: int|
            {
                &&& #[trigger] holds_key(before, i, key)
                &&& value == before[i].1
                &&& after == moved_to_front(before, i)
            },
    ensures
        find_value(before, key) == Some(value),
        after == after_lookup(before, key),
        distinct_keys(after),
        total_size(after) == total_size(before),
{
    let i = choose|i: int|
        {
            &&& #[trigger] holds_key(before, i, key)
            &&& value == before[i].1
            &&& after == moved_to_front(before, i)
        };
    let j = choose|i: int| #[trigger] holds_key(before, i, key);
    assert(i == j);
    lemma_total_remove(before, i);
    lemma_total_front(before[i], before.remove(i));
    assert forall|a: int, b: int|
        0 <= a < after.len() && 0 <= b < after.len() && a != b implies (#[trigger] after[a]).0 != (
    #[trigger] after[b]).0 by {
        let pa = if a == 0 {
            i
        } else if a <= i {
            a - 1
        } else {
            a
        };
        let pb = if b == 0 {
            i
        } else if b <= i {
            b - 1
        } else {
            b
        };
        assert(after[a] == before[pa] && after[b] == before[pb]);
        assert(pa != pb);
    }
}

} // verus!
