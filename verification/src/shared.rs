//! A thread-safe reader with a bounded cache of decoded pixels.
//!
//! # Locking
//!
//! One lock guards everything that changes: the pixel cache, its counters and
//! the lazily filled indexes.  It is held only around a lookup or an
//! insertion; reading, inflating, de-planarising, premultiplying and reducing
//! all happen with nothing held, so render threads decode in parallel.
//!
//! Two threads that miss on the same entry may both decode it; that is
//! deliberate: decoding is a pure function of the bytes, so the results are
//! identical, and duplicate work is cheaper than blocking a reader behind
//! another reader's I/O.

use crate::cache::{
    after_lookup, count_up, find_value, inserted, is_right, keys_are_distinct, lemma_trimmed,
    share, total_size, trimmed, CacheKey, CacheOptions, CacheStats, CacheValue, Entries,
    PixelCache, PixelData, DEFAULT_CACHE_BUDGET,
};
use crate::decode::{
    image_size, is_allocatable, lemma_rows_in_image, tiles_cover, tiles_fit, DirView, Level,
    LevelView, TileDir,
};
use crate::error::{corrupt, unsupported, view_result, Error, ErrorView};
use crate::file_info::{FaceSource, FileInfo, InfoView};
use crate::format::{Encoding, FaceDataHeader};
use crate::image::{
    assembled, block_of, block_texel_of, dir_of, entry_of, face_of, first_tile_error, layout_of,
    level_of, no_tile, pixel_of, reduction_depth, solid_image, stored_tile_of, texel_of,
    tile_block_of, tile_images, tile_info_of, tile_of, tiled_of, too_large,
};
use crate::laws::{
    exact_reads, lemma_face_len, lemma_layout, lemma_texel_tile, lemma_tile_error,
    lemma_uncovered,
};
use crate::metadata::{EntryView, MetaData};
use crate::place::{
    check_buffer, do_tiles_cover, is_tile_inside, lemma_all_tiles_placed, lemma_checked,
    lemma_covering_tile_inside, lemma_no_tiles_placed, lemma_packed_placed, lemma_solid_texel,
    lemma_tile_is_smaller, lemma_tile_placed, lemma_tile_start, lemma_tiles_span,
    lemma_tiles_stay_inside, place, place_image, place_pixel, same_outside, tile_start,
    tiles_placed,
};
use crate::reader::{image_written, origin_of_tile};
use crate::recency::holds_key;
use crate::source::{lemma_block_len, lemma_dir_shape, lemma_level_shape, metadata_of, Source};
use crate::stream::{failures, is_handed_on, is_stream, stream, Failures, Stream};
use crate::texel::{arith, is_arith, Arith, PixelOp};
use crate::tile::{TileInfo, TileLayout};
use crate::types::{BorderMode, DataType, EdgeFilterMode, FaceInfo, MeshType, Res};
use crate::utils::rows_fit;
use std::sync::Arc;
use vstd::prelude::*;
use vstd::rwlock::{RwLock, RwLockPredicate};

verus! {

/// What a shared reader keeps between calls.
pub struct SharedState {
    pixels: PixelCache,
    hits: u64,
    misses: u64,
    levels: Vec<Option<Arc<Level>>>,
    metadata: Option<Arc<MetaData>>,
    budget_set: Ghost<bool>,
}

impl SharedState {
    /// The cache of pixels and tile directories.
    pub closed spec fn cache(&self) -> PixelCache {
        self.pixels
    }

    /// Number of lookups served from the cache.
    pub closed spec fn spec_hits(&self) -> u64 {
        self.hits
    }

    /// Number of lookups that had to read and decode.
    pub closed spec fn spec_misses(&self) -> u64 {
        self.misses
    }

    /// The level indexes read so far.
    pub closed spec fn spec_levels(&self) -> Seq<Option<LevelView>> {
        Seq::new(
            self.levels@.len(),
            |l: int|
                match self.levels@[l] {
                    Some(level) => Some(level@),
                    None => None,
                },
        )
    }

    /// The meta data, once read.
    pub closed spec fn spec_metadata(&self) -> Option<Seq<EntryView>> {
        match self.metadata {
            Some(md) => Some(md@),
            None => None,
        }
    }

    /// The budget has been changed since the state was made.
    pub closed spec fn budget_was_set(&self) -> bool {
        self.budget_set@
    }

    /// The cache counters.
    pub open spec fn spec_stats(&self) -> CacheStats {
        CacheStats {
            hits: self.spec_hits(),
            misses: self.spec_misses(),
            evictions: self.cache().spec_evictions(),
            oversized: self.cache().spec_oversized(),
            entries: self.cache().entries().len() as usize,
            bytes_resident: total_size(self.cache().entries()) as usize,
            bytes_budget: self.cache().spec_budget() as usize,
        }
    }

    /// Everything kept is what the file holds.
    pub open spec fn sound(&self, f: Stream, m: Arith, info: InfoView) -> bool {
        &&& self.cache().wf()
        &&& self.cache().sound(f, m, info)
        &&& self.spec_levels().len() == info.levels.len()
        &&& forall|l: int|
            0 <= l < self.spec_levels().len() && (#[trigger] self.spec_levels()[l]) is Some
                ==> level_of(f, info, l) == Ok::<LevelView, ErrorView>(self.spec_levels()[l]->0)
        &&& self.spec_metadata() is Some ==> metadata_of(f, info) == Ok::<
            Seq<EntryView>,
            ErrorView,
        >(self.spec_metadata()->0)
    }

    /// Nothing but the cache and its counters differs.
    pub open spec fn same_index(&self, other: &Self) -> bool {
        &&& self.spec_levels() == other.spec_levels()
        &&& self.spec_metadata() == other.spec_metadata()
    }

    /// The state before the first read of a file with `nlevels` levels.
    pub fn new(nlevels: usize, budget: usize) -> (s: Self)
        ensures
            s.cache().wf(),
            s.cache().entries() == Entries::empty(),
            s.cache().spec_budget() == budget,
            s.cache().spec_evictions() == 0,
            s.cache().spec_oversized() == 0,
            s.spec_hits() == 0,
            s.spec_misses() == 0,
            s.spec_levels() == Seq::new(nlevels as nat, |l: int| None::<LevelView>),
            s.spec_metadata() is None,
            !s.budget_was_set(),
    {
        let mut levels: Vec<Option<Arc<Level>>> = Vec::new();
        let mut i: usize = 0;
        while i < nlevels
            invariant
                i <= nlevels,
                levels@.len() == i,
                forall|l: int| 0 <= l < i ==> (#[trigger] levels@[l]) is None,
            decreases nlevels - i,
        {
            levels.push(None);
            i = i + 1;
        }
        let s = SharedState {
            pixels: PixelCache::new(budget),
            hits: 0,
            misses: 0,
            levels,
            metadata: None,
            budget_set: Ghost(false),
        };
        assert(s.spec_levels() =~= Seq::new(nlevels as nat, |l: int| None::<LevelView>));
        s
    }

    /// Look a key up and count the hit or miss.
    pub fn lookup(&mut self, key: &CacheKey) -> (r: Option<CacheValue>)
        requires
            old(self).cache().wf(),
        ensures
            final(self).cache().wf(),
            looked_up(*old(self), *key, *final(self), r),
    {
        let r = self.pixels.get(key);
        if r.is_some() {
            self.hits = self.hits.wrapping_add(1);
        } else {
            self.misses = self.misses.wrapping_add(1);
        }
        assert(self.spec_levels() =~= old(self).spec_levels());
        r
    }

    /// Insert a value, or return the one that is already there.
    pub fn store(&mut self, key: CacheKey, value: CacheValue) -> (r: CacheValue)
        requires
            old(self).cache().wf(),
        ensures
            final(self).cache().wf(),
            handed_over(*old(self), key, value, *final(self), r),
    {
        let r = self.pixels.insert_or_get(key, value);
        assert(self.spec_levels() =~= old(self).spec_levels());
        r
    }

    /// The index of a level, if it has been read.
    pub fn level(&self, levelid: usize) -> (r: Option<Arc<Level>>)
        requires
            levelid < self.spec_levels().len(),
        ensures
            match r {
                Some(level) => self.spec_levels()[levelid as int] == Some(level@),
                None => self.spec_levels()[levelid as int] is None,
            },
    {
        match &self.levels[levelid] {
            Some(level) => Some(share(level)),
            None => None,
        }
    }

    /// Keep the index of a level, unless there is one already.
    pub fn set_level(&mut self, levelid: usize, level: Arc<Level>)
        requires
            levelid < old(self).spec_levels().len(),
        ensures
            final(self).cache() == old(self).cache(),
            final(self).budget_was_set() == old(self).budget_was_set(),
            final(self).spec_hits() == old(self).spec_hits(),
            final(self).spec_misses() == old(self).spec_misses(),
            final(self).spec_metadata() == old(self).spec_metadata(),
            final(self).spec_levels() == if old(self).spec_levels()[levelid as int] is Some {
                old(self).spec_levels()
            } else {
                old(self).spec_levels().update(levelid as int, Some(level@))
            },
    {
        if self.levels[levelid].is_none() {
            self.levels[levelid] = Some(level);
            assert(self.spec_levels() =~= old(self).spec_levels().update(
                levelid as int,
                Some(level@),
            ));
        }
    }

    /// The meta data, if it has been read.
    pub fn metadata(&self) -> (r: Option<Arc<MetaData>>)
        ensures
            match r {
                Some(md) => self.spec_metadata() == Some(md@),
                None => self.spec_metadata() is None,
            },
    {
        match &self.metadata {
            Some(md) => Some(share(md)),
            None => None,
        }
    }

    /// Keep the meta data, unless it is there already.
    pub fn set_metadata(&mut self, md: Arc<MetaData>)
        ensures
            final(self).cache() == old(self).cache(),
            final(self).budget_was_set() == old(self).budget_was_set(),
            final(self).spec_hits() == old(self).spec_hits(),
            final(self).spec_misses() == old(self).spec_misses(),
            final(self).spec_levels() == old(self).spec_levels(),
            final(self).spec_metadata() == if old(self).spec_metadata() is Some {
                old(self).spec_metadata()
            } else {
                Some(md@)
            },
    {
        if self.metadata.is_none() {
            self.metadata = Some(md);
        }
        assert(self.spec_levels() =~= old(self).spec_levels());
    }

    /// Snapshot the cache counters.
    pub fn stats(&self) -> (s: CacheStats)
        requires
            self.cache().wf(),
        ensures
            s == self.spec_stats(),
            s.entries == self.cache().entries().len(),
            s.bytes_resident == total_size(self.cache().entries()),
            s.bytes_budget == self.cache().spec_budget(),
    {
        self.pixels.stats(self.hits, self.misses)
    }

    /// Drop all cached pixel data and tile directories.
    ///
    /// Parsed level indexes and meta data are kept: they are small and every
    /// read needs them.
    pub fn clear(&mut self)
        requires
            old(self).cache().wf(),
        ensures
            final(self).cache().wf(),
            final(self).same_index(old(self)),
            final(self).spec_hits() == old(self).spec_hits(),
            final(self).spec_misses() == old(self).spec_misses(),
            final(self).budget_was_set() == old(self).budget_was_set(),
            final(self).cache().entries() == Entries::empty(),
            final(self).cache().spec_budget() == old(self).cache().spec_budget(),
            final(self).cache().spec_evictions() == old(self).cache().spec_evictions(),
            final(self).cache().spec_oversized() == old(self).cache().spec_oversized(),
    {
        self.pixels.clear();
        assert(self.spec_levels() =~= old(self).spec_levels());
    }

    /// Change the cache budget, evicting immediately if it shrank.
    pub fn set_budget(&mut self, budget: usize)
        requires
            old(self).cache().wf(),
        ensures
            final(self).cache().wf(),
            final(self).same_index(old(self)),
            final(self).spec_hits() == old(self).spec_hits(),
            final(self).spec_misses() == old(self).spec_misses(),
            final(self).budget_was_set(),
            final(self).cache().spec_budget() == budget,
            final(self).cache().entries() == trimmed(
                old(self).cache().entries(),
                budget as nat,
            ),
            final(self).cache().spec_evictions() == count_up(
                old(self).cache().spec_evictions(),
                (old(self).cache().entries().len() - final(self).cache().entries().len()) as nat,
            ),
            final(self).cache().spec_oversized() == old(self).cache().spec_oversized(),
    {
        self.pixels.set_budget(budget);
        self.budget_set = Ghost(true);
        assert(self.spec_levels() =~= old(self).spec_levels());
    }

    /// The current cache budget, in bytes.
    pub fn budget(&self) -> (n: usize)
        ensures
            n == self.cache().spec_budget(),
    {
        self.pixels.budget()
    }
}

/// A key was looked up: `r` came back, the hit or miss was counted, and
/// `after` is the state then.
pub open spec fn looked_up(
    before: SharedState,
    key: CacheKey,
    after: SharedState,
    r: Option<CacheValue>,
) -> bool {
    let code = key.spec_code();
    &&& after.same_index(&before)
    &&& r == find_value(before.cache().entries(), code)
    &&& after.cache().entries() == after_lookup(before.cache().entries(), code)
    &&& after.budget_was_set() == before.budget_was_set()
    &&& after.cache().spec_budget() == before.cache().spec_budget()
    &&& after.cache().spec_evictions() == before.cache().spec_evictions()
    &&& after.cache().spec_oversized() == before.cache().spec_oversized()
    &&& after.spec_hits() == count_up(
        before.spec_hits(),
        if r is Some {
            1
        } else {
            0
        },
    )
    &&& after.spec_misses() == count_up(
        before.spec_misses(),
        if r is Some {
            0
        } else {
            1
        },
    )
}

/// A value was handed to the cache: `r` came back, and `after` is the state
/// then.
pub open spec fn handed_over(
    before: SharedState,
    key: CacheKey,
    value: CacheValue,
    after: SharedState,
    r: CacheValue,
) -> bool {
    &&& after.same_index(&before)
    &&& after.spec_hits() == before.spec_hits()
    &&& after.spec_misses() == before.spec_misses()
    &&& after.budget_was_set() == before.budget_was_set()
    &&& inserted(before.cache(), key, value, after.cache(), r)
}

/// A lookup in a sound cache returns what reading the file gives, and leaves
/// the cache sound.
pub proof fn lookup_is_sound(
    before: PixelCache,
    after: PixelCache,
    key: CacheKey,
    f: Stream,
    m: Arith,
    info: InfoView,
)
    requires
        before.sound(f, m, info),
        after.entries() == after_lookup(before.entries(), key.spec_code()),
    ensures
        after.sound(f, m, info),
        find_value(before.entries(), key.spec_code()) is Some ==> is_right(
            f,
            m,
            info,
            key,
            find_value(before.entries(), key.spec_code())->0,
        ),
{
    let old = before.entries();
    let new = after.entries();
    let code = key.spec_code();
    if exists|i: int| #[trigger] holds_key(old, i, code) {
        let i = choose|i: int| #[trigger] holds_key(old, i, code);
        assert(old[i].0 == code);
        assert forall|k: int, other: CacheKey|
            0 <= k < new.len() && other.spec_code() == (#[trigger] new[k]).0 implies #[trigger]
        is_right(f, m, info, other, new[k].1) by {
            let p = if k == 0 {
                i
            } else if k <= i {
                k - 1
            } else {
                k
            };
            assert(new[k] == old[p]);
        }
    }
}

/// Handing a sound cache what reading the file gives leaves it sound, and what
/// comes back is what reading the file gives.
pub proof fn store_is_sound(
    before: PixelCache,
    after: PixelCache,
    key: CacheKey,
    value: CacheValue,
    r: CacheValue,
    f: Stream,
    m: Arith,
    info: InfoView,
)
    requires
        before.sound(f, m, info),
        is_right(f, m, info, key, value),
        inserted(before, key, value, after, r),
    ensures
        after.sound(f, m, info),
        is_right(f, m, info, key, r),
{
    let old = before.entries();
    let new = after.entries();
    let code = key.spec_code();
    match find_value(old, code) {
        Some(_) => {
            lookup_is_sound(before, after, key, f, m, info);
        },
        None => {
            if value.spec_size() <= before.spec_budget() {
                let room = (before.spec_budget() - value.spec_size()) as nat;
                let kept = trimmed(old, room);
                lemma_trimmed(old, room);
                assert forall|k: int, other: CacheKey|
                    0 <= k < new.len() && other.spec_code() == (
                    #[trigger] new[k]).0 implies #[trigger] is_right(
                    f,
                    m,
                    info,
                    other,
                    new[k].1,
                ) by {
                    if k == 0 {
                        keys_are_distinct(other, key);
                    } else {
                        assert(new[k] == kept[k - 1]);
                        assert(kept[k - 1] == old[k - 1]);
                    }
                }
            }
        },
    }
}

/// Reading takes a state to another: a lookup, a value handed over, or an index
/// kept.
pub open spec fn read_step(before: SharedState, after: SharedState) -> bool {
    ||| exists|key: CacheKey, r: Option<CacheValue>| #[trigger] looked_up(before, key, after, r)
    ||| exists|key: CacheKey, value: CacheValue, r: CacheValue| #[trigger]
        handed_over(before, key, value, after, r)
    ||| after.cache() == before.cache() && after.budget_was_set() == before.budget_was_set()
}

/// Whatever is read, by however many handles, the budget stays the one that the
/// state was made with, the cache stays within it, and with a budget of zero
/// nothing is cached.
pub proof fn reads_keep_the_budget(states: Seq<SharedState>, budget: usize, i: int)
    requires
        0 <= i < states.len(),
        states[0].cache().spec_budget() == budget,
        !states[0].budget_was_set(),
        forall|k: int| 0 <= k < states.len() ==> (#[trigger] states[k]).cache().wf(),
        forall|k: int|
            0 < k < states.len() ==> read_step(states[k - 1], #[trigger] states[k]),
    ensures
        !states[i].budget_was_set(),
        states[i].cache().spec_budget() == budget,
        states[i].spec_stats().bytes_budget == budget,
        total_size(states[i].cache().entries()) <= budget,
        budget == 0 ==> states[i].spec_stats().entries == 0,
    decreases i,
{
    if i > 0 {
        reads_keep_the_budget(states, budget, i - 1);
        assert(read_step(states[i - 1], states[i]));
    }
    assert(states[i].cache().wf());
    states[i].cache().stays_within_budget();
}

/// The file that a shared reader reads, and the cache budget that the reader
/// was opened with.
pub struct FileModel {
    pub file: Stream,
    pub arith: Arith,
    pub info: InfoView,
    pub budget: usize,
}

impl RwLockPredicate<SharedState> for FileModel {
    open spec fn inv(self, v: SharedState) -> bool {
        &&& v.sound(self.file, self.arith, self.info)
        &&& !v.budget_was_set() ==> v.cache().spec_budget() == self.budget
    }
}

struct Shared<R, M> {
    source: Source<R, M>,
    state: RwLock<SharedState, FileModel>,
}

/// A thread-safe, cheaply clonable reader for Ptex texture files.
///
/// Cloning is an `Arc` bump: every clone shares one open stream, one set of
/// parsed indexes and one bounded cache of decoded pixels.  All read methods
/// take `&self`, so a single handle serves any number of render threads.
///
/// Compared with [`crate::PtexReader`], reads return [`PixelData`], a
/// reference-counted handle into the cache, so a repeated request for the
/// same tile copies nothing.
pub struct SharedReader<R, M> {
    inner: Arc<Shared<R, M>>,
}

impl<R, M> Clone for SharedReader<R, M> {
    fn clone(&self) -> (r: Self)
        ensures
            r == *self,
    {
        SharedReader { inner: share(&self.inner) }
    }
}

/// What a data block holds.
enum Block {
    Constant(Vec<u8>),
    Image(PixelData),
}

impl Block {
    /// The image that the block makes up.
    spec fn image(self, res: Res) -> Seq<u8> {
        match self {
            Block::Constant(pixel) => solid_image(pixel@, res),
            Block::Image(data) => data@,
        }
    }
}

/// A result over pixel data, with the bytes and the error by their views.
pub open spec fn view_pixels(r: Result<PixelData, Error>) -> Result<Seq<u8>, ErrorView> {
    match r {
        Ok(p) => Ok(p@),
        Err(e) => Err(e@),
    }
}

impl<R: Fn(u64, usize) -> Result<Vec<u8>, std::io::Error>, M: Fn(PixelOp) -> u32> SharedReader<
    R,
    M,
> {
    /// Contents of the stream.
    pub closed spec fn file(&self) -> Stream {
        self.inner.source.file()
    }

    /// Errors with which reads can fail.
    pub closed spec fn failures(&self) -> Failures {
        self.inner.source.failures()
    }

    /// Results of arithmetic on texels.
    pub closed spec fn arith(&self) -> Arith {
        self.inner.source.arith()
    }

    /// Tables of the file.
    pub closed spec fn tables(&self) -> InfoView {
        self.inner.source.tables()
    }

    /// The cache budget that the reader was opened with, in bytes.
    pub closed spec fn opened_with(&self) -> usize {
        self.inner.state.pred().budget
    }

    /// What is kept between calls is what the file holds, whatever other
    /// handles do.
    pub closed spec fn wf(&self) -> bool {
        &&& self.inner.source.wf()
        &&& self.tables().wf()
        &&& self.inner.state.pred() == (FileModel {
            file: self.file(),
            arith: self.arith(),
            info: self.tables(),
            budget: self.opened_with(),
        })
    }

    /// What holds of every reader: its tables have the sizes that the header
    /// gives, and its stream returns as many bytes as it is asked for.
    pub proof fn reads_are_exact(&self)
        requires
            self.wf(),
        ensures
            self.tables().wf(),
            self.tables().pixel_size <= 4 * 0xffff,
            exact_reads(self.file()),
    {
        self.inner.source.lemma_wf();
    }

    /// A state that the lock may guard: everything in it is what the file
    /// holds, and until a handle sets another budget it has the one that the
    /// reader was opened with.
    pub open spec fn admits(&self, state: SharedState) -> bool {
        &&& state.sound(self.file(), self.arith(), self.tables())
        &&& !state.budget_was_set() ==> state.cache().spec_budget() == self.opened_with()
    }

    /// Make a shared reader for an open file, with a cache of `budget` bytes.
    pub fn from_source(source: Source<R, M>, budget: usize) -> (r: Self)
        requires
            source.wf(),
        ensures
            r.wf(),
            r.file() == source.file(),
            r.failures() == source.failures(),
            r.arith() == source.arith(),
            r.tables() == source.tables(),
            r.opened_with() == budget,
    {
        proof {
            source.lemma_wf();
        }
        let ghost model = FileModel {
            file: source.file(),
            arith: source.arith(),
            info: source.tables(),
            budget,
        };
        let state = SharedState::new(source.info().num_levels(), budget);
        let state = RwLock::new(state, Ghost(model));
        SharedReader { inner: Arc::new(Shared { source, state }) }
    }

    /// Read the tables of a file and make a shared reader for it, with the
    /// default cache budget.
    pub fn new(read: R, math: M) -> (r: Result<Self, Error>)
        requires
            is_stream(read),
            is_arith(math),
        ensures
            match r {
                Ok(tx) => {
                    &&& tx.wf()
                    &&& tx.file() == stream(read)
                    &&& tx.failures() == failures(read)
                    &&& tx.arith() == arith(math)
                    &&& crate::open::info_of(stream(read), arith(math), false) == Ok::<
                        InfoView,
                        ErrorView,
                    >(tx.tables())
                    &&& tx.opened_with() == DEFAULT_CACHE_BUDGET
                },
                Err(e) => crate::open::info_of(stream(read), arith(math), false) == Err::<
                    InfoView,
                    ErrorView,
                >(e@),
            },
            r is Err ==> is_handed_on(r->Err_0, failures(read)),
    {
        Self::new_with_options(read, math, CacheOptions::default())
    }

    /// Read the tables of a file and make a shared reader for it, with
    /// explicit options.
    pub fn new_with_options(read: R, math: M, options: CacheOptions) -> (r: Result<Self, Error>)
        requires
            is_stream(read),
            is_arith(math),
        ensures
            match r {
                Ok(tx) => {
                    &&& tx.wf()
                    &&& tx.file() == stream(read)
                    &&& tx.failures() == failures(read)
                    &&& tx.arith() == arith(math)
                    &&& crate::open::info_of(stream(read), arith(math), options.premultiply)
                        == Ok::<InfoView, ErrorView>(tx.tables())
                    &&& tx.opened_with() == options.budget_bytes
                },
                Err(e) => crate::open::info_of(stream(read), arith(math), options.premultiply)
                    == Err::<InfoView, ErrorView>(e@),
            },
            r is Err ==> is_handed_on(r->Err_0, failures(read)),
    {
        match FileInfo::read(&read, &math, options.premultiply) {
            Ok(info) => Ok(
                SharedReader::from_source(Source::new(info, read, math), options.budget_bytes),
            ),
            Err(e) => Err(e),
        }
    }

    // ---- cache administration ----

    /// Snapshot the cache counters.
    ///
    /// All of them are taken from one state that the lock guarded; other
    /// handles decide which.  The budget in it is the one that the reader was
    /// opened with, unless a handle has set another.
    pub fn cache_stats(&self) -> (s: CacheStats)
        requires
            self.wf(),
        ensures
            exists|state: SharedState| #[trigger]
                self.admits(state) && s == state.spec_stats() && s.entries
                    == state.cache().entries().len() && s.bytes_resident == total_size(
                    state.cache().entries(),
                ) && s.bytes_budget == state.cache().spec_budget() && (!state.budget_was_set()
                    ==> s.bytes_budget == self.opened_with()),
            s.bytes_resident <= s.bytes_budget,
            crate::cache::ENTRY_OVERHEAD * s.entries <= s.bytes_resident,
            s.bytes_budget == 0 ==> s.entries == 0,
    {
        let (state, handle) = self.inner.state.acquire_write();
        let s = state.stats();
        proof {
            state.cache().stays_within_budget();
            crate::cache::lemma_total_min(state.cache().entries());
            assert(self.admits(state));
        }
        handle.release_write(state);
        s
    }

    /// Drop all cached pixel data and tile directories.
    ///
    /// Parsed level indexes and meta data are kept: they are small and every
    /// read needs them.
    pub fn clear_cache(&self)
        requires
            self.wf(),
    {
        let (mut state, handle) = self.inner.state.acquire_write();
        state.clear();
        handle.release_write(state);
    }

    /// Change the cache budget, evicting immediately if it shrank.
    pub fn set_cache_budget(&self, bytes: usize)
        requires
            self.wf(),
    {
        let (mut state, handle) = self.inner.state.acquire_write();
        let ghost before = state;
        state.set_budget(bytes);
        proof {
            lemma_trimmed(before.cache().entries(), bytes as nat);
            let old = before.cache().entries();
            let new = state.cache().entries();
            assert forall|k: int, key: CacheKey|
                0 <= k < new.len() && key.spec_code() == (#[trigger] new[k]).0 implies #[trigger]
            is_right(self.file(), self.arith(), self.tables(), key, new[k].1) by {
                assert(new[k] == old[k]);
            }
        }
        handle.release_write(state);
    }

    /// The current cache budget, in bytes.
    ///
    /// It is that of a state that the lock guarded; other handles decide
    /// which.  It is the one that the reader was opened with, unless a handle
    /// has set another.
    pub fn cache_budget(&self) -> (n: usize)
        requires
            self.wf(),
        ensures
            exists|state: SharedState| #[trigger]
                self.admits(state) && n == state.cache().spec_budget() && (
                !state.budget_was_set() ==> n == self.opened_with()),
    {
        let (state, handle) = self.inner.state.acquire_write();
        assert(self.admits(state));
        let n: usize = state.budget();
        handle.release_write(state);
        n
    }

    // ---- internals ----

    /// Look a key up in the state that the lock guards, in one step.
    fn cache_get(&self, key: &CacheKey) -> (r: Option<CacheValue>)
        requires
            self.wf(),
        ensures
            exists|before: SharedState, after: SharedState| #[trigger]
                looked_up(before, *key, after, r) && self.admits(before) && self.admits(after),
            r is Some ==> is_right(self.file(), self.arith(), self.tables(), *key, r->0),
    {
        let (mut state, handle) = self.inner.state.acquire_write();
        let ghost before = state;
        let r = state.lookup(key);
        proof {
            lookup_is_sound(
                before.cache(),
                state.cache(),
                *key,
                self.file(),
                self.arith(),
                self.tables(),
            );
        }
        handle.release_write(state);
        r
    }

    /// Hand a value to the cache that the lock guards, in one step.
    fn cache_put(&self, key: CacheKey, value: CacheValue) -> (r: CacheValue)
        requires
            self.wf(),
            is_right(self.file(), self.arith(), self.tables(), key, value),
        ensures
            exists|before: SharedState, after: SharedState| #[trigger]
                handed_over(before, key, value, after, r) && self.admits(before) && self.admits(
                    after,
                ),
            is_right(self.file(), self.arith(), self.tables(), key, r),
    {
        let (mut state, handle) = self.inner.state.acquire_write();
        let ghost before = state;
        let r = state.store(key, value);
        proof {
            store_is_sound(
                before.cache(),
                state.cache(),
                key,
                value,
                r,
                self.file(),
                self.arith(),
                self.tables(),
            );
        }
        handle.release_write(state);
        r
    }

    /// Hand pixels to the cache that the lock guards, and use those that it
    /// held already, if it did.
    fn store(&self, key: CacheKey, data: PixelData) -> (r: PixelData)
        requires
            self.wf(),
            is_right(
                self.file(),
                self.arith(),
                self.tables(),
                key,
                CacheValue::Pixels(data),
            ),
        ensures
            r@ == data@,
            exists|before: SharedState, after: SharedState| #[trigger]
                handed_over(
                    before,
                    key,
                    CacheValue::Pixels(data),
                    after,
                    CacheValue::Pixels(r),
                ) && self.admits(before) && self.admits(after),
    {
        match self.cache_put(key, CacheValue::Pixels(data.share())) {
            CacheValue::Pixels(p) => p,
            CacheValue::Dir(_) => data,
        }
    }

    /// Read and keep the face index of a level.
    fn level(&self, levelid: usize) -> (r: Result<Arc<Level>, Error>)
        requires
            self.wf(),
            levelid < self.tables().levels.len(),
        ensures
            match r {
                Ok(level) => level_of(self.file(), self.tables(), levelid as int) == Ok::<
                    LevelView,
                    ErrorView,
                >(level@),
                Err(e) => level_of(self.file(), self.tables(), levelid as int) == Err::<
                    LevelView,
                    ErrorView,
                >(e@),
            },
            r is Err ==> is_handed_on(r->Err_0, self.failures()),
    {
        let (state, handle) = self.inner.state.acquire_write();
        let known = state.level(levelid);
        handle.release_write(state);
        match known {
            Some(level) => {
                return Ok(level);
            },
            None => {},
        }
        let level = match self.inner.source.load_level(levelid) {
            Ok(level) => Arc::new(level),
            Err(e) => {
                return Err(e);
            },
        };
        // A racing thread may have set it first; its value is identical.
        let (mut state, handle) = self.inner.state.acquire_write();
        state.set_level(levelid, share(&level));
        handle.release_write(state);
        Ok(level)
    }

    /// Header and absolute file offset of a face within a level.
    fn level_entry(&self, levelid: usize, facepos: usize) -> (r: Result<
        (FaceDataHeader, u64),
        Error,
    >)
        requires
            self.wf(),
            levelid < self.tables().levels.len(),
        ensures
            view_result(r) == entry_of(
                self.file(),
                self.tables(),
                levelid as int,
                facepos as int,
            ),
            r is Err ==> is_handed_on(r->Err_0, self.failures()),
    {
        match self.level(levelid) {
            Ok(level) => {
                proof {
                    lemma_level_shape(self.file(), self.tables(), levelid as int);
                }
                if facepos < level.fdh.len() {
                    Ok((level.fdh[facepos], level.offsets[facepos]))
                } else {
                    Err(corrupt("face missing from level"))
                }
            },
            Err(e) => Err(e),
        }
    }

    /// Read, or take from the cache, the tile directory of a tiled block.
    fn tile_dir(&self, pos: u64, res: Res) -> (r: Result<Arc<TileDir>, Error>)
        requires
            self.wf(),
        ensures
            match r {
                Ok(dir) => dir_of(self.file(), pos, res) == Ok::<DirView, ErrorView>(dir@),
                Err(e) => dir_of(self.file(), pos, res) == Err::<DirView, ErrorView>(e@),
            },
            r is Err ==> is_handed_on(r->Err_0, self.failures()),
    {
        let key = CacheKey::TileDir { pos, res };
        match self.cache_get(&key) {
            Some(CacheValue::Dir(dir)) => {
                return Ok(dir);
            },
            _ => {},
        }
        let dir = match self.inner.source.load_dir(pos, res) {
            Ok(dir) => Arc::new(dir),
            Err(e) => {
                return Err(e);
            },
        };
        match self.cache_put(key, CacheValue::Dir(share(&dir))) {
            CacheValue::Dir(d) => Ok(d),
            CacheValue::Pixels(_) => Ok(dir),
        }
    }

    /// Read, or take from the cache, one non-tiled data block.
    fn block(&self, pos: u64, fdh: FaceDataHeader, res: Res, levelid: usize) -> (r: Result<
        Block,
        Error,
    >)
        requires
            self.wf(),
        ensures
            ({
                let want = block_of(
                    self.file(),
                    self.arith(),
                    self.tables(),
                    pos,
                    fdh,
                    res,
                    levelid as int,
                );
                match r {
                    Ok(b) => want == Ok::<Seq<u8>, ErrorView>(b.image(res)) && b.image(res).len()
                        == image_size(self.tables(), res) && is_allocatable(self.tables(), res)
                        && (b is Constant ==> b->Constant_0@.len() == self.tables().pixel_size),
                    Err(e) => want == Err::<Seq<u8>, ErrorView>(e@),
                }
            }),
            r is Err ==> is_handed_on(r->Err_0, self.failures()),
    {
        proof {
            self.inner.source.lemma_wf();
            lemma_block_len(
                self.file(),
                self.arith(),
                self.tables(),
                pos,
                fdh,
                res,
                levelid as int,
            );
        }
        match fdh.encoding() {
            Encoding::Constant => {
                // Cheap to reproduce and potentially huge once expanded, so
                // constant blocks are never cached.
                proof {
                    reveal(block_of);
                }
                match self.inner.source.load_pixel(pos, fdh, levelid) {
                    Ok(pixel) => if self.inner.source.fits(res) {
                        Ok(Block::Constant(pixel))
                    } else {
                        Err(unsupported("buffer too small for requested res"))
                    },
                    Err(e) => Err(e),
                }
            },
            Encoding::Zipped | Encoding::DiffZipped => {
                let key = CacheKey::Block { pos, fdh, res, levelid };
                match self.cache_get(&key) {
                    Some(CacheValue::Pixels(data)) => {
                        return Ok(Block::Image(data));
                    },
                    _ => {},
                }
                match self.inner.source.load_packed(pos, fdh, res, levelid) {
                    Ok(data) => Ok(Block::Image(self.store(key, PixelData::new(data)))),
                    Err(e) => Err(e),
                }
            },
            Encoding::Tiled => {
                proof {
                    reveal(block_of);
                }
                Err(corrupt("nested tiled face data"))
            },
        }
    }

    /// Write one non-tiled block into a strided destination buffer.
    fn block_into(
        &self,
        pos: u64,
        fdh: FaceDataHeader,
        res: Res,
        levelid: usize,
        dst: &mut [u8],
        stride: usize,
    ) -> (r: Result<(), Error>)
        requires
            self.wf(),
            res.spec_u() * self.tables().pixel_size <= stride,
            rows_fit(
                res.spec_v() as int,
                stride as int,
                (res.spec_u() * self.tables().pixel_size) as int,
                old(dst)@.len(),
            ),
        ensures
            ({
                let block = block_of(
                    self.file(),
                    self.arith(),
                    self.tables(),
                    pos,
                    fdh,
                    res,
                    levelid as int,
                );
                match r {
                    Ok(_) => block is Ok && final(dst)@ == place(
                        old(dst)@,
                        block->Ok_0,
                        stride as int,
                        (res.spec_u() * self.tables().pixel_size) as int,
                        res.spec_v() as int,
                    ),
                    Err(e) => block == Err::<Seq<u8>, ErrorView>(e@) && final(dst)@ == old(dst)@,
                }
            }),
            r is Err ==> is_handed_on(r->Err_0, self.failures()),
    {
        match self.block(pos, fdh, res, levelid) {
            Ok(Block::Constant(pixel)) => {
                place_pixel(pixel.as_slice(), dst, stride, res);
                Ok(())
            },
            Ok(Block::Image(data)) => {
                place_image(
                    data.as_slice(),
                    dst,
                    stride,
                    res,
                    self.inner.source.info().pixel_size,
                );
                Ok(())
            },
            Err(e) => Err(e),
        }
    }

    /// Expand a block to a packed image.
    fn block_image(&self, block: Block, res: Res) -> (p: PixelData)
        requires
            self.wf(),
            block.image(res).len() == image_size(self.tables(), res),
            is_allocatable(self.tables(), res),
            block is Constant ==> block->Constant_0@.len() == self.tables().pixel_size,
        ensures
            p@ == block.image(res),
    {
        match block {
            Block::Image(data) => data,
            Block::Constant(pixel) => self.solid(pixel.as_slice(), res),
        }
    }

    /// An image of a single color.
    fn solid(&self, pixel: &[u8], res: Res) -> (p: PixelData)
        requires
            self.wf(),
            pixel@.len() == self.tables().pixel_size,
            is_allocatable(self.tables(), res),
        ensures
            p@ == solid_image(pixel@, res),
            p@.len() == image_size(self.tables(), res),
    {
        let ps: usize = pixel.len();
        let uw: usize = res.u();
        let vw: usize = res.v();
        proof {
            lemma_rows_in_image(uw as int, vw as int, ps as int, vw as int, uw as int);
            assert(uw * vw * ps == vw * (uw * ps)) by (nonlinear_arith);
            crate::place::lemma_solid_rows(pixel@, res);
        }
        let n: usize = crate::decode::packed_size(res, ps);
        let mut buf: Vec<u8> = vec![0u8; n];
        let ghost d = buf@;
        place_pixel(pixel, buf.as_mut_slice(), uw * ps, res);
        proof {
            lemma_packed_placed(d, solid_image(pixel@, res), uw * ps, vw as int);
        }
        PixelData::new(buf)
    }

    /// Fill a face-sized buffer by streaming every tile of a tiled block.
    fn assemble_tiles(
        &self,
        pos: u64,
        res: Res,
        levelid: usize,
        buffer: &mut [u8],
        stride: usize,
    ) -> (r: Result<(), Error>)
        requires
            self.wf(),
            res.spec_u() * self.tables().pixel_size <= stride,
            rows_fit(
                res.spec_v() as int,
                stride as int,
                (res.spec_u() * self.tables().pixel_size) as int,
                old(buffer)@.len(),
            ),
        ensures
            ({
                let img = tiled_of(
                    self.file(),
                    self.arith(),
                    self.tables(),
                    pos,
                    res,
                    levelid as int,
                );
                let rowlen = (res.spec_u() * self.tables().pixel_size) as int;
                match r {
                    Ok(_) => img is Ok && final(buffer)@ == place(
                        old(buffer)@,
                        img->Ok_0,
                        stride as int,
                        rowlen,
                        res.spec_v() as int,
                    ),
                    Err(e) => img == Err::<Seq<u8>, ErrorView>(e@) && same_outside(
                        old(buffer)@,
                        final(buffer)@,
                        stride as int,
                        rowlen,
                        res.spec_v() as int,
                    ),
                }
            }),
            r is Err ==> is_handed_on(r->Err_0, self.failures()),
    {
        let ghost d0 = buffer@;
        let ghost f = self.file();
        let ghost m = self.arith();
        let ghost info = self.tables();
        let dir = match self.tile_dir(pos, res) {
            Ok(dir) => dir,
            Err(e) => {
                return Err(e);
            },
        };
        let ps: usize = self.inner.source.info().pixel_size;
        let tile_res: Res = dir.tile_res;
        let ntiles: usize = dir.fdh.len();
        let ghost tiles = tile_images(f, m, info, dir@, levelid as int);
        let ghost img = assembled(tiles, res, tile_res, ps as nat);
        proof {
            lemma_dir_shape(f, pos, res);
            lemma_tiles_span(res, tile_res);
            assert(buffer@.len() == buffer.len());
        }
        if !do_tiles_cover(res, tile_res) {
            return match self.read_uncovered(pos, res, levelid, &dir) {
                Ok(_) => {
                    proof {
                        lemma_uncovered(f, m, info, dir@, levelid as int, res);
                        assert(res.spec_u() * 0 == 0);
                        assert(buffer@ =~= place(
                            d0,
                            img,
                            stride as int,
                            0,
                            res.spec_v() as int,
                        ));
                    }
                    Ok(())
                },
                Err(e) => Err(e),
            };
        }
        proof {
            lemma_no_tiles_placed(d0, img, res, tile_res, ps as nat, stride as int);
        }
        let ntilesu: usize = res.ntilesu(tile_res);
        let tu: usize = tile_res.u();
        let tilevres: usize = tile_res.v();
        let mut tile: usize = 0;
        while tile < ntiles
            invariant
                tile <= ntiles,
                self.wf(),
                f == self.file(),
                m == self.arith(),
                info == self.tables(),
                ps == info.pixel_size,
                dir_of(f, pos, res) == Ok::<DirView, ErrorView>(dir@),
                dir@.tile_res == tile_res,
                dir@.fdh.len() == ntiles,
                dir@.offsets.len() == ntiles,
                ntiles == res.spec_ntiles(tile_res),
                tiles_cover(res, tile_res),
                tiles == tile_images(f, m, info, dir@, levelid as int),
                img == assembled(tiles, res, tile_res, ps as nat),
                ntilesu == res.spec_ntilesu(tile_res),
                ntilesu > 0,
                tu == tile_res.spec_u(),
                tilevres == tile_res.spec_v(),
                tilevres > 0,
                res.spec_u() * ps <= stride,
                rows_fit(
                    res.spec_v() as int,
                    stride as int,
                    (res.spec_u() * ps) as int,
                    d0.len(),
                ),
                d0 == old(buffer)@,
                d0.len() <= usize::MAX,
                first_tile_error(f, m, info, dir@, levelid as int, res, tile as nat) is None,
                tiles_placed(
                    d0,
                    buffer@,
                    img,
                    res,
                    tile_res,
                    ps as nat,
                    stride as int,
                    tile as int,
                ),
            decreases ntiles - tile,
        {
            let ghost cur = buffer@;
            proof {
                lemma_tile_start(
                    tile as int,
                    stride as int,
                    res,
                    tile_res,
                    ps as nat,
                    d0.len(),
                );
                lemma_tile_is_smaller(res, tile_res, ps as nat);
                lemma_covering_tile_inside(tile as int, res, tile_res, ps as nat);
            }
            let i: usize = tile / ntilesu;
            let j: usize = tile % ntilesu;
            let tilerowlen: usize = tu * ps;
            assert(i * stride <= i * stride * tilevres) by (nonlinear_arith)
                requires
                    0 <= i * stride,
                    1 <= tilevres,
            ;
            let off: usize = i * stride * tilevres + j * tilerowlen;
            assert(off == tile_start(tile as int, stride as int, res, tile_res, ps as nat));
            let (head, tail) = buffer.split_at_mut(off);
            let r = self.block_into(
                dir.offsets[tile],
                dir.fdh[tile],
                tile_res,
                levelid,
                tail,
                stride,
            );
            proof {
                assert(cur.take(off as int) == cur.subrange(0, off as int));
                assert(cur.skip(off as int) =~= cur.subrange(off as int, cur.len() as int));
            }
            match r {
                Ok(_) => {
                    proof {
                        lemma_tile_placed(
                            d0,
                            cur,
                            buffer@,
                            tiles,
                            res,
                            tile_res,
                            ps as nat,
                            stride as int,
                            tile as int,
                        );
                    }
                },
                Err(e) => {
                    proof {
                        assert(buffer@ =~= cur);
                        lemma_tiles_stay_inside(
                            d0,
                            cur,
                            img,
                            res,
                            tile_res,
                            ps as nat,
                            stride as int,
                            tile as int,
                        );
                        lemma_tile_error(
                            f,
                            m,
                            info,
                            dir@,
                            levelid as int,
                            res,
                            (tile + 1) as nat,
                            ntiles as nat,
                        );
                    }
                    return Err(e);
                },
            }
            tile = tile + 1;
        }
        proof {
            lemma_all_tiles_placed(d0, buffer@, img, res, tile_res, ps as nat, stride as int);
        }
        Ok(())
    }

    /// Read the tiles of a grid that is larger than its face, up to the first
    /// that lies outside the face or cannot be read.
    fn read_uncovered(&self, pos: u64, res: Res, levelid: usize, dir: &TileDir) -> (r: Result<
        (),
        Error,
    >)
        requires
            self.wf(),
            dir_of(self.file(), pos, res) == Ok::<DirView, ErrorView>(dir@),
        ensures
            first_tile_error(
                self.file(),
                self.arith(),
                self.tables(),
                dir@,
                levelid as int,
                res,
                dir@.fdh.len(),
            ) == match r {
                Ok(_) => None::<ErrorView>,
                Err(e) => Some(e@),
            },
            r is Err ==> is_handed_on(r->Err_0, self.failures()),
    {
        let ghost f = self.file();
        let ghost m = self.arith();
        let ghost info = self.tables();
        proof {
            lemma_dir_shape(f, pos, res);
        }
        let tile_res: Res = dir.tile_res;
        let ntiles: usize = dir.fdh.len();
        let ps: usize = self.inner.source.info().pixel_size;
        let mut tile: usize = 0;
        while tile < ntiles
            invariant
                tile <= ntiles,
                self.wf(),
                f == self.file(),
                m == self.arith(),
                info == self.tables(),
                ps == info.pixel_size,
                dir@.tile_res == tile_res,
                dir@.fdh.len() == ntiles,
                dir@.offsets.len() == ntiles,
                tiles_fit(res, tile_res),
                first_tile_error(f, m, info, dir@, levelid as int, res, tile as nat) is None,
            decreases ntiles - tile,
        {
            proof {
                if first_tile_error(f, m, info, dir@, levelid as int, res, (tile + 1) as nat)
                    is Some {
                    lemma_tile_error(
                        f,
                        m,
                        info,
                        dir@,
                        levelid as int,
                        res,
                        (tile + 1) as nat,
                        ntiles as nat,
                    );
                }
            }
            if !is_tile_inside(tile, res, tile_res, ps) {
                return Err(corrupt("tile outside the face"));
            }
            match self.block(dir.offsets[tile], dir.fdh[tile], tile_res, levelid) {
                Ok(_) => {},
                Err(e) => {
                    return Err(e);
                },
            }
            tile = tile + 1;
        }
        Ok(())
    }

    /// Compute, or take from the cache, a dynamically reduced resolution.
    fn reduced(&self, faceid: usize, res: Res) -> (r: Result<PixelData, Error>)
        requires
            self.wf(),
            self.tables().source(faceid as int, res) == Ok::<FaceSource, ErrorView>(
                FaceSource::Reduced,
            ),
        ensures
            view_pixels(r) == face_of(
                self.file(),
                self.arith(),
                self.tables(),
                faceid as int,
                res,
            ),
            r is Err ==> is_handed_on(r->Err_0, self.failures()),
        decreases reduction_depth(self.tables(), faceid as int, res), 0nat,
    {
        let key = CacheKey::Reduced { faceid, res };
        match self.cache_get(&key) {
            Some(CacheValue::Pixels(data)) => {
                return Ok(data);
            },
            _ => {},
        }
        let (src_res, kind) = match self.inner.source.info().reduction_source(faceid, res) {
            Ok(from) => from,
            Err(e) => {
                return Err(e);
            },
        };
        let src = match self.get_data_at_res(faceid, src_res) {
            Ok(src) => src,
            Err(e) => {
                return Err(e);
            },
        };
        match self.inner.source.reduce(src.as_slice(), src_res, res, kind) {
            Ok(data) => Ok(self.store(key, PixelData::new(data))),
            Err(e) => Err(e),
        }
    }

    // ---- reading ----

    /// Read the full-resolution pixel data for a face.
    pub fn get_data(&self, faceid: usize) -> (r: Result<PixelData, Error>)
        requires
            self.wf(),
        ensures
            view_pixels(r) == match self.tables().face(faceid as int) {
                Ok(face) => face_of(
                    self.file(),
                    self.arith(),
                    self.tables(),
                    faceid as int,
                    face.res,
                ),
                Err(e) => Err(e),
            },
            r is Ok ==> r->Ok_0@.len() == image_size(
                self.tables(),
                self.tables().faces[faceid as int].res,
            ),
            r is Err ==> is_handed_on(r->Err_0, self.failures()),
    {
        let res: Res = match self.inner.source.info().face_info(faceid) {
            Ok(face) => face.res,
            Err(e) => {
                return Err(e);
            },
        };
        self.get_data_at_res(faceid, res)
    }

    /// Read pixel data for a face at the given resolution.
    ///
    /// Stored resolutions are read directly; others are computed by
    /// reduction, exactly as [`crate::PtexReader::get_data_at_res`].
    pub fn get_data_at_res(&self, faceid: usize, res: Res) -> (r: Result<PixelData, Error>)
        requires
            self.wf(),
        ensures
            view_pixels(r) == face_of(
                self.file(),
                self.arith(),
                self.tables(),
                faceid as int,
                res,
            ),
            r is Ok ==> r->Ok_0@.len() == image_size(self.tables(), res),
            r is Err ==> is_handed_on(r->Err_0, self.failures()),
        decreases reduction_depth(self.tables(), faceid as int, res), 1nat,
    {
        proof {
            self.inner.source.lemma_wf();
            lemma_face_len(self.file(), self.arith(), self.tables(), faceid as int, res);
        }
        match self.inner.source.info().resolve(faceid, res) {
            Ok(FaceSource::Constant) => match self.inner.source.info().constant_data(faceid) {
                Ok(pixel) => if self.inner.source.fits(res) {
                    Ok(self.solid(pixel, res))
                } else {
                    Err(unsupported("buffer too small for requested res"))
                },
                Err(e) => Err(e),
            },
            Ok(FaceSource::Stored { levelid, facepos }) => {
                let (fdh, pos) = match self.level_entry(levelid, facepos) {
                    Ok(entry) => entry,
                    Err(e) => {
                        return Err(e);
                    },
                };
                if fdh.encoding() == Encoding::Tiled {
                    // Assembled from the (cached) tiles rather than cached
                    // itself, so the same pixels are not held twice.
                    self.assembled_image(pos, res, levelid)
                } else {
                    match self.block(pos, fdh, res, levelid) {
                        Ok(block) => Ok(self.block_image(block, res)),
                        Err(e) => Err(e),
                    }
                }
            },
            Ok(FaceSource::Reduced) => self.reduced(faceid, res),
            Err(e) => Err(e),
        }
    }

    /// The image that the tiles of a tiled block make up.
    fn assembled_image(&self, pos: u64, res: Res, levelid: usize) -> (r: Result<PixelData, Error>)
        requires
            self.wf(),
        ensures
            view_pixels(r) == if is_allocatable(self.tables(), res) {
                tiled_of(self.file(), self.arith(), self.tables(), pos, res, levelid as int)
            } else {
                Err(too_large())
            },
            r is Err ==> is_handed_on(r->Err_0, self.failures()),
    {
        let mut buf = match self.inner.source.new_image(res) {
            Ok(buf) => buf,
            Err(e) => {
                return Err(e);
            },
        };
        let ps: usize = self.inner.source.info().pixel_size;
        let uw: usize = res.u();
        let vw: usize = res.v();
        proof {
            lemma_rows_in_image(uw as int, vw as int, ps as int, vw as int, uw as int);
            assert(uw * vw * ps == vw * (uw * ps)) by (nonlinear_arith);
        }
        let ghost d = buf@;
        match self.assemble_tiles(pos, res, levelid, buf.as_mut_slice(), uw * ps) {
            Ok(_) => {
                proof {
                    let img = tiled_of(
                        self.file(),
                        self.arith(),
                        self.tables(),
                        pos,
                        res,
                        levelid as int,
                    )->Ok_0;
                    lemma_packed_placed(d, img, uw * ps, vw as int);
                }
                Ok(PixelData::new(buf))
            },
            Err(e) => Err(e),
        }
    }

    /// Read pixel data for a face into a caller-provided buffer.
    ///
    /// `stride` is the row stride of `buffer` in bytes; 0 means tightly
    /// packed.  Pixels are copied straight from the cache; no intermediate
    /// buffer is allocated, including for tiled faces.
    pub fn get_data_into(
        &self,
        faceid: usize,
        res: Res,
        buffer: &mut [u8],
        stride: usize,
    ) -> (r: Result<(), Error>)
        requires
            self.wf(),
        ensures
            image_written(
                self.tables().pixel_size,
                res,
                face_of(self.file(), self.arith(), self.tables(), faceid as int, res),
                old(buffer)@,
                stride as nat,
                view_result(r),
                final(buffer)@,
            ),
            r is Err ==> is_handed_on(r->Err_0, self.failures()),
    {
        let ghost info = self.tables();
        let ps: usize = self.inner.source.info().pixel_size;
        proof {
            self.inner.source.lemma_wf();
            lemma_face_len(self.file(), self.arith(), self.tables(), faceid as int, res);
        }
        let s: usize = match check_buffer(res, ps, buffer, stride) {
            Ok(s) => s,
            Err(e) => {
                return Err(e);
            },
        };
        proof {
            lemma_checked(res, info.pixel_size, buffer@.len(), stride as nat);
            assert(buffer@.len() == buffer.len());
        }
        match self.inner.source.info().resolve(faceid, res) {
            Ok(FaceSource::Constant) => match self.inner.source.info().constant_data(faceid) {
                Ok(pixel) => {
                    if !self.inner.source.fits(res) {
                        return Err(unsupported("buffer too small for requested res"));
                    }
                    place_pixel(pixel, buffer, s, res);
                    Ok(())
                },
                Err(e) => Err(e),
            },
            Ok(FaceSource::Stored { levelid, facepos }) => match self.level_entry(
                levelid,
                facepos,
            ) {
                Ok((fdh, pos)) => {
                    if fdh.encoding() == Encoding::Tiled {
                        if !self.inner.source.fits(res) {
                            return Err(unsupported("buffer too small for requested res"));
                        }
                        self.assemble_tiles(pos, res, levelid, buffer, s)
                    } else {
                        self.block_into(pos, fdh, res, levelid, buffer, s)
                    }
                },
                Err(e) => Err(e),
            },
            Ok(FaceSource::Reduced) => match self.reduced(faceid, res) {
                Ok(data) => {
                    place_image(data.as_slice(), buffer, s, res, ps);
                    Ok(())
                },
                Err(e) => Err(e),
            },
            Err(e) => Err(e),
        }
    }

    // ---- tile streaming ----

    /// Describe how a face is laid out at the given resolution.
    pub fn tile_layout(&self, faceid: usize, res: Res) -> (r: Result<TileLayout, Error>)
        requires
            self.wf(),
        ensures
            view_result(r) == layout_of(self.file(), self.tables(), faceid as int, res),
            r is Ok ==> r->Ok_0.spec_ntiles() <= usize::MAX,
            r is Ok && 0 <= res.ulog2 < 32 && 0 <= res.vlog2 < 32 ==> r->Ok_0.covers_face(),
            r is Err ==> is_handed_on(r->Err_0, self.failures()),
    {
        match self.inner.source.info().resolve(faceid, res) {
            Ok(FaceSource::Constant) => Ok(TileLayout::untiled(res, true, true)),
            Ok(FaceSource::Reduced) => Ok(TileLayout::untiled(res, false, false)),
            Ok(FaceSource::Stored { levelid, facepos }) => {
                let (fdh, pos) = match self.level_entry(levelid, facepos) {
                    Ok(entry) => entry,
                    Err(e) => {
                        return Err(e);
                    },
                };
                match fdh.encoding() {
                    Encoding::Constant => Ok(TileLayout::untiled(res, true, true)),
                    Encoding::Zipped | Encoding::DiffZipped => Ok(
                        TileLayout::untiled(res, false, true),
                    ),
                    Encoding::Tiled => match self.tile_dir(pos, res) {
                        Ok(dir) => {
                            proof {
                                lemma_dir_shape(self.file(), pos, res);
                                lemma_tiles_span(res, dir.tile_res);
                            }
                            let layout = TileLayout {
                                res,
                                tile_res: dir.tile_res,
                                ntilesu: res.ntilesu(dir.tile_res),
                                ntilesv: res.ntilesv(dir.tile_res),
                                is_tiled: true,
                                is_constant: false,
                                is_stored: true,
                            };
                            assert(layout.spec_ntiles() == dir.fdh.len());
                            Ok(layout)
                        },
                        Err(e) => Err(e),
                    },
                }
            },
            Err(e) => Err(e),
        }
    }

    /// Information about a single tile, without reading its pixel data.
    pub fn tile_info(&self, faceid: usize, res: Res, tile: usize) -> (r: Result<TileInfo, Error>)
        requires
            self.wf(),
        ensures
            view_result(r) == tile_info_of(
                self.file(),
                self.tables(),
                faceid as int,
                res,
                tile as int,
            ),
            r is Err ==> is_handed_on(r->Err_0, self.failures()),
    {
        let layout = match self.tile_layout(faceid, res) {
            Ok(layout) => layout,
            Err(e) => {
                return Err(e);
            },
        };
        let ntiles: usize = layout.ntiles();
        if tile >= ntiles {
            return Err(Error::TileOutOfRange { tile, ntiles });
        }
        proof {
            lemma_layout(self.file(), self.tables(), faceid as int, res);
        }
        let origin = origin_of_tile(&layout, tile);
        match self.tile_block(faceid, res, tile) {
            Ok(Some((fdh, pos))) => Ok(
                TileInfo {
                    res: layout.tile_res,
                    origin,
                    is_constant: fdh.encoding() == Encoding::Constant,
                    compressed_size: fdh.blocksize() as u64,
                    file_offset: Some(pos),
                },
            ),
            Ok(None) => Ok(
                TileInfo {
                    res: layout.tile_res,
                    origin,
                    is_constant: layout.is_constant,
                    compressed_size: 0,
                    file_offset: None,
                },
            ),
            Err(e) => Err(e),
        }
    }

    /// Header and file offset of the block of a tile, if it has one.
    fn tile_block(&self, faceid: usize, res: Res, tile: usize) -> (r: Result<
        Option<(FaceDataHeader, u64)>,
        Error,
    >)
        requires
            self.wf(),
            ({
                let layout = layout_of(self.file(), self.tables(), faceid as int, res);
                layout is Ok && tile < layout->Ok_0.spec_ntiles()
            }),
        ensures
            r == Ok::<Option<(FaceDataHeader, u64)>, Error>(
                tile_block_of(self.file(), self.tables(), faceid as int, res, tile as int),
            ),
    {
        proof {
            lemma_layout(self.file(), self.tables(), faceid as int, res);
        }
        let (levelid, facepos): (usize, usize) = match self.inner.source.info().resolve(
            faceid,
            res,
        ) {
            Ok(FaceSource::Stored { levelid, facepos }) => (levelid, facepos),
            Ok(_) => {
                return Ok(None);
            },
            Err(e) => {
                return Err(e);
            },
        };
        match self.level_entry(levelid, facepos) {
            Ok((fdh, pos)) => {
                if fdh.encoding() == Encoding::Tiled {
                    proof {
                        lemma_dir_shape(self.file(), pos, res);
                    }
                    match self.tile_dir(pos, res) {
                        Ok(dir) => Ok(Some((dir.fdh[tile], dir.offsets[tile]))),
                        Err(e) => Err(e),
                    }
                } else {
                    Ok(Some((fdh, pos)))
                }
            },
            Err(e) => Err(e),
        }
    }

    /// Level, header, file offset and resolution of a tile of a tiled face.
    fn stored_tile(&self, faceid: usize, res: Res, tile: usize) -> (r: Result<
        (usize, FaceDataHeader, u64, Res),
        Error,
    >)
        requires
            self.wf(),
            ({
                let layout = layout_of(self.file(), self.tables(), faceid as int, res);
                layout is Ok && layout->Ok_0.is_tiled && tile < layout->Ok_0.spec_ntiles()
            }),
        ensures
            r is Ok,
            ({
                let (levelid, fdh, off, tile_res) = r->Ok_0;
                let layout = layout_of(self.file(), self.tables(), faceid as int, res)->Ok_0;
                &&& tile_res == layout.tile_res
                &&& self.tables().source(faceid as int, res)->Ok_0->levelid == levelid
                &&& tile_block_of(
                    self.file(),
                    self.tables(),
                    faceid as int,
                    res,
                    tile as int,
                ) == Some((fdh, off))
                &&& block_of(
                    self.file(),
                    self.arith(),
                    self.tables(),
                    off,
                    fdh,
                    tile_res,
                    levelid as int,
                ) == stored_tile_of(
                    self.file(),
                    self.arith(),
                    self.tables(),
                    faceid as int,
                    res,
                    tile as int,
                )
            }),
    {
        proof {
            lemma_layout(self.file(), self.tables(), faceid as int, res);
        }
        let (levelid, facepos): (usize, usize) = match self.inner.source.info().resolve(
            faceid,
            res,
        ) {
            Ok(FaceSource::Stored { levelid, facepos }) => (levelid, facepos),
            Ok(_) => {
                return Err(corrupt("inconsistent tile layout"));
            },
            Err(e) => {
                return Err(e);
            },
        };
        match self.level_entry(levelid, facepos) {
            Ok((_, pos)) => {
                proof {
                    lemma_dir_shape(self.file(), pos, res);
                }
                match self.tile_dir(pos, res) {
                    Ok(dir) => Ok((levelid, dir.fdh[tile], dir.offsets[tile], dir.tile_res)),
                    Err(e) => Err(e),
                }
            },
            Err(e) => Err(e),
        }
    }

    /// Level, header, file offset and resolution of a tile, or none for a
    /// face that is not split into tiles.
    fn locate_tile(&self, faceid: usize, res: Res, tile: usize) -> (r: Result<
        Option<(usize, FaceDataHeader, u64, Res)>,
        Error,
    >)
        requires
            self.wf(),
        ensures
            match layout_of(self.file(), self.tables(), faceid as int, res) {
                Ok(layout) => if tile >= layout.spec_ntiles() {
                    view_result(r) == Err::<
                        Option<(usize, FaceDataHeader, u64, Res)>,
                        ErrorView,
                    >(no_tile(layout, tile as int))
                } else if layout.is_tiled {
                    r is Ok && r->Ok_0 is Some && ({
                        let (levelid, fdh, off, tile_res) = r->Ok_0->0;
                        &&& tile_res == layout.tile_res
                        &&& self.tables().source(faceid as int, res)->Ok_0->levelid == levelid
                        &&& tile_block_of(
                            self.file(),
                            self.tables(),
                            faceid as int,
                            res,
                            tile as int,
                        ) == Some((fdh, off))
                        &&& block_of(
                            self.file(),
                            self.arith(),
                            self.tables(),
                            off,
                            fdh,
                            tile_res,
                            levelid as int,
                        ) == stored_tile_of(
                            self.file(),
                            self.arith(),
                            self.tables(),
                            faceid as int,
                            res,
                            tile as int,
                        )
                    })
                } else {
                    r is Ok && r->Ok_0 is None
                },
                Err(e) => view_result(r) == Err::<
                    Option<(usize, FaceDataHeader, u64, Res)>,
                    ErrorView,
                >(e),
            },
            r is Err ==> is_handed_on(r->Err_0, self.failures()),
    {
        let layout = match self.tile_layout(faceid, res) {
            Ok(layout) => layout,
            Err(e) => {
                return Err(e);
            },
        };
        let ntiles: usize = layout.ntiles();
        if tile >= ntiles {
            return Err(Error::TileOutOfRange { tile, ntiles });
        }
        if !layout.is_tiled {
            return Ok(None);
        }
        match self.stored_tile(faceid, res, tile) {
            Ok(place) => Ok(Some(place)),
            Err(e) => Err(e),
        }
    }

    /// Read the pixel data of a single tile.
    ///
    /// For a face that is not tiled this is the whole face and `tile` must
    /// be 0.
    pub fn get_tile(&self, faceid: usize, res: Res, tile: usize) -> (r: Result<PixelData, Error>)
        requires
            self.wf(),
        ensures
            view_pixels(r) == tile_of(
                self.file(),
                self.arith(),
                self.tables(),
                faceid as int,
                res,
                tile as int,
            ),
            r is Ok ==> r->Ok_0@.len() == image_size(
                self.tables(),
                layout_of(self.file(), self.tables(), faceid as int, res)->Ok_0.tile_res,
            ),
            r is Err ==> is_handed_on(r->Err_0, self.failures()),
    {
        match self.locate_tile(faceid, res, tile) {
            Ok(Some((levelid, fdh, off, tile_res))) => match self.block(
                off,
                fdh,
                tile_res,
                levelid,
            ) {
                Ok(block) => Ok(self.block_image(block, tile_res)),
                Err(e) => Err(e),
            },
            Ok(None) => self.get_data_at_res(faceid, res),
            Err(e) => Err(e),
        }
    }

    /// Read the pixel data of a single tile into a caller-provided buffer.
    ///
    /// `stride` is the row stride of `buffer` in bytes; 0 means tightly
    /// packed to the tile's row length.
    pub fn get_tile_into(
        &self,
        faceid: usize,
        res: Res,
        tile: usize,
        buffer: &mut [u8],
        stride: usize,
    ) -> (r: Result<(), Error>)
        requires
            self.wf(),
        ensures
            match layout_of(self.file(), self.tables(), faceid as int, res) {
                Ok(layout) => if tile >= layout.spec_ntiles() {
                    view_result(r) == Err::<(), ErrorView>(no_tile(layout, tile as int))
                        && final(buffer)@ == old(buffer)@
                } else {
                    image_written(
                        self.tables().pixel_size,
                        layout.tile_res,
                        tile_of(
                            self.file(),
                            self.arith(),
                            self.tables(),
                            faceid as int,
                            res,
                            tile as int,
                        ),
                        old(buffer)@,
                        stride as nat,
                        view_result(r),
                        final(buffer)@,
                    )
                },
                Err(e) => view_result(r) == Err::<(), ErrorView>(e) && final(buffer)@ == old(
                    buffer,
                )@,
            },
            r is Err ==> is_handed_on(r->Err_0, self.failures()),
    {
        let layout = match self.tile_layout(faceid, res) {
            Ok(layout) => layout,
            Err(e) => {
                return Err(e);
            },
        };
        let ntiles: usize = layout.ntiles();
        if tile >= ntiles {
            return Err(Error::TileOutOfRange { tile, ntiles });
        }
        if !layout.is_tiled {
            return self.get_data_into(faceid, res, buffer, stride);
        }
        let ps: usize = self.inner.source.info().pixel_size;
        proof {
            self.inner.source.lemma_wf();
        }
        let s: usize = match check_buffer(layout.tile_res, ps, buffer, stride) {
            Ok(s) => s,
            Err(e) => {
                return Err(e);
            },
        };
        proof {
            lemma_checked(layout.tile_res, ps as nat, buffer@.len(), stride as nat);
            assert(buffer@.len() == buffer.len());
        }
        match self.stored_tile(faceid, res, tile) {
            Ok((levelid, fdh, off, tile_res)) => self.block_into(
                off,
                fdh,
                tile_res,
                levelid,
                buffer,
                s,
            ),
            Err(e) => Err(e),
        }
    }

    // ---- single texels ----

    /// Read a single texel of a face as raw bytes, reading only the tile that
    /// holds it.
    pub fn read_texel(&self, faceid: usize, res: Res, u: usize, v: usize) -> (r: Result<
        Vec<u8>,
        Error,
    >)
        requires
            self.wf(),
        ensures
            r is Ok ==> r->Ok_0@.len() == self.tables().pixel_size,
            crate::stream::view_bytes(r) == texel_of(
                self.file(),
                self.arith(),
                self.tables(),
                faceid as int,
                res,
                u as int,
                v as int,
            ),
            r is Err ==> is_handed_on(r->Err_0, self.failures()),
    {
        if u >= res.u() || v >= res.v() {
            return Err(unsupported("pixel coordinates out of range"));
        }
        match self.inner.source.info().resolve(faceid, res) {
            Ok(FaceSource::Constant) => match self.inner.source.info().constant_data(faceid) {
                Ok(pixel) => Ok(vstd::slice::slice_to_vec(pixel)),
                Err(e) => Err(e),
            },
            Ok(FaceSource::Stored { levelid, facepos }) => {
                let (fdh, pos) = match self.level_entry(levelid, facepos) {
                    Ok(entry) => entry,
                    Err(e) => {
                        return Err(e);
                    },
                };
                if fdh.encoding() == Encoding::Tiled {
                    let layout = match self.tile_layout(faceid, res) {
                        Ok(layout) => layout,
                        Err(e) => {
                            return Err(e);
                        },
                    };
                    let tile_res: Res = layout.tile_res;
                    let tu: usize = tile_res.u();
                    let tv: usize = tile_res.v();
                    proof {
                        lemma_dir_shape(self.file(), pos, res);
                        lemma_layout(self.file(), self.tables(), faceid as int, res);
                        lemma_texel_tile(res, tile_res, u as int, v as int);
                    }
                    let tile: usize = (v / tv) * layout.ntilesu + u / tu;
                    match self.locate_tile(faceid, res, tile) {
                        Ok(Some((levelid, tfdh, toff, tres))) => self.texel_from_block(
                            toff,
                            tfdh,
                            tres,
                            levelid,
                            u % tu,
                            v % tv,
                        ),
                        Ok(None) => Err(corrupt("inconsistent tile layout")),
                        Err(e) => Err(e),
                    }
                } else {
                    self.texel_from_block(pos, fdh, res, levelid, u, v)
                }
            },
            Ok(FaceSource::Reduced) => match self.get_data_at_res(faceid, res) {
                Ok(img) => Ok(self.inner.source.info().cut_texel(img.as_slice(), res, u, v)),
                Err(e) => Err(e),
            },
            Err(e) => Err(e),
        }
    }

    /// Read a single texel out of one non-tiled data block.
    fn texel_from_block(
        &self,
        pos: u64,
        fdh: FaceDataHeader,
        res: Res,
        levelid: usize,
        u: usize,
        v: usize,
    ) -> (r: Result<Vec<u8>, Error>)
        requires
            self.wf(),
            u < res.spec_u(),
            v < res.spec_v(),
        ensures
            crate::stream::view_bytes(r) == block_texel_of(
                self.file(),
                self.arith(),
                self.tables(),
                pos,
                fdh,
                res,
                levelid as int,
                u as int,
                v as int,
            ),
            r is Ok ==> r->Ok_0@.len() == self.tables().pixel_size,
            r is Err ==> is_handed_on(r->Err_0, self.failures()),
    {
        if fdh.encoding() == Encoding::Constant {
            return self.inner.source.load_pixel(pos, fdh, levelid);
        }
        match self.block(pos, fdh, res, levelid) {
            Ok(Block::Constant(pixel)) => {
                proof {
                    lemma_solid_texel(pixel@, res, u as int, v as int);
                }
                Ok(pixel)
            },
            Ok(Block::Image(img)) => Ok(
                self.inner.source.info().cut_texel(img.as_slice(), res, u, v),
            ),
            Err(e) => Err(e),
        }
    }

    /// Read a single texel, as the bit patterns of its channel values.
    ///
    /// For a tiled face only the tile containing the texel is read.
    pub fn get_pixel(
        &self,
        faceid: usize,
        u: usize,
        v: usize,
        first_chan: usize,
        nchannels: usize,
    ) -> (r: Result<Vec<u32>, Error>)
        requires
            self.wf(),
        ensures
            match r {
                Ok(values) => pixel_of(
                    self.file(),
                    self.arith(),
                    self.tables(),
                    faceid as int,
                    u as int,
                    v as int,
                    first_chan as nat,
                    nchannels as nat,
                ) == Ok::<Seq<u32>, ErrorView>(values@),
                Err(e) => pixel_of(
                    self.file(),
                    self.arith(),
                    self.tables(),
                    faceid as int,
                    u as int,
                    v as int,
                    first_chan as nat,
                    nchannels as nat,
                ) == Err::<Seq<u32>, ErrorView>(e@),
            },
            r is Err ==> is_handed_on(r->Err_0, self.failures()),
    {
        let n: usize = self.inner.source.info().clip_channels(first_chan, nchannels);
        if n == 0 {
            let none: Vec<u32> = Vec::new();
            assert(none@ =~= Seq::empty());
            return Ok(none);
        }
        let res: Res = match self.inner.source.info().face_info(faceid) {
            Ok(face) => face.res,
            Err(e) => {
                return Err(e);
            },
        };
        match self.read_texel(faceid, res, u, v) {
            Ok(pixel) => Ok(
                self.inner.source.info().channel_values(pixel.as_slice(), first_chan, n),
            ),
            Err(e) => Err(e),
        }
    }

    // ---- meta data ----

    /// Access the file's meta data (loaded and kept on first access).
    pub fn metadata(&self) -> (r: Result<Arc<MetaData>, Error>)
        requires
            self.wf(),
        ensures
            match r {
                Ok(md) => metadata_of(self.file(), self.tables()) == Ok::<
                    Seq<EntryView>,
                    ErrorView,
                >(md@),
                Err(e) => metadata_of(self.file(), self.tables()) == Err::<
                    Seq<EntryView>,
                    ErrorView,
                >(e@),
            },
            r is Err ==> is_handed_on(r->Err_0, self.failures()),
    {
        let (state, handle) = self.inner.state.acquire_write();
        let known = state.metadata();
        handle.release_write(state);
        match known {
            Some(md) => {
                return Ok(md);
            },
            None => {},
        }
        let md = match self.inner.source.load_metadata() {
            Ok(md) => Arc::new(md),
            Err(e) => {
                return Err(e);
            },
        };
        let (mut state, handle) = self.inner.state.acquire_write();
        state.set_metadata(share(&md));
        handle.release_write(state);
        Ok(md)
    }

    // ---- file information ----

    /// Tables of the file.
    pub fn info(&self) -> (info: &FileInfo)
        ensures
            info@ == self.tables(),
            self.wf() ==> info@.wf(),
    {
        self.inner.source.info()
    }

    /// Type of the base mesh (quad or triangle).
    pub fn mesh_type(&self) -> (t: MeshType)
        ensures
            t == self.tables().mesh_type,
    {
        self.inner.source.info().mesh_type
    }

    /// Type of the pixel data.
    pub fn data_type(&self) -> (t: DataType)
        ensures
            t == self.tables().data_type,
    {
        self.inner.source.info().data_type
    }

    /// Index of the alpha channel, or -1 if the file has no alpha channel.
    pub fn alpha_channel(&self) -> (c: i32)
        ensures
            c == self.tables().header.alphachan,
    {
        self.inner.source.info().header.alphachan
    }

    /// Number of channels per pixel.
    pub fn num_channels(&self) -> (n: usize)
        ensures
            n == self.tables().nchannels(),
    {
        self.inner.source.info().num_channels()
    }

    /// Number of faces in the file.
    pub fn num_faces(&self) -> (n: usize)
        ensures
            n == self.tables().header.nfaces,
    {
        self.inner.source.info().num_faces()
    }

    /// True if the file has an alpha channel.
    pub fn has_alpha(&self) -> (b: bool)
        ensures
            b == self.tables().header.spec_has_alpha(),
    {
        self.inner.source.info().header.has_alpha()
    }

    /// True if the file stores precomputed mipmap (reduction) levels.
    pub fn has_mip_maps(&self) -> (b: bool)
        ensures
            b == (self.tables().header.nlevels > 1),
    {
        self.inner.source.info().num_levels() > 1
    }

    /// True if the file carries edit records, which are not applied: the
    /// file reads back in its pre-edit state.
    pub fn has_edits(&self) -> (b: bool)
        ensures
            b == self.tables().spec_has_edits(),
    {
        self.inner.source.info().has_edits()
    }

    /// Number of stored resolution levels (level 0 is full resolution).
    pub fn num_levels(&self) -> (n: usize)
        ensures
            n == self.tables().header.nlevels,
    {
        self.inner.source.info().num_levels()
    }

    /// Size of a single pixel, in bytes.
    pub fn pixel_size(&self) -> (n: usize)
        ensures
            n == self.tables().pixel_size,
    {
        self.inner.source.info().pixel_size
    }

    /// Minor version of the file format the file was written with.
    pub fn minor_version(&self) -> (n: u32)
        ensures
            n == self.tables().header.minorversion,
    {
        self.inner.source.info().header.minorversion
    }

    /// Border mode in the u direction.
    pub fn u_border_mode(&self) -> (m: BorderMode)
        ensures
            m == BorderMode::spec_from_u16(self.tables().ext_header.ubordermode),
    {
        self.inner.source.info().u_border_mode()
    }

    /// Border mode in the v direction.
    pub fn v_border_mode(&self) -> (m: BorderMode)
        ensures
            m == BorderMode::spec_from_u16(self.tables().ext_header.vbordermode),
    {
        self.inner.source.info().v_border_mode()
    }

    /// Edge filter mode.
    pub fn edge_filter_mode(&self) -> (m: EdgeFilterMode)
        ensures
            m == EdgeFilterMode::spec_from_u16(self.tables().ext_header.edgefiltermode),
    {
        self.inner.source.info().edge_filter_mode()
    }

    /// Access resolution and adjacency information for a face.
    pub fn face_info(&self, faceid: usize) -> (r: Result<&FaceInfo, Error>)
        requires
            self.wf(),
        ensures
            match r {
                Ok(f) => self.tables().face(faceid as int) == Ok::<FaceInfo, ErrorView>(*f),
                Err(e) => self.tables().face(faceid as int) == Err::<FaceInfo, ErrorView>(e@),
            },
    {
        self.inner.source.info().face_info(faceid)
    }

    /// All per-face info records.
    pub fn face_infos(&self) -> (faces: &[FaceInfo])
        ensures
            faces@ == self.tables().faces,
    {
        self.inner.source.info().face_info.as_slice()
    }

    /// Access the constant (average) pixel value of a face as raw data.
    pub fn constant_data(&self, faceid: usize) -> (r: Result<&[u8], Error>)
        requires
            self.wf(),
        ensures
            match r {
                Ok(p) => faceid < self.tables().faces.len() && p@ == self.tables().constant_pixel(
                    faceid as int,
                ) && p@.len() == self.tables().pixel_size,
                Err(e) => faceid >= self.tables().faces.len() && e@ == self.tables().no_face(
                    faceid as int,
                ),
            },
    {
        self.inner.source.info().constant_data(faceid)
    }

    // ---- mipmap level helpers (no I/O) ----

    /// Number of mipmap levels a face has, counting level 0 (the full
    /// resolution).
    ///
    /// Each level halves both dimensions, so the last level reduces the
    /// smaller dimension to a single texel.
    pub fn face_num_levels(&self, faceid: usize) -> (r: Result<usize, Error>)
        requires
            self.wf(),
        ensures
            match r {
                Ok(n) => self.tables().num_levels_of(faceid as int) == Ok::<nat, ErrorView>(
                    n as nat,
                ),
                Err(e) => self.tables().num_levels_of(faceid as int) == Err::<nat, ErrorView>(e@),
            },
    {
        self.inner.source.info().face_num_levels(faceid)
    }

    /// Resolution of a face reduced by `level` mipmap levels.
    ///
    /// Level 0 is the full resolution.  Returns [`Error::Unsupported`] if
    /// `level` would reduce the face below one texel; see
    /// [`SharedReader::face_num_levels`].
    pub fn res_for_level(&self, faceid: usize, level: usize) -> (r: Result<Res, Error>)
        requires
            self.wf(),
        ensures
            view_result(r) == self.tables().level_res(faceid as int, level as int),
    {
        self.inner.source.info().face_level_res(faceid, level)
    }

    /// True if a resolution is stored in the file for this face, so that it
    /// can be read (and streamed tile by tile) directly, rather than
    /// computed by reducing a larger resolution.
    ///
    /// Performs no I/O.
    pub fn is_res_stored(&self, faceid: usize, res: Res) -> (r: Result<bool, Error>)
        requires
            self.wf(),
        ensures
            view_result(r) == self.tables().is_stored(faceid as int, res),
    {
        self.inner.source.info().is_res_stored(faceid, res)
    }

    /// Number of leading mipmap levels of a face that are stored in the
    /// file, counting level 0.
    ///
    /// Levels `0..n` all satisfy [`SharedReader::is_res_stored`]; the count
    /// stops at the first level that is not stored.
    pub fn num_stored_levels(&self, faceid: usize) -> (r: Result<usize, Error>)
        requires
            self.wf(),
        ensures
            match r {
                Ok(n) => self.tables().stored_prefix(faceid as int, n as nat),
                Err(e) => self.tables().num_levels_of(faceid as int) == Err::<nat, ErrorView>(e@),
            },
    {
        self.inner.source.info().num_stored_levels(faceid)
    }
}

} // verus!
