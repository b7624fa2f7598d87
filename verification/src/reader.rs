//! The Ptex file reader.

use crate::decode::{
    image_size, is_allocatable, lemma_rows_in_image, tiles_cover, tiles_fit, DirView, Level,
    LevelView, TileDir,
};
use crate::error::{corrupt, unsupported, view_result, Error, ErrorView};
use crate::file_info::{FaceSource, FileInfo, InfoView};
use crate::format::{Encoding, FaceDataHeader};
use crate::image::{
    assembled, block_of, block_texel_of, clipped_channels, dir_of, entry_of, face_of,
    first_tile_error, layout_of, level_of, no_tile, pixel_of, reduction_depth, shifted,
    solid_image, stored_tile_of, texel_of, tile_block_of, tile_image, tile_images, tile_info_of,
    tile_of, tile_origin_of, tiled_of, too_large,
};
use crate::laws::{
    exact_reads, lemma_face_len, lemma_layout, lemma_texel_tile, lemma_tile_error,
    lemma_uncovered,
};
use crate::metadata::{EntryView, MetaData};
use crate::place::{
    check_buffer, do_tiles_cover, is_tile_inside, lemma_all_tiles_placed, lemma_checked,
    lemma_covering_tile_inside, lemma_no_tiles_placed, lemma_packed_placed, lemma_tile_placed,
    lemma_tile_start, lemma_tiles_span, lemma_tiles_stay_inside, place, place_image,
    place_pixel, same_outside, spec_check_buffer, tile_start, tiles_placed,
};
use crate::source::{lemma_dir_shape, lemma_level_shape, metadata_of, Source};
use crate::stream::{failures, is_handed_on, is_stream, stream, view_bytes, Failures, Stream};
use crate::texel::{arith, is_arith, Arith, PixelOp};
use crate::tile::{TileInfo, TileLayout};
use crate::types::{BorderMode, DataType, EdgeFilterMode, FaceInfo, MeshType, Res};
use crate::utils::rows_fit;
use vstd::prelude::*;

verus! {

/// Number of tile directories kept in memory by default.
pub const DEFAULT_TILE_CACHE_CAPACITY: usize = 16;

/// Reader for Ptex texture files.
///
/// Reading methods take `&mut self` because data is read from the
/// underlying stream on demand (level indexes and tile directories are
/// cached; pixel data is not).  For a reader that can be shared between
/// render threads and that caches decoded pixels, see
/// [`crate::SharedReader`].
///
/// # Streaming tiles
///
/// Large faces are stored as independently compressed tiles, and reduction
/// levels are stored in the file, so a renderer can read exactly the tile it
/// needs at exactly the resolution it needs.
pub struct PtexReader<R, M> {
    source: Source<R, M>,
    levels: Vec<Option<Level>>,
    tile_cache: Vec<(u64, Res, TileDir)>,
    tile_cache_cap: usize,
    metadata: Option<MetaData>,
}

/// The keys of the tile directories kept in memory after a use of `key`: it
/// comes first, the others follow in the order of their last use, and those
/// beyond the capacity are dropped.
pub open spec fn keys_after_use(keys: Seq<(u64, Res)>, key: (u64, Res), cap: nat) -> Seq<
    (u64, Res),
> {
    if keys.contains(key) {
        seq![key] + keys.remove(keys.index_of_first(key)->0)
    } else {
        let all = seq![key] + keys;
        if all.len() > cap {
            all.take(cap as int)
        } else {
            all
        }
    }
}

/// The keys of the tile directories kept in memory after a read that uses the
/// directory `used`, or none.
pub open spec fn dirs_after(keys: Seq<(u64, Res)>, used: Option<(u64, Res)>, cap: nat) -> Seq<
    (u64, Res),
> {
    match used {
        Some(key) => keys_after_use(keys, key, cap),
        None => keys,
    }
}

/// A second read that uses the same directory changes nothing.
pub proof fn a_directory_used_again_stays(
    keys: Seq<(u64, Res)>,
    used: Option<(u64, Res)>,
    cap: nat,
)
    requires
        cap >= 1,
    ensures
        dirs_after(dirs_after(keys, used, cap), used, cap) == dirs_after(keys, used, cap),
{
    match used {
        Some(key) => {
            let once = keys_after_use(keys, key, cap);
            assert(once[0] == key);
            assert(once.contains(key));
            once.index_of_first_ensures(key);
            assert(seq![key] + once.remove(0) =~= once);
        },
        None => {},
    }
}

/// The directory of the tiled block at `pos`, if it can be read.
pub open spec fn dir_at(f: Stream, pos: u64, res: Res) -> Option<(u64, Res)> {
    if dir_of(f, pos, res) is Ok {
        Some((pos, res))
    } else {
        None
    }
}

/// The tile directory that tells how a face is laid out, if there is one that
/// can be read.
pub open spec fn layout_dir(f: Stream, info: InfoView, faceid: int, res: Res) -> Option<
    (u64, Res),
> {
    match info.source(faceid, res) {
        Ok(FaceSource::Stored { levelid, facepos }) => match entry_of(
            f,
            info,
            levelid as int,
            facepos as int,
        ) {
            Ok((fdh, pos)) => if fdh.spec_encoding() is Tiled {
                dir_at(f, pos, res)
            } else {
                None
            },
            Err(_) => None,
        },
        _ => None,
    }
}

/// The tile directory that reading the image of a face uses: its own, or that
/// of the stored resolution that it is reduced from.
pub open spec fn face_dir(f: Stream, info: InfoView, faceid: int, res: Res) -> Option<(u64, Res)>
    decreases reduction_depth(info, faceid, res),
{
    match info.source(faceid, res) {
        Ok(FaceSource::Stored { .. }) => if is_allocatable(info, res) {
            layout_dir(f, info, faceid, res)
        } else {
            None
        },
        Ok(FaceSource::Reduced) => face_dir(f, info, faceid, info.reduced_from(faceid, res).0),
        _ => None,
    }
}

/// The tile directory that reading a texel of a face uses.
pub open spec fn texel_dir(f: Stream, info: InfoView, faceid: int, res: Res) -> Option<(u64, Res)> {
    match info.source(faceid, res) {
        Ok(FaceSource::Reduced) => face_dir(f, info, faceid, res),
        _ => layout_dir(f, info, faceid, res),
    }
}

/// A tile is the whole image of a face that is not split into tiles.
pub open spec fn tile_is_face(f: Stream, info: InfoView, faceid: int, res: Res, tile: int) -> bool {
    match layout_of(f, info, faceid, res) {
        Ok(layout) => !layout.is_tiled && tile < layout.spec_ntiles(),
        Err(_) => false,
    }
}

impl<R: Fn(u64, usize) -> Result<Vec<u8>, std::io::Error>, M: Fn(PixelOp) -> u32> PtexReader<
    R,
    M,
> {
    /// Contents of the stream.
    pub closed spec fn file(&self) -> Stream {
        self.source.file()
    }

    /// Errors with which reads can fail.
    pub closed spec fn failures(&self) -> Failures {
        self.source.failures()
    }

    /// Results of arithmetic on texels.
    pub closed spec fn arith(&self) -> Arith {
        self.source.arith()
    }

    /// Tables of the file.
    pub closed spec fn tables(&self) -> InfoView {
        self.source.tables()
    }

    /// What is kept in memory is what the file holds.
    pub closed spec fn wf(&self) -> bool {
        &&& self.source.wf()
        &&& self.tables().wf()
        &&& self.levels@.len() == self.tables().levels.len()
        &&& forall|l: int|
            0 <= l < self.levels@.len() && (#[trigger] self.levels@[l]) is Some ==> level_of(
                self.file(),
                self.tables(),
                l,
            ) == Ok::<LevelView, ErrorView>(self.levels@[l]->0@)
        &&& forall|i: int|
            0 <= i < self.tile_cache@.len() ==> dir_of(
                self.file(),
                (#[trigger] self.tile_cache@[i]).0,
                self.tile_cache@[i].1,
            ) == Ok::<DirView, ErrorView>(self.tile_cache@[i].2@)
        &&& self.tile_cache_cap >= 1
        &&& self.tile_cache@.len() <= self.tile_cache_cap
        &&& self.metadata is Some ==> metadata_of(self.file(), self.tables()) == Ok::<
            Seq<EntryView>,
            ErrorView,
        >(self.metadata->0@)
    }

    /// Position and resolution of the tile directories kept in memory, the one
    /// used last coming first.
    pub closed spec fn kept_dirs(&self) -> Seq<(u64, Res)> {
        Seq::new(
            self.tile_cache@.len(),
            |i: int| (self.tile_cache@[i].0, self.tile_cache@[i].1),
        )
    }

    /// Maximum number of tile directories kept in memory.
    pub closed spec fn dir_capacity(&self) -> nat {
        self.tile_cache_cap as nat
    }

    /// What holds of every reader: its tables have the sizes that the header
    /// gives, and its stream returns as many bytes as it is asked for.
    pub proof fn reads_are_exact(&self)
        requires
            self.wf(),
        ensures
            self.tables().wf(),
            self.tables().pixel_size <= 4 * 0xffff,
            exact_reads(self.file()),
    {
        self.source.lemma_wf();
    }

    /// No more tile directories are kept than the capacity allows.
    pub proof fn keeps_within_capacity(&self)
        requires
            self.wf(),
        ensures
            self.kept_dirs().len() <= self.dir_capacity(),
            self.dir_capacity() >= 1,
    {
    }

    /// Two states of a reader of one file.
    pub open spec fn same_file(&self, other: &Self) -> bool {
        &&& self.file() == other.file()
        &&& self.failures() == other.failures()
        &&& self.arith() == other.arith()
        &&& self.tables() == other.tables()
        &&& self.dir_capacity() == other.dir_capacity()
    }

    /// Make a reader for an open file.
    pub fn from_source(source: Source<R, M>) -> (r: Self)
        requires
            source.wf(),
        ensures
            r.wf(),
            r.file() == source.file(),
            r.failures() == source.failures(),
            r.arith() == source.arith(),
            r.tables() == source.tables(),
            r.dir_capacity() == DEFAULT_TILE_CACHE_CAPACITY,
            r.kept_dirs() == Seq::<(u64, Res)>::empty(),
    {
        proof {
            source.lemma_wf();
        }
        let n: usize = source.info().num_levels();
        let mut levels: Vec<Option<Level>> = Vec::new();
        let mut i: usize = 0;
        while i < n
            invariant
                i <= n,
                levels@.len() == i,
                forall|l: int| 0 <= l < i ==> (#[trigger] levels@[l]) is None,
            decreases n - i,
        {
            levels.push(None);
            i = i + 1;
        }
        let r = PtexReader {
            source,
            levels,
            tile_cache: Vec::new(),
            tile_cache_cap: DEFAULT_TILE_CACHE_CAPACITY,
            metadata: None,
        };
        assert(r.kept_dirs() =~= Seq::empty());
        r
    }

    /// Read the tables of a file and make a reader for it.
    pub fn new(read: R, math: M) -> (r: Result<Self, Error>)
        requires
            is_stream(read),
            is_arith(math),
        ensures
            match r {
                Ok(tx) => {
                    &&& tx.wf()
                    &&& tx.file() == stream(read)
                    &&& tx.failures() == failures(read)
                    &&& tx.arith() == arith(math)
                    &&& crate::open::info_of(stream(read), arith(math), false) == Ok::<
                        InfoView,
                        ErrorView,
                    >(tx.tables())
                    &&& tx.dir_capacity() == DEFAULT_TILE_CACHE_CAPACITY
                    &&& tx.kept_dirs() == Seq::<(u64, Res)>::empty()
                },
                Err(e) => crate::open::info_of(stream(read), arith(math), false) == Err::<
                    InfoView,
                    ErrorView,
                >(e@),
            },
            r is Err ==> is_handed_on(r->Err_0, failures(read)),
    {
        Self::new_with_options(read, math, false)
    }

    /// Read the tables of a file and make a reader for it, optionally
    /// premultiplying color channels by the alpha channel.
    pub fn new_with_options(read: R, math: M, premultiply: bool) -> (r: Result<Self, Error>)
        requires
            is_stream(read),
            is_arith(math),
        ensures
            match r {
                Ok(tx) => {
                    &&& tx.wf()
                    &&& tx.file() == stream(read)
                    &&& tx.failures() == failures(read)
                    &&& tx.arith() == arith(math)
                    &&& crate::open::info_of(stream(read), arith(math), premultiply) == Ok::<
                        InfoView,
                        ErrorView,
                    >(tx.tables())
                    &&& tx.dir_capacity() == DEFAULT_TILE_CACHE_CAPACITY
                    &&& tx.kept_dirs() == Seq::<(u64, Res)>::empty()
                },
                Err(e) => crate::open::info_of(stream(read), arith(math), premultiply) == Err::<
                    InfoView,
                    ErrorView,
                >(e@),
            },
            r is Err ==> is_handed_on(r->Err_0, failures(read)),
    {
        match FileInfo::read(&read, &math, premultiply) {
            Ok(info) => Ok(PtexReader::from_source(Source::new(info, read, math))),
            Err(e) => Err(e),
        }
    }

    // ---- internal reading helpers ----

    /// Read and cache the face index (headers + offsets) of a level.
    fn ensure_level(&mut self, levelid: usize) -> (r: Result<(), Error>)
        requires
            old(self).wf(),
            levelid < old(self).tables().levels.len(),
        ensures
            final(self).wf(),
            final(self).same_file(old(self)),
            final(self).kept_dirs() == old(self).kept_dirs(),
            match r {
                Ok(_) => final(self).levels@[levelid as int] is Some,
                Err(e) => level_of(old(self).file(), old(self).tables(), levelid as int) == Err::<
                    LevelView,
                    ErrorView,
                >(e@),
            },
            r is Err ==> is_handed_on(r->Err_0, old(self).failures()),
    {
        if self.levels[levelid].is_some() {
            return Ok(());
        }
        match self.source.load_level(levelid) {
            Ok(level) => {
                self.levels[levelid] = Some(level);
                Ok(())
            },
            Err(e) => Err(e),
        }
    }

    /// Header and absolute file offset of a face within a level.
    fn level_entry(&mut self, levelid: usize, facepos: usize) -> (r: Result<
        (FaceDataHeader, u64),
        Error,
    >)
        requires
            old(self).wf(),
            levelid < old(self).tables().levels.len(),
        ensures
            final(self).wf(),
            final(self).same_file(old(self)),
            final(self).kept_dirs() == old(self).kept_dirs(),
            view_result(r) == entry_of(
                old(self).file(),
                old(self).tables(),
                levelid as int,
                facepos as int,
            ),
            r is Err ==> is_handed_on(r->Err_0, old(self).failures()),
    {
        match self.ensure_level(levelid) {
            Ok(_) => {},
            Err(e) => {
                return Err(e);
            },
        }
        proof {
            lemma_level_shape(self.file(), self.tables(), levelid as int);
        }
        match &self.levels[levelid] {
            Some(level) => {
                if facepos < level.fdh.len() {
                    Ok((level.fdh[facepos], level.offsets[facepos]))
                } else {
                    Err(corrupt("face missing from level"))
                }
            },
            None => Err(corrupt("face missing from level")),
        }
    }

    /// Position in the cache of the tile directory of the block at `pos`.
    fn find_dir(&self, pos: u64, res: Res) -> (r: Option<usize>)
        ensures
            match r {
                Some(i) => self.kept_dirs().contains((pos, res)) && self.kept_dirs().index_of_first(
                    (pos, res),
                ) == Some(i as int) && i < self.tile_cache@.len(),
                None => !self.kept_dirs().contains((pos, res)),
            },
    {
        let mut i: usize = 0;
        while i < self.tile_cache.len()
            invariant
                i <= self.tile_cache@.len(),
                forall|k: int| 0 <= k < i ==> #[trigger] self.kept_dirs()[k] != (pos, res),
            decreases self.tile_cache@.len() - i,
        {
            if self.tile_cache[i].0 == pos && self.tile_cache[i].1 == res {
                proof {
                    let keys = self.kept_dirs();
                    assert(keys[i as int] == (pos, res));
                    keys.index_of_first_ensures((pos, res));
                    let first = keys.index_of_first((pos, res))->0;
                    assert(keys[first] == (pos, res));
                }
                return Some(i);
            }
            assert(self.kept_dirs()[i as int] != (pos, res));
            i = i + 1;
        }
        assert(self.kept_dirs().len() == self.tile_cache@.len());
        None
    }

    /// Get the tile directory of the block at `pos`, reading it if it is not
    /// already cached.  Uses move-to-front, so it is the first cache entry
    /// afterwards.
    fn ensure_dir(&mut self, pos: u64, res: Res) -> (r: Result<(), Error>)
        requires
            old(self).wf(),
        ensures
            final(self).wf(),
            final(self).same_file(old(self)),
            match r {
                Ok(_) => {
                    &&& final(self).tile_cache@.len() > 0
                    &&& dir_of(old(self).file(), pos, res) == Ok::<DirView, ErrorView>(
                        final(self).tile_cache@[0].2@,
                    )
                    &&& final(self).kept_dirs() == keys_after_use(
                        old(self).kept_dirs(),
                        (pos, res),
                        old(self).dir_capacity(),
                    )
                },
                Err(e) => {
                    &&& dir_of(old(self).file(), pos, res) == Err::<DirView, ErrorView>(e@)
                    &&& final(self).kept_dirs() == old(self).kept_dirs()
                },
            },
            r is Err ==> is_handed_on(r->Err_0, old(self).failures()),
    {
        let ghost keys = self.kept_dirs();
        let ghost cache = self.tile_cache@;
        match self.find_dir(pos, res) {
            Some(i) => {
                proof {
                    keys.index_of_first_ensures((pos, res));
                    assert(keys[i as int] == (pos, res));
                }
                let e = self.tile_cache.remove(i);
                self.tile_cache.insert(0, e);
                proof {
                    assert(self.tile_cache@ =~= seq![cache[i as int]] + cache.remove(i as int));
                    assert forall|k: int| 0 <= k < self.tile_cache@.len() implies dir_of(
                        self.file(),
                        (#[trigger] self.tile_cache@[k]).0,
                        self.tile_cache@[k].1,
                    ) == Ok::<DirView, ErrorView>(self.tile_cache@[k].2@) by {
                        let j = if k == 0 {
                            i as int
                        } else if k <= i {
                            k - 1
                        } else {
                            k
                        };
                        assert(self.tile_cache@[k] == cache[j]);
                    }
                    assert(self.kept_dirs() =~= keys_after_use(
                        keys,
                        (pos, res),
                        self.dir_capacity(),
                    ));
                }
                Ok(())
            },
            None => {
                let dir = match self.source.load_dir(pos, res) {
                    Ok(dir) => dir,
                    Err(e) => {
                        return Err(e);
                    },
                };
                let ghost view = dir@;
                self.tile_cache.insert(0, (pos, res, dir));
                let ghost all = self.tile_cache@;
                self.tile_cache.truncate(self.tile_cache_cap);
                proof {
                    assert forall|k: int| 0 <= k < self.tile_cache@.len() implies dir_of(
                        self.file(),
                        (#[trigger] self.tile_cache@[k]).0,
                        self.tile_cache@[k].1,
                    ) == Ok::<DirView, ErrorView>(self.tile_cache@[k].2@) by {
                        assert(self.tile_cache@[k] == all[k]);
                        if k > 0 {
                            assert(all[k] == cache[k - 1]);
                        }
                    }
                    assert(self.kept_dirs() =~= keys_after_use(
                        keys,
                        (pos, res),
                        self.dir_capacity(),
                    ));
                }
                Ok(())
            },
        }
    }

    /// Tile resolution and tile count of a tiled block.
    fn tile_dir_shape(&mut self, pos: u64, res: Res) -> (r: Result<(Res, usize), Error>)
        requires
            old(self).wf(),
        ensures
            final(self).wf(),
            final(self).same_file(old(self)),
            final(self).kept_dirs() == dirs_after(
                old(self).kept_dirs(),
                dir_at(old(self).file(), pos, res),
                old(self).dir_capacity(),
            ),
            match r {
                Ok((tile_res, n)) => dir_of(old(self).file(), pos, res) is Ok && {
                    let dir = dir_of(old(self).file(), pos, res)->Ok_0;
                    dir.tile_res == tile_res && dir.fdh.len() == n
                },
                Err(e) => dir_of(old(self).file(), pos, res) == Err::<DirView, ErrorView>(e@),
            },
            r is Err ==> is_handed_on(r->Err_0, old(self).failures()),
    {
        match self.ensure_dir(pos, res) {
            Ok(_) => {
                let dir = &self.tile_cache[0].2;
                Ok((dir.tile_res, dir.fdh.len()))
            },
            Err(e) => Err(e),
        }
    }

    /// Header, absolute file offset and resolution of a single tile.
    ///
    /// Returns only `Copy` values, so the tile cache is no longer borrowed
    /// when the caller goes on to read from the stream.
    fn tile_entry(&mut self, pos: u64, res: Res, tile: usize) -> (r: Result<
        (FaceDataHeader, u64, Res),
        Error,
    >)
        requires
            old(self).wf(),
        ensures
            final(self).wf(),
            final(self).same_file(old(self)),
            final(self).kept_dirs() == dirs_after(
                old(self).kept_dirs(),
                dir_at(old(self).file(), pos, res),
                old(self).dir_capacity(),
            ),
            match r {
                Ok((fdh, off, tile_res)) => dir_of(old(self).file(), pos, res) is Ok && {
                    let dir = dir_of(old(self).file(), pos, res)->Ok_0;
                    &&& tile < dir.fdh.len()
                    &&& dir.fdh[tile as int] == fdh
                    &&& dir.offsets[tile as int] == off
                    &&& dir.tile_res == tile_res
                },
                Err(e) => match dir_of(old(self).file(), pos, res) {
                    Ok(dir) => tile >= dir.fdh.len() && e@ == (ErrorView::TileOutOfRange {
                        tile,
                        ntiles: dir.fdh.len() as usize,
                    }),
                    Err(err) => e@ == err,
                },
            },
            r is Err ==> is_handed_on(r->Err_0, old(self).failures()),
    {
        match self.ensure_dir(pos, res) {
            Ok(_) => {
                proof {
                    lemma_dir_shape(self.file(), pos, res);
                }
                let dir = &self.tile_cache[0].2;
                if tile < dir.fdh.len() {
                    Ok((dir.fdh[tile], dir.offsets[tile], dir.tile_res))
                } else {
                    Err(Error::TileOutOfRange { tile, ntiles: dir.fdh.len() })
                }
            },
            Err(e) => Err(e),
        }
    }

    /// Read one non-tiled data block into a strided buffer.
    fn read_block_into(
        &self,
        pos: u64,
        fdh: FaceDataHeader,
        res: Res,
        levelid: usize,
        dst: &mut [u8],
        stride: usize,
    ) -> (r: Result<(), Error>)
        requires
            self.wf(),
            res.spec_u() * self.tables().pixel_size <= stride,
            rows_fit(
                res.spec_v() as int,
                stride as int,
                (res.spec_u() * self.tables().pixel_size) as int,
                old(dst)@.len(),
            ),
        ensures
            ({
                let block = block_of(
                    self.file(),
                    self.arith(),
                    self.tables(),
                    pos,
                    fdh,
                    res,
                    levelid as int,
                );
                match r {
                    Ok(_) => block is Ok && final(dst)@ == place(
                        old(dst)@,
                        block->Ok_0,
                        stride as int,
                        (res.spec_u() * self.tables().pixel_size) as int,
                        res.spec_v() as int,
                    ),
                    Err(e) => block == Err::<Seq<u8>, ErrorView>(e@) && final(dst)@ == old(dst)@,
                }
            }),
            r is Err ==> is_handed_on(r->Err_0, self.failures()),
    {
        match fdh.encoding() {
            Encoding::Constant => {
                proof {
                    reveal(block_of);
                }
                match self.source.load_pixel(pos, fdh, levelid) {
                    Ok(pixel) => {
                        if !self.source.fits(res) {
                            return Err(unsupported("buffer too small for requested res"));
                        }
                        place_pixel(pixel.as_slice(), dst, stride, res);
                        Ok(())
                    },
                    Err(e) => Err(e),
                }
            },
            Encoding::Zipped | Encoding::DiffZipped => match self.source.load_packed(
                pos,
                fdh,
                res,
                levelid,
            ) {
                Ok(data) => {
                    place_image(data.as_slice(), dst, stride, res, self.source.info().pixel_size);
                    Ok(())
                },
                Err(e) => Err(e),
            },
            Encoding::Tiled => {
                proof {
                    reveal(block_of);
                }
                Err(corrupt("nested tiled face data"))
            },
        }
    }

    /// Read one tile of the tiled block at `pos` into a strided buffer.
    fn read_tile_into(
        &mut self,
        pos: u64,
        res: Res,
        tile: usize,
        levelid: usize,
        dst: &mut [u8],
        stride: usize,
    ) -> (r: Result<(), Error>)
        requires
            old(self).wf(),
            dir_of(old(self).file(), pos, res) is Ok,
            ({
                let dir = dir_of(old(self).file(), pos, res)->Ok_0;
                let rowlen = dir.tile_res.spec_u() * old(self).tables().pixel_size;
                &&& tile < dir.fdh.len()
                &&& rowlen <= stride
                &&& rows_fit(
                    dir.tile_res.spec_v() as int,
                    stride as int,
                    rowlen as int,
                    old(dst)@.len(),
                )
            }),
        ensures
            final(self).wf(),
            final(self).same_file(old(self)),
            final(self).kept_dirs() == dirs_after(
                old(self).kept_dirs(),
                dir_at(old(self).file(), pos, res),
                old(self).dir_capacity(),
            ),
            ({
                let dir = dir_of(old(self).file(), pos, res)->Ok_0;
                let img = tile_image(
                    old(self).file(),
                    old(self).arith(),
                    old(self).tables(),
                    dir,
                    levelid as int,
                    tile as int,
                );
                match r {
                    Ok(_) => img is Ok && final(dst)@ == place(
                        old(dst)@,
                        img->Ok_0,
                        stride as int,
                        (dir.tile_res.spec_u() * old(self).tables().pixel_size) as int,
                        dir.tile_res.spec_v() as int,
                    ),
                    Err(e) => img == Err::<Seq<u8>, ErrorView>(e@) && final(dst)@ == old(dst)@,
                }
            }),
            r is Err ==> is_handed_on(r->Err_0, old(self).failures()),
    {
        match self.tile_entry(pos, res, tile) {
            Ok((fdh, off, tile_res)) => self.read_block_into(
                off,
                fdh,
                tile_res,
                levelid,
                dst,
                stride,
            ),
            Err(e) => Err(e),
        }
    }

    /// Fill a face-sized buffer by streaming every tile of a tiled block.
    fn assemble_tiles(
        &mut self,
        pos: u64,
        res: Res,
        levelid: usize,
        buffer: &mut [u8],
        stride: usize,
    ) -> (r: Result<(), Error>)
        requires
            old(self).wf(),
            res.spec_u() * old(self).tables().pixel_size <= stride,
            rows_fit(
                res.spec_v() as int,
                stride as int,
                (res.spec_u() * old(self).tables().pixel_size) as int,
                old(buffer)@.len(),
            ),
        ensures
            final(self).wf(),
            final(self).same_file(old(self)),
            final(self).kept_dirs() == dirs_after(
                old(self).kept_dirs(),
                dir_at(old(self).file(), pos, res),
                old(self).dir_capacity(),
            ),
            ({
                let img = tiled_of(
                    old(self).file(),
                    old(self).arith(),
                    old(self).tables(),
                    pos,
                    res,
                    levelid as int,
                );
                let rowlen = (res.spec_u() * old(self).tables().pixel_size) as int;
                match r {
                    Ok(_) => img is Ok && final(buffer)@ == place(
                        old(buffer)@,
                        img->Ok_0,
                        stride as int,
                        rowlen,
                        res.spec_v() as int,
                    ),
                    Err(e) => img == Err::<Seq<u8>, ErrorView>(e@) && same_outside(
                        old(buffer)@,
                        final(buffer)@,
                        stride as int,
                        rowlen,
                        res.spec_v() as int,
                    ),
                }
            }),
            r is Err ==> is_handed_on(r->Err_0, old(self).failures()),
    {
        let ghost d0 = buffer@;
        let ghost f = self.file();
        let ghost m = self.arith();
        let ghost info = self.tables();
        let (tile_res, ntiles) = match self.tile_dir_shape(pos, res) {
            Ok(shape) => shape,
            Err(e) => {
                return Err(e);
            },
        };
        let ps: usize = self.source.info().pixel_size;
        let ghost kept = self.kept_dirs();
        let ghost dir = dir_of(f, pos, res)->Ok_0;
        let ghost tiles = tile_images(f, m, info, dir, levelid as int);
        let ghost img = assembled(tiles, res, tile_res, ps as nat);
        proof {
            lemma_dir_shape(f, pos, res);
            lemma_tiles_span(res, tile_res);
            a_directory_used_again_stays(
                old(self).kept_dirs(),
                Some((pos, res)),
                self.dir_capacity(),
            );
        }
        if !do_tiles_cover(res, tile_res) {
            return match self.read_uncovered(pos, res, levelid) {
                Ok(_) => {
                    proof {
                        lemma_uncovered(f, m, info, dir, levelid as int, res);
                        assert(res.spec_u() * 0 == 0);
                        assert(buffer@ =~= place(
                            d0,
                            img,
                            stride as int,
                            0,
                            res.spec_v() as int,
                        ));
                    }
                    Ok(())
                },
                Err(e) => Err(e),
            };
        }
        let ntilesu: usize = res.ntilesu(tile_res);
        let tu: usize = tile_res.u();
        let tilevres: usize = tile_res.v();
        assert(buffer@.len() == buffer.len());
        proof {
            lemma_no_tiles_placed(d0, img, res, tile_res, ps as nat, stride as int);
        }
        let mut tile: usize = 0;
        while tile < ntiles
            invariant
                tile <= ntiles,
                self.wf(),
                self.same_file(old(self)),
                self.dir_capacity() >= 1,
                self.kept_dirs() == kept,
                kept == keys_after_use(old(self).kept_dirs(), (pos, res), self.dir_capacity()),
                f == self.file(),
                m == self.arith(),
                info == self.tables(),
                ps == info.pixel_size,
                dir_of(f, pos, res) == Ok::<DirView, ErrorView>(dir),
                dir.tile_res == tile_res,
                dir.fdh.len() == ntiles,
                ntiles == res.spec_ntiles(tile_res),
                tiles_cover(res, tile_res),
                tiles == tile_images(f, m, info, dir, levelid as int),
                img == assembled(tiles, res, tile_res, ps as nat),
                ntilesu == res.spec_ntilesu(tile_res),
                ntilesu > 0,
                tu == tile_res.spec_u(),
                tilevres == tile_res.spec_v(),
                tilevres > 0,
                res.spec_u() * ps <= stride,
                rows_fit(
                    res.spec_v() as int,
                    stride as int,
                    (res.spec_u() * ps) as int,
                    d0.len(),
                ),
                d0 == old(buffer)@,
                d0.len() <= usize::MAX,
                first_tile_error(f, m, info, dir, levelid as int, res, tile as nat) is None,
                tiles_placed(
                    d0,
                    buffer@,
                    img,
                    res,
                    tile_res,
                    ps as nat,
                    stride as int,
                    tile as int,
                ),
            decreases ntiles - tile,
        {
            let ghost cur = buffer@;
            proof {
                a_directory_used_again_stays(
                    old(self).kept_dirs(),
                    Some((pos, res)),
                    self.dir_capacity(),
                );
                lemma_tile_start(
                    tile as int,
                    stride as int,
                    res,
                    tile_res,
                    ps as nat,
                    d0.len(),
                );
                crate::place::lemma_tile_is_smaller(res, tile_res, ps as nat);
                lemma_covering_tile_inside(tile as int, res, tile_res, ps as nat);
            }
            let i: usize = tile / ntilesu;
            let j: usize = tile % ntilesu;
            let tilerowlen: usize = tu * ps;
            assert(i * stride <= i * stride * tilevres) by (nonlinear_arith)
                requires
                    0 <= i * stride,
                    1 <= tilevres,
            ;
            let off: usize = i * stride * tilevres + j * tilerowlen;
            assert(off == tile_start(tile as int, stride as int, res, tile_res, ps as nat));
            let (head, tail) = buffer.split_at_mut(off);
            let r = self.read_tile_into(pos, res, tile, levelid, tail, stride);
            proof {
                assert(cur.take(off as int) == cur.subrange(0, off as int));
                assert(cur.skip(off as int) =~= cur.subrange(off as int, cur.len() as int));
            }
            match r {
                Ok(_) => {
                    proof {
                        lemma_tile_placed(
                            d0,
                            cur,
                            buffer@,
                            tiles,
                            res,
                            tile_res,
                            ps as nat,
                            stride as int,
                            tile as int,
                        );
                    }
                },
                Err(e) => {
                    proof {
                        assert(buffer@ =~= cur);
                        lemma_tiles_stay_inside(
                            d0,
                            cur,
                            img,
                            res,
                            tile_res,
                            ps as nat,
                            stride as int,
                            tile as int,
                        );
                        lemma_tile_error(
                            f,
                            m,
                            info,
                            dir,
                            levelid as int,
                            res,
                            (tile + 1) as nat,
                            ntiles as nat,
                        );
                    }
                    return Err(e);
                },
            }
            tile = tile + 1;
        }
        proof {
            lemma_all_tiles_placed(d0, buffer@, img, res, tile_res, ps as nat, stride as int);
        }
        Ok(())
    }

    /// Read the tiles of a grid that is larger than its face, up to the first
    /// that lies outside the face or cannot be read.
    fn read_uncovered(&mut self, pos: u64, res: Res, levelid: usize) -> (r: Result<(), Error>)
        requires
            old(self).wf(),
            dir_of(old(self).file(), pos, res) is Ok,
        ensures
            final(self).wf(),
            final(self).same_file(old(self)),
            final(self).kept_dirs() == dirs_after(
                old(self).kept_dirs(),
                dir_at(old(self).file(), pos, res),
                old(self).dir_capacity(),
            ),
            ({
                let dir = dir_of(old(self).file(), pos, res)->Ok_0;
                first_tile_error(
                    old(self).file(),
                    old(self).arith(),
                    old(self).tables(),
                    dir,
                    levelid as int,
                    res,
                    dir.fdh.len(),
                ) == match r {
                    Ok(_) => None::<ErrorView>,
                    Err(e) => Some(e@),
                }
            }),
            r is Err ==> is_handed_on(r->Err_0, old(self).failures()),
    {
        let ghost f = self.file();
        let ghost m = self.arith();
        let ghost info = self.tables();
        let ghost dir = dir_of(f, pos, res)->Ok_0;
        proof {
            lemma_dir_shape(f, pos, res);
        }
        let (tile_res, ntiles) = match self.tile_dir_shape(pos, res) {
            Ok(shape) => shape,
            Err(e) => {
                return Err(e);
            },
        };
        let ps: usize = self.source.info().pixel_size;
        let ghost kept = self.kept_dirs();
        let mut tile: usize = 0;
        while tile < ntiles
            invariant
                tile <= ntiles,
                self.wf(),
                self.same_file(old(self)),
                self.dir_capacity() >= 1,
                self.kept_dirs() == kept,
                kept == keys_after_use(old(self).kept_dirs(), (pos, res), self.dir_capacity()),
                f == self.file(),
                m == self.arith(),
                info == self.tables(),
                ps == info.pixel_size,
                dir_of(f, pos, res) == Ok::<DirView, ErrorView>(dir),
                dir.tile_res == tile_res,
                dir.fdh.len() == ntiles,
                tiles_fit(res, tile_res),
                first_tile_error(f, m, info, dir, levelid as int, res, tile as nat) is None,
            decreases ntiles - tile,
        {
            proof {
                a_directory_used_again_stays(
                    old(self).kept_dirs(),
                    Some((pos, res)),
                    self.dir_capacity(),
                );
                if first_tile_error(f, m, info, dir, levelid as int, res, (tile + 1) as nat)
                    is Some {
                    lemma_tile_error(
                        f,
                        m,
                        info,
                        dir,
                        levelid as int,
                        res,
                        (tile + 1) as nat,
                        ntiles as nat,
                    );
                }
            }
            if !is_tile_inside(tile, res, tile_res, ps) {
                return Err(corrupt("tile outside the face"));
            }
            let (fdh, off, tres) = match self.tile_entry(pos, res, tile) {
                Ok(entry) => entry,
                Err(e) => {
                    return Err(e);
                },
            };
            match self.load_image(off, fdh, tres, levelid) {
                Ok(_) => {},
                Err(e) => {
                    return Err(e);
                },
            }
            tile = tile + 1;
        }
        Ok(())
    }

    /// Read one non-tiled data block as a packed image.
    fn load_image(&self, pos: u64, fdh: FaceDataHeader, res: Res, levelid: usize) -> (r: Result<
        Vec<u8>,
        Error,
    >)
        requires
            self.wf(),
        ensures
            view_bytes(r) == block_of(
                self.file(),
                self.arith(),
                self.tables(),
                pos,
                fdh,
                res,
                levelid as int,
            ),
            r is Ok ==> r->Ok_0@.len() == image_size(self.tables(), res),
            r is Err ==> is_handed_on(r->Err_0, self.failures()),
    {
        match fdh.encoding() {
            Encoding::Constant => {
                proof {
                    reveal(block_of);
                }
                match self.source.load_pixel(pos, fdh, levelid) {
                    Ok(pixel) => self.solid(pixel.as_slice(), res),
                    Err(e) => Err(e),
                }
            },
            Encoding::Zipped | Encoding::DiffZipped => self.source.load_packed(
                pos,
                fdh,
                res,
                levelid,
            ),
            Encoding::Tiled => {
                proof {
                    reveal(block_of);
                }
                Err(corrupt("nested tiled face data"))
            },
        }
    }

    /// An image of a single color, if memory can hold it.
    fn solid(&self, pixel: &[u8], res: Res) -> (r: Result<Vec<u8>, Error>)
        requires
            self.wf(),
            pixel@.len() == self.tables().pixel_size,
        ensures
            view_bytes(r) == if is_allocatable(self.tables(), res) {
                Ok(solid_image(pixel@, res))
            } else {
                Err(too_large())
            },
            r is Ok ==> r->Ok_0@.len() == image_size(self.tables(), res),
            r is Err ==> is_handed_on(r->Err_0, self.failures()),
    {
        let mut buf = match self.source.new_image(res) {
            Ok(buf) => buf,
            Err(e) => {
                return Err(e);
            },
        };
        let ps: usize = pixel.len();
        let uw: usize = res.u();
        let vw: usize = res.v();
        proof {
            lemma_rows_in_image(uw as int, vw as int, ps as int, vw as int, uw as int);
            assert(uw * vw * ps == vw * (uw * ps)) by (nonlinear_arith);
            crate::place::lemma_solid_rows(pixel@, res);
        }
        let ghost d = buf@;
        place_pixel(pixel, buf.as_mut_slice(), uw * ps, res);
        proof {
            lemma_packed_placed(d, solid_image(pixel@, res), uw * ps, vw as int);
        }
        Ok(buf)
    }

    /// The image that the tiles of a tiled block make up, if memory can hold
    /// it.
    fn assembled_image(&mut self, pos: u64, res: Res, levelid: usize) -> (r: Result<
        Vec<u8>,
        Error,
    >)
        requires
            old(self).wf(),
        ensures
            final(self).wf(),
            final(self).same_file(old(self)),
            final(self).kept_dirs() == dirs_after(
                old(self).kept_dirs(),
                if is_allocatable(old(self).tables(), res) {
                    dir_at(old(self).file(), pos, res)
                } else {
                    None
                },
                old(self).dir_capacity(),
            ),
            view_bytes(r) == if is_allocatable(old(self).tables(), res) {
                tiled_of(
                    old(self).file(),
                    old(self).arith(),
                    old(self).tables(),
                    pos,
                    res,
                    levelid as int,
                )
            } else {
                Err(too_large())
            },
            r is Err ==> is_handed_on(r->Err_0, old(self).failures()),
    {
        let mut buf = match self.source.new_image(res) {
            Ok(buf) => buf,
            Err(e) => {
                return Err(e);
            },
        };
        let ps: usize = self.source.info().pixel_size;
        let uw: usize = res.u();
        let vw: usize = res.v();
        proof {
            lemma_rows_in_image(uw as int, vw as int, ps as int, vw as int, uw as int);
            assert(uw * vw * ps == vw * (uw * ps)) by (nonlinear_arith);
        }
        let ghost d = buf@;
        match self.assemble_tiles(pos, res, levelid, buf.as_mut_slice(), uw * ps) {
            Ok(_) => {
                proof {
                    let img = tiled_of(
                        self.file(),
                        self.arith(),
                        self.tables(),
                        pos,
                        res,
                        levelid as int,
                    )->Ok_0;
                    lemma_packed_placed(d, img, uw * ps, vw as int);
                }
                Ok(buf)
            },
            Err(e) => Err(e),
        }
    }

    // ---- whole-face reading ----

    /// Read the full-resolution pixel data for a face.
    ///
    /// Returns interleaved pixel data in v-major order (`res.v()` rows of
    /// `res.u()` pixels of `pixel_size()` bytes).
    pub fn get_data(&mut self, faceid: usize) -> (r: Result<Vec<u8>, Error>)
        requires
            old(self).wf(),
        ensures
            final(self).wf(),
            final(self).same_file(old(self)),
            final(self).kept_dirs() == dirs_after(
                old(self).kept_dirs(),
                match old(self).tables().face(faceid as int) {
                    Ok(face) => face_dir(
                        old(self).file(),
                        old(self).tables(),
                        faceid as int,
                        face.res,
                    ),
                    Err(_) => None,
                },
                old(self).dir_capacity(),
            ),
            view_bytes(r) == match old(self).tables().face(faceid as int) {
                Ok(face) => face_of(
                    old(self).file(),
                    old(self).arith(),
                    old(self).tables(),
                    faceid as int,
                    face.res,
                ),
                Err(e) => Err(e),
            },
            r is Ok ==> r->Ok_0@.len() == image_size(
                old(self).tables(),
                old(self).tables().faces[faceid as int].res,
            ),
            r is Err ==> is_handed_on(r->Err_0, old(self).failures()),
    {
        let res: Res = match self.source.info().face_info(faceid) {
            Ok(face) => face.res,
            Err(e) => {
                return Err(e);
            },
        };
        self.get_data_at_res(faceid, res)
    }

    /// Read pixel data for a face at the given resolution.
    ///
    /// If `res` matches a stored resolution (the full resolution or a
    /// stored mipmap level) the data is read directly; otherwise a
    /// reduction is computed from the next larger resolution.  Enlargements
    /// are not supported.
    pub fn get_data_at_res(&mut self, faceid: usize, res: Res) -> (r: Result<Vec<u8>, Error>)
        requires
            old(self).wf(),
        ensures
            final(self).wf(),
            final(self).same_file(old(self)),
            final(self).kept_dirs() == dirs_after(
                old(self).kept_dirs(),
                face_dir(old(self).file(), old(self).tables(), faceid as int, res),
                old(self).dir_capacity(),
            ),
            view_bytes(r) == face_of(
                old(self).file(),
                old(self).arith(),
                old(self).tables(),
                faceid as int,
                res,
            ),
            r is Ok ==> r->Ok_0@.len() == image_size(old(self).tables(), res),
            r is Err ==> is_handed_on(r->Err_0, old(self).failures()),
        decreases reduction_depth(old(self).tables(), faceid as int, res), 1nat,
    {
        proof {
            self.source.lemma_wf();
            lemma_face_len(self.file(), self.arith(), self.tables(), faceid as int, res);
        }
        match self.source.info().resolve(faceid, res) {
            Ok(FaceSource::Constant) => match self.source.info().constant_data(faceid) {
                Ok(pixel) => self.solid(pixel, res),
                Err(e) => Err(e),
            },
            Ok(FaceSource::Stored { levelid, facepos }) => {
                let (fdh, pos) = match self.level_entry(levelid, facepos) {
                    Ok(entry) => entry,
                    Err(e) => {
                        return Err(e);
                    },
                };
                if fdh.encoding() == Encoding::Tiled {
                    self.assembled_image(pos, res, levelid)
                } else {
                    self.load_image(pos, fdh, res, levelid)
                }
            },
            Ok(FaceSource::Reduced) => self.reduced(faceid, res),
            Err(e) => Err(e),
        }
    }

    /// Compute a dynamically reduced resolution.
    fn reduced(&mut self, faceid: usize, res: Res) -> (r: Result<Vec<u8>, Error>)
        requires
            old(self).wf(),
            old(self).tables().source(faceid as int, res) == Ok::<FaceSource, ErrorView>(
                FaceSource::Reduced,
            ),
        ensures
            final(self).wf(),
            final(self).same_file(old(self)),
            final(self).kept_dirs() == dirs_after(
                old(self).kept_dirs(),
                face_dir(old(self).file(), old(self).tables(), faceid as int, res),
                old(self).dir_capacity(),
            ),
            view_bytes(r) == face_of(
                old(self).file(),
                old(self).arith(),
                old(self).tables(),
                faceid as int,
                res,
            ),
            r is Err ==> is_handed_on(r->Err_0, old(self).failures()),
        decreases reduction_depth(old(self).tables(), faceid as int, res), 0nat,
    {
        let (src_res, kind) = match self.source.info().reduction_source(faceid, res) {
            Ok(from) => from,
            Err(e) => {
                return Err(e);
            },
        };
        match self.get_data_at_res(faceid, src_res) {
            Ok(src) => self.source.reduce(src.as_slice(), src_res, res, kind),
            Err(e) => Err(e),
        }
    }

    /// Read pixel data for a face at the given resolution into a
    /// caller-provided buffer.
    ///
    /// `stride` is the row stride of `buffer` in bytes; 0 means tightly
    /// packed (`res.u() * pixel_size()`).  Bytes between and behind the rows
    /// are left alone.
    pub fn get_data_into(
        &mut self,
        faceid: usize,
        res: Res,
        buffer: &mut [u8],
        stride: usize,
    ) -> (r: Result<(), Error>)
        requires
            old(self).wf(),
        ensures
            final(self).wf(),
            final(self).same_file(old(self)),
            final(self).kept_dirs() == dirs_after(
                old(self).kept_dirs(),
                match spec_check_buffer(
                    res,
                    old(self).tables().pixel_size,
                    old(buffer)@.len(),
                    stride as nat,
                ) {
                    Ok(_) => face_dir(
                        old(self).file(),
                        old(self).tables(),
                        faceid as int,
                        res,
                    ),
                    Err(_) => None,
                },
                old(self).dir_capacity(),
            ),
            image_written(
                old(self).tables().pixel_size,
                res,
                face_of(
                    old(self).file(),
                    old(self).arith(),
                    old(self).tables(),
                    faceid as int,
                    res,
                ),
                old(buffer)@,
                stride as nat,
                view_result(r),
                final(buffer)@,
            ),
            r is Err ==> is_handed_on(r->Err_0, old(self).failures()),
    {
        let ghost info = self.tables();
        proof {
            self.source.lemma_wf();
            lemma_face_len(self.file(), self.arith(), info, faceid as int, res);
        }
        let s: usize = match check_buffer(res, self.source.info().pixel_size, buffer, stride) {
            Ok(s) => s,
            Err(e) => {
                return Err(e);
            },
        };
        proof {
            lemma_checked(res, info.pixel_size, buffer@.len(), stride as nat);
            assert(buffer@.len() == buffer.len());
        }
        match self.source.info().resolve(faceid, res) {
            Ok(FaceSource::Constant) => match self.source.info().constant_data(faceid) {
                Ok(pixel) => {
                    if !self.source.fits(res) {
                        return Err(unsupported("buffer too small for requested res"));
                    }
                    place_pixel(pixel, buffer, s, res);
                    Ok(())
                },
                Err(e) => Err(e),
            },
            Ok(FaceSource::Stored { levelid, facepos }) => match self.level_entry(
                levelid,
                facepos,
            ) {
                Ok((fdh, pos)) => {
                    if fdh.encoding() == Encoding::Tiled {
                        if !self.source.fits(res) {
                            return Err(unsupported("buffer too small for requested res"));
                        }
                        self.assemble_tiles(pos, res, levelid, buffer, s)
                    } else {
                        self.read_block_into(pos, fdh, res, levelid, buffer, s)
                    }
                },
                Err(e) => Err(e),
            },
            Ok(FaceSource::Reduced) => match self.reduced(faceid, res) {
                Ok(data) => {
                    let ps: usize = self.source.info().pixel_size;
                    place_image(data.as_slice(), buffer, s, res, ps);
                    Ok(())
                },
                Err(e) => Err(e),
            },
            Err(e) => Err(e),
        }
    }

    // ---- tile streaming ----

    /// Describe how a face is laid out at the given resolution.
    ///
    /// `res` is interpreted exactly as by [`PtexReader::get_data_at_res`]:
    /// the full resolution and stored mipmap levels are read directly,
    /// other resolutions are computed by reduction and report a single
    /// tile.  Only index data is read, never pixel data.
    pub fn tile_layout(&mut self, faceid: usize, res: Res) -> (r: Result<TileLayout, Error>)
        requires
            old(self).wf(),
        ensures
            final(self).wf(),
            final(self).same_file(old(self)),
            final(self).kept_dirs() == dirs_after(
                old(self).kept_dirs(),
                layout_dir(old(self).file(), old(self).tables(), faceid as int, res),
                old(self).dir_capacity(),
            ),
            view_result(r) == layout_of(
                old(self).file(),
                old(self).tables(),
                faceid as int,
                res,
            ),
            r is Ok ==> r->Ok_0.spec_ntiles() <= usize::MAX,
            r is Ok && 0 <= res.ulog2 < 32 && 0 <= res.vlog2 < 32 ==> r->Ok_0.covers_face(),
            r is Err ==> is_handed_on(r->Err_0, old(self).failures()),
    {
        match self.source.info().resolve(faceid, res) {
            Ok(FaceSource::Constant) => Ok(TileLayout::untiled(res, true, true)),
            Ok(FaceSource::Reduced) => Ok(TileLayout::untiled(res, false, false)),
            Ok(FaceSource::Stored { levelid, facepos }) => {
                let (fdh, pos) = match self.level_entry(levelid, facepos) {
                    Ok(entry) => entry,
                    Err(e) => {
                        return Err(e);
                    },
                };
                match fdh.encoding() {
                    Encoding::Constant => Ok(TileLayout::untiled(res, true, true)),
                    Encoding::Zipped | Encoding::DiffZipped => Ok(
                        TileLayout::untiled(res, false, true),
                    ),
                    Encoding::Tiled => match self.tile_dir_shape(pos, res) {
                        Ok((tile_res, ntiles)) => {
                            proof {
                                lemma_dir_shape(self.file(), pos, res);
                                lemma_tiles_span(res, tile_res);
                            }
                            let layout = TileLayout {
                                res,
                                tile_res,
                                ntilesu: res.ntilesu(tile_res),
                                ntilesv: res.ntilesv(tile_res),
                                is_tiled: true,
                                is_constant: false,
                                is_stored: true,
                            };
                            assert(layout.spec_ntiles() == ntiles);
                            Ok(layout)
                        },
                        Err(e) => Err(e),
                    },
                }
            },
            Err(e) => Err(e),
        }
    }

    /// Information about a single tile, without reading its pixel data.
    pub fn tile_info(&mut self, faceid: usize, res: Res, tile: usize) -> (r: Result<
        TileInfo,
        Error,
    >)
        requires
            old(self).wf(),
        ensures
            final(self).wf(),
            final(self).same_file(old(self)),
            final(self).kept_dirs() == dirs_after(
                old(self).kept_dirs(),
                layout_dir(old(self).file(), old(self).tables(), faceid as int, res),
                old(self).dir_capacity(),
            ),
            view_result(r) == tile_info_of(
                old(self).file(),
                old(self).tables(),
                faceid as int,
                res,
                tile as int,
            ),
            r is Err ==> is_handed_on(r->Err_0, old(self).failures()),
    {
        let layout = match self.tile_layout(faceid, res) {
            Ok(layout) => layout,
            Err(e) => {
                return Err(e);
            },
        };
        let ntiles: usize = layout.ntiles();
        if tile >= ntiles {
            return Err(Error::TileOutOfRange { tile, ntiles });
        }
        proof {
            a_directory_used_again_stays(
                old(self).kept_dirs(),
                layout_dir(self.file(), self.tables(), faceid as int, res),
                self.dir_capacity(),
            );
            lemma_layout(self.file(), self.tables(), faceid as int, res);
        }
        let origin = origin_of_tile(&layout, tile);
        match self.tile_block(faceid, res, tile) {
            Ok(Some((fdh, pos))) => Ok(
                TileInfo {
                    res: layout.tile_res,
                    origin,
                    is_constant: fdh.encoding() == Encoding::Constant,
                    compressed_size: fdh.blocksize() as u64,
                    file_offset: Some(pos),
                },
            ),
            Ok(None) => Ok(
                TileInfo {
                    res: layout.tile_res,
                    origin,
                    is_constant: layout.is_constant,
                    compressed_size: 0,
                    file_offset: None,
                },
            ),
            Err(e) => Err(e),
        }
    }

    /// Header and file offset of the block of a tile, if it has one.
    fn tile_block(&mut self, faceid: usize, res: Res, tile: usize) -> (r: Result<
        Option<(FaceDataHeader, u64)>,
        Error,
    >)
        requires
            old(self).wf(),
            ({
                let layout = layout_of(
                    old(self).file(),
                    old(self).tables(),
                    faceid as int,
                    res,
                );
                layout is Ok && tile < layout->Ok_0.spec_ntiles()
            }),
        ensures
            final(self).wf(),
            final(self).same_file(old(self)),
            final(self).kept_dirs() == dirs_after(
                old(self).kept_dirs(),
                layout_dir(old(self).file(), old(self).tables(), faceid as int, res),
                old(self).dir_capacity(),
            ),
            r == Ok::<Option<(FaceDataHeader, u64)>, Error>(
                tile_block_of(
                    old(self).file(),
                    old(self).tables(),
                    faceid as int,
                    res,
                    tile as int,
                ),
            ),
    {
        proof {
            lemma_layout(self.file(), self.tables(), faceid as int, res);
        }
        let (levelid, facepos): (usize, usize) = match self.source.info().resolve(faceid, res) {
            Ok(FaceSource::Stored { levelid, facepos }) => (levelid, facepos),
            Ok(_) => {
                return Ok(None);
            },
            Err(e) => {
                return Err(e);
            },
        };
        match self.level_entry(levelid, facepos) {
            Ok((fdh, pos)) => {
                if fdh.encoding() == Encoding::Tiled {
                    proof {
                        lemma_dir_shape(self.file(), pos, res);
                    }
                    match self.tile_entry(pos, res, tile) {
                        Ok((tfdh, toff, _)) => Ok(Some((tfdh, toff))),
                        Err(e) => Err(e),
                    }
                } else {
                    Ok(Some((fdh, pos)))
                }
            },
            Err(e) => Err(e),
        }
    }

    /// Read the pixel data of a single tile.
    ///
    /// Returns interleaved pixels in v-major order: `tile_res.v()` rows of
    /// `tile_res.u()` pixels of `pixel_size()` bytes, where `tile_res` is
    /// [`TileLayout::tile_res`] for the same face and resolution.  For a
    /// face that is not tiled this is the whole face and `tile` must be 0.
    pub fn get_tile(&mut self, faceid: usize, res: Res, tile: usize) -> (r: Result<Vec<u8>, Error>)
        requires
            old(self).wf(),
        ensures
            final(self).wf(),
            final(self).same_file(old(self)),
            final(self).kept_dirs() == dirs_after(
                old(self).kept_dirs(),
                if tile_is_face(
                    old(self).file(),
                    old(self).tables(),
                    faceid as int,
                    res,
                    tile as int,
                ) {
                    face_dir(old(self).file(), old(self).tables(), faceid as int, res)
                } else {
                    layout_dir(old(self).file(), old(self).tables(), faceid as int, res)
                },
                old(self).dir_capacity(),
            ),
            view_bytes(r) == tile_of(
                old(self).file(),
                old(self).arith(),
                old(self).tables(),
                faceid as int,
                res,
                tile as int,
            ),
            r is Ok ==> r->Ok_0@.len() == image_size(
                old(self).tables(),
                layout_of(old(self).file(), old(self).tables(), faceid as int, res)->Ok_0.tile_res,
            ),
            r is Err ==> is_handed_on(r->Err_0, old(self).failures()),
    {
        let layout = match self.tile_layout(faceid, res) {
            Ok(layout) => layout,
            Err(e) => {
                return Err(e);
            },
        };
        let ntiles: usize = layout.ntiles();
        if tile >= ntiles {
            return Err(Error::TileOutOfRange { tile, ntiles });
        }
        if !layout.is_tiled {
            return self.get_data_at_res(faceid, res);
        }
        proof {
            a_directory_used_again_stays(
                old(self).kept_dirs(),
                layout_dir(self.file(), self.tables(), faceid as int, res),
                self.dir_capacity(),
            );
        }
        match self.stored_tile(faceid, res, tile) {
            Ok((levelid, fdh, off, tile_res)) => self.load_image(off, fdh, tile_res, levelid),
            Err(e) => Err(e),
        }
    }

    /// Read the pixel data of a single tile into a caller-provided buffer.
    ///
    /// `stride` is the row stride of `buffer` in bytes; 0 means tightly
    /// packed (`tile_res.u() * pixel_size()`).  A non-zero stride writes the
    /// tile straight into the middle of a larger image.
    pub fn get_tile_into(
        &mut self,
        faceid: usize,
        res: Res,
        tile: usize,
        buffer: &mut [u8],
        stride: usize,
    ) -> (r: Result<(), Error>)
        requires
            old(self).wf(),
        ensures
            final(self).wf(),
            final(self).same_file(old(self)),
            final(self).kept_dirs() == dirs_after(
                old(self).kept_dirs(),
                if tile_is_face(
                    old(self).file(),
                    old(self).tables(),
                    faceid as int,
                    res,
                    tile as int,
                ) {
                    match spec_check_buffer(
                        res,
                        old(self).tables().pixel_size,
                        old(buffer)@.len(),
                        stride as nat,
                    ) {
                        Ok(_) => face_dir(
                            old(self).file(),
                            old(self).tables(),
                            faceid as int,
                            res,
                        ),
                        Err(_) => None,
                    }
                } else {
                    layout_dir(old(self).file(), old(self).tables(), faceid as int, res)
                },
                old(self).dir_capacity(),
            ),
            match layout_of(old(self).file(), old(self).tables(), faceid as int, res) {
                Ok(layout) => if tile >= layout.spec_ntiles() {
                    view_result(r) == Err::<(), ErrorView>(no_tile(layout, tile as int))
                        && final(buffer)@ == old(buffer)@
                } else {
                    image_written(
                        old(self).tables().pixel_size,
                        layout.tile_res,
                        tile_of(
                            old(self).file(),
                            old(self).arith(),
                            old(self).tables(),
                            faceid as int,
                            res,
                            tile as int,
                        ),
                        old(buffer)@,
                        stride as nat,
                        view_result(r),
                        final(buffer)@,
                    )
                },
                Err(e) => view_result(r) == Err::<(), ErrorView>(e) && final(buffer)@ == old(
                    buffer,
                )@,
            },
            r is Err ==> is_handed_on(r->Err_0, old(self).failures()),
    {
        let layout = match self.tile_layout(faceid, res) {
            Ok(layout) => layout,
            Err(e) => {
                return Err(e);
            },
        };
        let ntiles: usize = layout.ntiles();
        if tile >= ntiles {
            return Err(Error::TileOutOfRange { tile, ntiles });
        }
        if !layout.is_tiled {
            return self.get_data_into(faceid, res, buffer, stride);
        }
        let ps: usize = self.source.info().pixel_size;
        proof {
            self.source.lemma_wf();
        }
        let s: usize = match check_buffer(layout.tile_res, ps, buffer, stride) {
            Ok(s) => s,
            Err(e) => {
                return Err(e);
            },
        };
        proof {
            lemma_checked(layout.tile_res, ps as nat, buffer@.len(), stride as nat);
            assert(buffer@.len() == buffer.len());
        }
        proof {
            a_directory_used_again_stays(
                old(self).kept_dirs(),
                layout_dir(self.file(), self.tables(), faceid as int, res),
                self.dir_capacity(),
            );
        }
        match self.stored_tile(faceid, res, tile) {
            Ok((levelid, fdh, off, tile_res)) => self.read_block_into(
                off,
                fdh,
                tile_res,
                levelid,
                buffer,
                s,
            ),
            Err(e) => Err(e),
        }
    }

    /// Level, header, file offset and resolution of a tile of a tiled face.
    fn stored_tile(&mut self, faceid: usize, res: Res, tile: usize) -> (r: Result<
        (usize, FaceDataHeader, u64, Res),
        Error,
    >)
        requires
            old(self).wf(),
            ({
                let layout = layout_of(
                    old(self).file(),
                    old(self).tables(),
                    faceid as int,
                    res,
                );
                layout is Ok && layout->Ok_0.is_tiled && tile < layout->Ok_0.spec_ntiles()
            }),
        ensures
            final(self).wf(),
            final(self).same_file(old(self)),
            final(self).kept_dirs() == dirs_after(
                old(self).kept_dirs(),
                layout_dir(old(self).file(), old(self).tables(), faceid as int, res),
                old(self).dir_capacity(),
            ),
            r is Ok,
            ({
                let (levelid, fdh, off, tile_res) = r->Ok_0;
                let layout = layout_of(
                    old(self).file(),
                    old(self).tables(),
                    faceid as int,
                    res,
                )->Ok_0;
                &&& tile_res == layout.tile_res
                &&& block_of(
                    old(self).file(),
                    old(self).arith(),
                    old(self).tables(),
                    off,
                    fdh,
                    tile_res,
                    levelid as int,
                ) == stored_tile_of(
                    old(self).file(),
                    old(self).arith(),
                    old(self).tables(),
                    faceid as int,
                    res,
                    tile as int,
                )
            }),
    {
        proof {
            lemma_layout(self.file(), self.tables(), faceid as int, res);
        }
        let (levelid, facepos): (usize, usize) = match self.source.info().resolve(faceid, res) {
            Ok(FaceSource::Stored { levelid, facepos }) => (levelid, facepos),
            Ok(_) => {
                return Err(corrupt("inconsistent tile layout"));
            },
            Err(e) => {
                return Err(e);
            },
        };
        match self.level_entry(levelid, facepos) {
            Ok((_, pos)) => {
                proof {
                    lemma_dir_shape(self.file(), pos, res);
                }
                match self.tile_entry(pos, res, tile) {
                    Ok((fdh, off, tile_res)) => Ok((levelid, fdh, off, tile_res)),
                    Err(e) => Err(e),
                }
            },
            Err(e) => Err(e),
        }
    }

    // ---- single texels ----

    /// Read a single texel of a face as raw bytes, reading only the tile that
    /// holds it.
    pub fn read_texel(&mut self, faceid: usize, res: Res, u: usize, v: usize) -> (r: Result<
        Vec<u8>,
        Error,
    >)
        requires
            old(self).wf(),
        ensures
            final(self).wf(),
            final(self).same_file(old(self)),
            final(self).kept_dirs() == dirs_after(
                old(self).kept_dirs(),
                if u < res.spec_u() && v < res.spec_v() {
                    texel_dir(old(self).file(), old(self).tables(), faceid as int, res)
                } else {
                    None
                },
                old(self).dir_capacity(),
            ),
            view_bytes(r) == texel_of(
                old(self).file(),
                old(self).arith(),
                old(self).tables(),
                faceid as int,
                res,
                u as int,
                v as int,
            ),
            r is Ok ==> r->Ok_0@.len() == old(self).tables().pixel_size,
            r is Err ==> is_handed_on(r->Err_0, old(self).failures()),
    {
        if u >= res.u() || v >= res.v() {
            return Err(unsupported("pixel coordinates out of range"));
        }
        match self.source.info().resolve(faceid, res) {
            Ok(FaceSource::Constant) => match self.source.info().constant_data(faceid) {
                Ok(pixel) => Ok(vstd::slice::slice_to_vec(pixel)),
                Err(e) => Err(e),
            },
            Ok(FaceSource::Stored { levelid, facepos }) => {
                let (fdh, pos) = match self.level_entry(levelid, facepos) {
                    Ok(entry) => entry,
                    Err(e) => {
                        return Err(e);
                    },
                };
                if fdh.encoding() == Encoding::Tiled {
                    let (tile_res, _) = match self.tile_dir_shape(pos, res) {
                        Ok(shape) => shape,
                        Err(e) => {
                            return Err(e);
                        },
                    };
                    let tu: usize = tile_res.u();
                    let tv: usize = tile_res.v();
                    proof {
                        a_directory_used_again_stays(
                            old(self).kept_dirs(),
                            Some((pos, res)),
                            self.dir_capacity(),
                        );
                        lemma_dir_shape(self.file(), pos, res);
                        lemma_texel_tile(res, tile_res, u as int, v as int);
                    }
                    let tile: usize = (v / tv) * res.ntilesu(tile_res) + u / tu;
                    match self.tile_entry(pos, res, tile) {
                        Ok((tfdh, toff, tres)) => self.texel_from_block(
                            toff,
                            tfdh,
                            tres,
                            levelid,
                            u % tu,
                            v % tv,
                        ),
                        Err(e) => Err(e),
                    }
                } else {
                    self.texel_from_block(pos, fdh, res, levelid, u, v)
                }
            },
            Ok(FaceSource::Reduced) => match self.get_data_at_res(faceid, res) {
                Ok(img) => Ok(self.source.info().cut_texel(img.as_slice(), res, u, v)),
                Err(e) => Err(e),
            },
            Err(e) => Err(e),
        }
    }

    /// Read a single texel out of one non-tiled data block.
    fn texel_from_block(
        &self,
        pos: u64,
        fdh: FaceDataHeader,
        res: Res,
        levelid: usize,
        u: usize,
        v: usize,
    ) -> (r: Result<Vec<u8>, Error>)
        requires
            self.wf(),
            u < res.spec_u(),
            v < res.spec_v(),
        ensures
            view_bytes(r) == block_texel_of(
                self.file(),
                self.arith(),
                self.tables(),
                pos,
                fdh,
                res,
                levelid as int,
                u as int,
                v as int,
            ),
            r is Ok ==> r->Ok_0@.len() == self.tables().pixel_size,
            r is Err ==> is_handed_on(r->Err_0, self.failures()),
    {
        if fdh.encoding() == Encoding::Constant {
            return self.source.load_pixel(pos, fdh, levelid);
        }
        match self.load_image(pos, fdh, res, levelid) {
            Ok(img) => Ok(self.source.info().cut_texel(img.as_slice(), res, u, v)),
            Err(e) => Err(e),
        }
    }

    /// Read a single texel, as the bit patterns of its channel values.
    ///
    /// `first_chan` selects the first channel to return and `nchannels`
    /// how many; the result is clipped to the channels available.
    ///
    /// For a tiled face only the tile containing the texel is read.
    pub fn get_pixel(
        &mut self,
        faceid: usize,
        u: usize,
        v: usize,
        first_chan: usize,
        nchannels: usize,
    ) -> (r: Result<Vec<u32>, Error>)
        requires
            old(self).wf(),
        ensures
            final(self).wf(),
            final(self).same_file(old(self)),
            final(self).kept_dirs() == dirs_after(
                old(self).kept_dirs(),
                match old(self).tables().face(faceid as int) {
                    Ok(face) => if clipped_channels(
                        old(self).tables(),
                        first_chan as nat,
                        nchannels as nat,
                    ) > 0 && u < face.res.spec_u() && v < face.res.spec_v() {
                        texel_dir(
                            old(self).file(),
                            old(self).tables(),
                            faceid as int,
                            face.res,
                        )
                    } else {
                        None
                    },
                    Err(_) => None,
                },
                old(self).dir_capacity(),
            ),
            match r {
                Ok(values) => pixel_of(
                    old(self).file(),
                    old(self).arith(),
                    old(self).tables(),
                    faceid as int,
                    u as int,
                    v as int,
                    first_chan as nat,
                    nchannels as nat,
                ) == Ok::<Seq<u32>, ErrorView>(values@),
                Err(e) => pixel_of(
                    old(self).file(),
                    old(self).arith(),
                    old(self).tables(),
                    faceid as int,
                    u as int,
                    v as int,
                    first_chan as nat,
                    nchannels as nat,
                ) == Err::<Seq<u32>, ErrorView>(e@),
            },
            r is Err ==> is_handed_on(r->Err_0, old(self).failures()),
    {
        let n: usize = self.source.info().clip_channels(first_chan, nchannels);
        if n == 0 {
            let none: Vec<u32> = Vec::new();
            assert(none@ =~= Seq::empty());
            return Ok(none);
        }
        let res: Res = match self.source.info().face_info(faceid) {
            Ok(face) => face.res,
            Err(e) => {
                return Err(e);
            },
        };
        match self.read_texel(faceid, res, u, v) {
            Ok(pixel) => Ok(self.source.info().channel_values(pixel.as_slice(), first_chan, n)),
            Err(e) => Err(e),
        }
    }

    // ---- tile directories ----

    /// Maximum number of tile directories kept in memory (16 by default).
    pub fn tile_cache_capacity(&self) -> (n: usize)
        ensures
            n == self.dir_capacity(),
    {
        self.tile_cache_cap
    }

    /// Set the maximum number of tile directories kept in memory.
    ///
    /// A tile directory is the index of one tiled face at one resolution
    /// (four bytes plus an offset per tile); caching it keeps repeated
    /// [`PtexReader::get_tile`] calls on the same face from re-reading and
    /// re-inflating it.  Values below one are clamped to one.
    pub fn set_tile_cache_capacity(&mut self, capacity: usize)
        requires
            old(self).wf(),
        ensures
            final(self).wf(),
            final(self).file() == old(self).file(),
            final(self).failures() == old(self).failures(),
            final(self).arith() == old(self).arith(),
            final(self).tables() == old(self).tables(),
            final(self).dir_capacity() == if capacity < 1 {
                1nat
            } else {
                capacity as nat
            },
            final(self).kept_dirs() == if old(self).kept_dirs().len()
                > final(self).dir_capacity() {
                old(self).kept_dirs().take(final(self).dir_capacity() as int)
            } else {
                old(self).kept_dirs()
            },
    {
        let ghost cache = self.tile_cache@;
        self.tile_cache_cap = if capacity < 1 {
            1
        } else {
            capacity
        };
        self.tile_cache.truncate(self.tile_cache_cap);
        proof {
            assert forall|k: int| 0 <= k < self.tile_cache@.len() implies dir_of(
                self.file(),
                (#[trigger] self.tile_cache@[k]).0,
                self.tile_cache@[k].1,
            ) == Ok::<DirView, ErrorView>(self.tile_cache@[k].2@) by {
                assert(self.tile_cache@[k] == cache[k]);
            }
            assert(self.kept_dirs() =~= if old(self).kept_dirs().len() > self.dir_capacity() {
                old(self).kept_dirs().take(self.dir_capacity() as int)
            } else {
                old(self).kept_dirs()
            });
        }
    }

    // ---- meta data ----

    /// Access the file's meta data (loaded and cached on first access).
    pub fn metadata(&mut self) -> (r: Result<&MetaData, Error>)
        requires
            old(self).wf(),
        ensures
            final(self).wf(),
            final(self).same_file(old(self)),
            final(self).kept_dirs() == old(self).kept_dirs(),
            match r {
                Ok(md) => metadata_of(old(self).file(), old(self).tables()) == Ok::<
                    Seq<EntryView>,
                    ErrorView,
                >(md@),
                Err(e) => metadata_of(old(self).file(), old(self).tables()) == Err::<
                    Seq<EntryView>,
                    ErrorView,
                >(e@),
            },
            r is Err ==> is_handed_on(r->Err_0, old(self).failures()),
    {
        if self.metadata.is_none() {
            match self.source.load_metadata() {
                Ok(md) => {
                    self.metadata = Some(md);
                },
                Err(e) => {
                    return Err(e);
                },
            }
        }
        match &self.metadata {
            Some(md) => Ok(md),
            None => Err(corrupt("no meta data")),
        }
    }

    // ---- file information ----

    /// Tables of the file.
    pub fn info(&self) -> (info: &FileInfo)
        ensures
            info@ == self.tables(),
            self.wf() ==> info@.wf(),
    {
        self.source.info()
    }

    /// Type of the base mesh (quad or triangle).
    pub fn mesh_type(&self) -> (t: MeshType)
        ensures
            t == self.tables().mesh_type,
    {
        self.source.info().mesh_type
    }

    /// Type of the pixel data.
    pub fn data_type(&self) -> (t: DataType)
        ensures
            t == self.tables().data_type,
    {
        self.source.info().data_type
    }

    /// Index of the alpha channel, or -1 if the file has no alpha channel.
    pub fn alpha_channel(&self) -> (c: i32)
        ensures
            c == self.tables().header.alphachan,
    {
        self.source.info().header.alphachan
    }

    /// Number of channels per pixel.
    pub fn num_channels(&self) -> (n: usize)
        ensures
            n == self.tables().nchannels(),
    {
        self.source.info().num_channels()
    }

    /// Number of faces in the file.
    pub fn num_faces(&self) -> (n: usize)
        ensures
            n == self.tables().header.nfaces,
    {
        self.source.info().num_faces()
    }

    /// True if the file has an alpha channel.
    pub fn has_alpha(&self) -> (b: bool)
        ensures
            b == self.tables().header.spec_has_alpha(),
    {
        self.source.info().header.has_alpha()
    }

    /// True if the file stores precomputed mipmap (reduction) levels.
    pub fn has_mip_maps(&self) -> (b: bool)
        ensures
            b == (self.tables().header.nlevels > 1),
    {
        self.source.info().num_levels() > 1
    }

    /// True if the file carries edit records, which are not applied: the
    /// file reads back in its pre-edit state.
    pub fn has_edits(&self) -> (b: bool)
        ensures
            b == self.tables().spec_has_edits(),
    {
        self.source.info().has_edits()
    }

    /// Number of stored resolution levels (level 0 is full resolution).
    pub fn num_levels(&self) -> (n: usize)
        ensures
            n == self.tables().header.nlevels,
    {
        self.source.info().num_levels()
    }

    /// Size of a single pixel, in bytes.
    pub fn pixel_size(&self) -> (n: usize)
        ensures
            n == self.tables().pixel_size,
    {
        self.source.info().pixel_size
    }

    /// Minor version of the file format the file was written with.
    pub fn minor_version(&self) -> (n: u32)
        ensures
            n == self.tables().header.minorversion,
    {
        self.source.info().header.minorversion
    }

    /// Border mode in the u direction.
    pub fn u_border_mode(&self) -> (m: BorderMode)
        ensures
            m == BorderMode::spec_from_u16(self.tables().ext_header.ubordermode),
    {
        self.source.info().u_border_mode()
    }

    /// Border mode in the v direction.
    pub fn v_border_mode(&self) -> (m: BorderMode)
        ensures
            m == BorderMode::spec_from_u16(self.tables().ext_header.vbordermode),
    {
        self.source.info().v_border_mode()
    }

    /// Edge filter mode.
    pub fn edge_filter_mode(&self) -> (m: EdgeFilterMode)
        ensures
            m == EdgeFilterMode::spec_from_u16(self.tables().ext_header.edgefiltermode),
    {
        self.source.info().edge_filter_mode()
    }

    /// Access resolution and adjacency information for a face.
    pub fn face_info(&self, faceid: usize) -> (r: Result<&FaceInfo, Error>)
        requires
            self.wf(),
        ensures
            match r {
                Ok(f) => self.tables().face(faceid as int) == Ok::<FaceInfo, ErrorView>(*f),
                Err(e) => self.tables().face(faceid as int) == Err::<FaceInfo, ErrorView>(e@),
            },
    {
        self.source.info().face_info(faceid)
    }

    /// All per-face info records.
    pub fn face_infos(&self) -> (faces: &[FaceInfo])
        ensures
            faces@ == self.tables().faces,
    {
        self.source.info().face_info.as_slice()
    }

    /// Access the constant (average) pixel value of a face as raw data.
    pub fn constant_data(&self, faceid: usize) -> (r: Result<&[u8], Error>)
        requires
            self.wf(),
        ensures
            match r {
                Ok(p) => faceid < self.tables().faces.len() && p@ == self.tables().constant_pixel(
                    faceid as int,
                ) && p@.len() == self.tables().pixel_size,
                Err(e) => faceid >= self.tables().faces.len() && e@ == self.tables().no_face(
                    faceid as int,
                ),
            },
    {
        self.source.info().constant_data(faceid)
    }

    // ---- mipmap level helpers (no I/O) ----

    /// Number of mipmap levels a face has, counting level 0 (the full
    /// resolution).
    ///
    /// Each level halves both dimensions, so the last level reduces the
    /// smaller dimension to a single texel.
    pub fn face_num_levels(&self, faceid: usize) -> (r: Result<usize, Error>)
        requires
            self.wf(),
        ensures
            match r {
                Ok(n) => self.tables().num_levels_of(faceid as int) == Ok::<nat, ErrorView>(
                    n as nat,
                ),
                Err(e) => self.tables().num_levels_of(faceid as int) == Err::<nat, ErrorView>(e@),
            },
    {
        self.source.info().face_num_levels(faceid)
    }

    /// Resolution of a face reduced by `level` mipmap levels.
    ///
    /// Level 0 is the full resolution.  Returns [`Error::Unsupported`] if
    /// `level` would reduce the face below one texel; see
    /// [`PtexReader::face_num_levels`].
    pub fn res_for_level(&self, faceid: usize, level: usize) -> (r: Result<Res, Error>)
        requires
            self.wf(),
        ensures
            view_result(r) == self.tables().level_res(faceid as int, level as int),
    {
        self.source.info().face_level_res(faceid, level)
    }

    /// True if a resolution is stored in the file for this face, so that it
    /// can be read (and streamed tile by tile) directly, rather than
    /// computed by reducing a larger resolution.
    ///
    /// Performs no I/O.
    pub fn is_res_stored(&self, faceid: usize, res: Res) -> (r: Result<bool, Error>)
        requires
            self.wf(),
        ensures
            view_result(r) == self.tables().is_stored(faceid as int, res),
    {
        self.source.info().is_res_stored(faceid, res)
    }

    /// Number of leading mipmap levels of a face that are stored in the
    /// file, counting level 0.
    ///
    /// Levels `0..n` all satisfy [`PtexReader::is_res_stored`]; the count
    /// stops at the first level that is not stored.
    pub fn num_stored_levels(&self, faceid: usize) -> (r: Result<usize, Error>)
        requires
            self.wf(),
        ensures
            match r {
                Ok(n) => self.tables().stored_prefix(faceid as int, n as nat),
                Err(e) => self.tables().num_levels_of(faceid as int) == Err::<nat, ErrorView>(e@),
            },
    {
        self.source.info().num_stored_levels(faceid)
    }
}

/// `n << log2`, with the bits beyond a word lost.
fn shift_left(n: usize, log2: i8) -> (r: usize)
    requires
        0 <= log2 || n == 0,
    ensures
        r == shifted(n as int, log2),
{
    if n == 0 {
        assert(0 * vstd::arithmetic::power2::pow2(log2 as nat) == 0);
        return 0;
    }
    if log2 as u32 >= usize::BITS {
        return 0;
    }
    let p: usize = crate::types::pow2_usize(log2 as usize);
    assert(0 <= n * p <= 0xffff_ffff_ffff_ffff * 0xffff_ffff_ffff_ffff) by (nonlinear_arith)
        requires
            0 <= n <= 0xffff_ffff_ffff_ffff,
            0 <= p <= 0xffff_ffff_ffff_ffff,
    ;
    (n as u128 * p as u128 % (usize::MAX as u128 + 1)) as usize
}

/// Origin of a tile in face texel coordinates.
pub(crate) fn origin_of_tile(layout: &TileLayout, tile: usize) -> (r: (usize, usize))
    requires
        tile < layout.spec_ntiles(),
        layout.is_tiled ==> 0 <= layout.tile_res.ulog2 && 0 <= layout.tile_res.vlog2,
        !layout.is_tiled ==> layout.ntilesu == 1 && layout.ntilesv == 1,
    ensures
        r == tile_origin_of(*layout, tile as int),
{
    let (tu, tv) = layout.tile_coords(tile);
    (shift_left(tu, layout.tile_res.ulog2), shift_left(tv, layout.tile_res.vlog2))
}

/// A request to write an image into a buffer that held `before`: what is
/// returned, and what the buffer holds afterwards.
///
/// A buffer that is too small is refused and left alone.  An image that cannot
/// be read leaves the bytes outside its rows alone.
pub open spec fn image_written(
    ps: nat,
    res: Res,
    img: Result<Seq<u8>, ErrorView>,
    before: Seq<u8>,
    stride: nat,
    returned: Result<(), ErrorView>,
    after: Seq<u8>,
) -> bool {
    let rowlen = (res.spec_u() * ps) as int;
    let rows = res.spec_v() as int;
    match spec_check_buffer(res, ps, before.len(), stride) {
        Err(e) => returned == Err::<(), ErrorView>(e) && after == before,
        Ok(s) => match img {
            Ok(img) => returned == Ok::<(), ErrorView>(()) && after == place(
                before,
                img,
                s as int,
                rowlen,
                rows,
            ),
            Err(e) => returned == Err::<(), ErrorView>(e) && same_outside(
                before,
                after,
                s as int,
                rowlen,
                rows,
            ),
        },
    }
}

} // verus!
