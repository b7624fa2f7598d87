//! Stateless decoding of Ptex data blocks.
//!
//! Every function here turns raw bytes read from the file into pixels or
//! index structures.  Nothing performs I/O and nothing borrows a reader, so
//! the single-threaded and shared readers share one implementation, and the
//! shared reader can decompress outside its locks.

use crate::error::{corrupt, unsupported, view_result, Error, ErrorView};
use crate::file_info::{FileInfo, InfoView, ReduceKind};
use crate::format::{
    spec_u32_at, spec_u64_at, u32_at, u64_at, Encoding, FaceDataHeader, FACE_DATA_HEADER_SIZE,
};
use crate::open::bad_offset;
use crate::paint::{lemma_put_all_len, put_all, put_rows, row_writes};
use crate::stream::view_bytes;
use crate::texel::{arith, is_arith, Arith, PixelOp};
use crate::types::{signed8, wrap_i8, Res};
use crate::reduce::{reduce_with, reduced_rows, Kernel};
use crate::utils::{
    decode_difference, differences_decoded, interleave, interleave_writes, lemma_scaled,
    multalpha, premultiplied,
};
use crate::zlib::{spec_unzip, unzip};
use vstd::prelude::*;

verus! {

/// Index of one reduction level: one face data header and absolute file
/// offset per face stored in the level.
#[derive(Debug)]
pub struct Level {
    pub fdh: Vec<FaceDataHeader>,
    pub offsets: Vec<u64>,
}

/// A [`Level`] with its tables as sequences.
pub struct LevelView {
    pub fdh: Seq<FaceDataHeader>,
    pub offsets: Seq<u64>,
}

impl View for Level {
    type V = LevelView;

    open spec fn view(&self) -> LevelView {
        LevelView { fdh: self.fdh@, offsets: self.offsets@ }
    }
}

/// Inflated tile directory of one tiled face data block.
#[derive(Debug)]
pub struct TileDir {
    pub tile_res: Res,
    pub fdh: Vec<FaceDataHeader>,
    pub offsets: Vec<u64>,
}

/// A [`TileDir`] with its tables as sequences.
pub struct DirView {
    pub tile_res: Res,
    pub fdh: Seq<FaceDataHeader>,
    pub offsets: Seq<u64>,
}

impl View for TileDir {
    type V = DirView;

    open spec fn view(&self) -> DirView {
        DirView { tile_res: self.tile_res, fdh: self.fdh@, offsets: self.offsets@ }
    }
}

/// The face data headers that a decompressed table holds.
pub open spec fn face_data_headers(buf: Seq<u8>) -> Seq<FaceDataHeader> {
    Seq::new(
        buf.len() / FACE_DATA_HEADER_SIZE as nat,
        |i: int| FaceDataHeader { data: spec_u32_at(buf, FACE_DATA_HEADER_SIZE * i) },
    )
}

/// Parse the face data headers of a level from its inflated level header.
pub fn parse_face_data_headers(buf: &[u8]) -> (fdh: Vec<FaceDataHeader>)
    ensures
        fdh@ == face_data_headers(buf@),
{
    let n: usize = buf.len() / FACE_DATA_HEADER_SIZE;
    let mut fdh: Vec<FaceDataHeader> = Vec::with_capacity(n);
    let mut i: usize = 0;
    while i < n
        invariant
            i <= n,
            n == buf@.len() / 4,
            buf@.len() <= usize::MAX,
            fdh@ =~= face_data_headers(buf@).take(i as int),
        decreases n - i,
    {
        fdh.push(FaceDataHeader { data: u32_at(buf, FACE_DATA_HEADER_SIZE * i) });
        i = i + 1;
    }
    assert(face_data_headers(buf@).take(n as int) =~= face_data_headers(buf@));
    fdh
}

/// Positions, in increasing order, of the large ones among the first `n`
/// faces.
pub open spec fn large_positions(fdh: Seq<FaceDataHeader>, n: nat) -> Seq<usize>
    decreases n,
{
    if n == 0 {
        Seq::empty()
    } else if fdh[n - 1].spec_is_large_face() {
        large_positions(fdh, (n - 1) as nat).push((n - 1) as usize)
    } else {
        large_positions(fdh, (n - 1) as nat)
    }
}

/// Number of large ones among the first `n` faces.
pub open spec fn num_large(fdh: Seq<FaceDataHeader>, n: nat) -> nat {
    large_positions(fdh, n).len()
}

pub proof fn lemma_num_large(fdh: Seq<FaceDataHeader>, n: nat, m: nat)
    requires
        n <= m,
    ensures
        num_large(fdh, n) <= num_large(fdh, m) <= num_large(fdh, n) + (m - n),
    decreases m,
{
    if n < m {
        lemma_num_large(fdh, n, (m - 1) as nat);
    }
}

/// Positions of the faces in a level that are flagged "large" and therefore
/// carry a 64-bit size in an extra table after the level header.
pub fn large_face_positions(fdh: &[FaceDataHeader]) -> (r: Vec<usize>)
    ensures
        r@ == large_positions(fdh@, fdh@.len()),
        r@.len() <= fdh@.len(),
{
    let n: usize = fdh.len();
    let mut r: Vec<usize> = Vec::new();
    let mut i: usize = 0;
    while i < n
        invariant
            i <= n,
            n == fdh@.len(),
            r@ == large_positions(fdh@, i as nat),
        decreases n - i,
    {
        if fdh[i].is_large_face() {
            r.push(i);
        }
        i = i + 1;
    }
    proof {
        lemma_num_large(fdh@, 0, fdh@.len());
    }
    r
}

/// Size of the data of a face in a level: that in its header, or for a large
/// face that in the table of large sizes.
pub open spec fn face_size(fdh: Seq<FaceDataHeader>, large_table: Seq<u8>, f: int) -> nat {
    if fdh[f].spec_is_large_face() {
        spec_u64_at(large_table, 8 * num_large(fdh, f as nat) as int) as nat
    } else {
        fdh[f].spec_blocksize() as nat
    }
}

/// Offset of a face in a level: behind the table of large sizes, which starts
/// at `base`, and behind the faces before it.
pub open spec fn face_offset(
    fdh: Seq<FaceDataHeader>,
    base: int,
    large_table: Seq<u8>,
    f: nat,
) -> int
    decreases f,
{
    if f == 0 {
        base + 8 * num_large(fdh, fdh.len())
    } else {
        face_offset(fdh, base, large_table, (f - 1) as nat) + face_size(
            fdh,
            large_table,
            f - 1,
        )
    }
}

/// Offsets of all faces of a level.
pub open spec fn face_offsets(
    fdh: Seq<FaceDataHeader>,
    base: int,
    large_table: Seq<u8>,
) -> Result<Seq<u64>, ErrorView> {
    if large_table.len() < 8 * num_large(fdh, fdh.len()) {
        Err(ErrorView::Corrupt("truncated large face table"@))
    } else if fdh.len() > 0 && face_offset(fdh, base, large_table, (fdh.len() - 1) as nat)
        > u64::MAX {
        Err(bad_offset())
    } else {
        Ok(Seq::new(fdh.len(), |f: int| face_offset(fdh, base, large_table, f as nat) as u64))
    }
}

/// Blocks of a level follow each other: a face ends where the next begins.
pub proof fn faces_are_consecutive(
    fdh: Seq<FaceDataHeader>,
    base: int,
    large_table: Seq<u8>,
    f: int,
)
    requires
        face_offsets(fdh, base, large_table) is Ok,
        0 <= f < fdh.len() - 1,
        base >= 0,
    ensures
        ({
            let offsets = face_offsets(fdh, base, large_table)->Ok_0;
            offsets[f + 1] == offsets[f] + face_size(fdh, large_table, f)
        }),
{
    lemma_face_offset_grows(fdh, base, large_table, f as nat, (fdh.len() - 1) as nat);
    lemma_face_offset_grows(fdh, base, large_table, (f + 1) as nat, (fdh.len() - 1) as nat);
    lemma_face_offset_grows(fdh, base, large_table, 0, f as nat);
}

/// The first face begins behind the table of large sizes.
pub proof fn lemma_first_offset(fdh: Seq<FaceDataHeader>, base: int, large_table: Seq<u8>)
    requires
        face_offsets(fdh, base, large_table) is Ok,
        fdh.len() > 0,
        base >= 0,
    ensures
        face_offsets(fdh, base, large_table)->Ok_0[0] == base + 8 * num_large(fdh, fdh.len()),
{
    lemma_face_offset_grows(fdh, base, large_table, 0, (fdh.len() - 1) as nat);
}

proof fn lemma_face_offset_grows(
    fdh: Seq<FaceDataHeader>,
    base: int,
    large_table: Seq<u8>,
    n: nat,
    m: nat,
)
    requires
        n <= m,
    ensures
        face_offset(fdh, base, large_table, n) <= face_offset(fdh, base, large_table, m),
    decreases m,
{
    if n < m {
        lemma_face_offset_grows(fdh, base, large_table, n, (m - 1) as nat);
    }
}

/// Compute the absolute file offset of every face in a level.
///
/// `base` is the offset just past the level header; `large_table` holds the
/// `8 * nlarge` bytes of 64-bit sizes that follow it (empty when no face is
/// flagged large).
pub fn level_offsets(fdh: &[FaceDataHeader], base: u64, large_table: &[u8]) -> (r: Result<
    Vec<u64>,
    Error,
>)
    ensures
        match r {
            Ok(v) => face_offsets(fdh@, base as int, large_table@) == Ok::<Seq<u64>, ErrorView>(
                v@,
            ),
            Err(e) => face_offsets(fdh@, base as int, large_table@) == Err::<Seq<u64>, ErrorView>(
                e@,
            ),
        },
{
    let nfaces: usize = fdh.len();
    let nlarge: usize = large_face_positions(fdh).len();
    if large_table.len() / 8 < nlarge {
        return Err(corrupt("truncated large face table"));
    }
    let mut offsets: Vec<u64> = Vec::with_capacity(nfaces);
    if nfaces == 0 {
        assert(offsets@ =~= Seq::new(
            fdh@.len(),
            |f: int| face_offset(fdh@, base as int, large_table@, f as nat) as u64,
        ));
        return Ok(offsets);
    }
    assert(large_table@.len() == large_table.len());
    let mut offset: u64 = match base.checked_add(8 * nlarge as u64) {
        Some(p) => p,
        None => {
            proof {
                lemma_face_offset_grows(
                    fdh@,
                    base as int,
                    large_table@,
                    0,
                    (nfaces - 1) as nat,
                );
            }
            return Err(corrupt("block offset out of range"));
        },
    };
    let mut seen: usize = 0;
    let mut f: usize = 0;
    while f < nfaces
        invariant
            f <= nfaces,
            nfaces == fdh@.len(),
            nfaces > 0,
            large_table@.len() <= usize::MAX,
            nlarge == num_large(fdh@, nfaces as nat),
            large_table@.len() >= 8 * nlarge,
            seen == num_large(fdh@, f as nat) || f == nfaces,
            offsets@.len() == f,
            f < nfaces ==> offset == face_offset(fdh@, base as int, large_table@, f as nat),
            f > 0 ==> face_offset(fdh@, base as int, large_table@, (f - 1) as nat) <= u64::MAX,
            forall|k: int|
                0 <= k < f ==> #[trigger] offsets@[k] == face_offset(
                    fdh@,
                    base as int,
                    large_table@,
                    k as nat,
                ),
        decreases nfaces - f,
    {
        offsets.push(offset);
        if f + 1 < nfaces {
            proof {
                lemma_num_large(fdh@, (f + 1) as nat, nfaces as nat);
            }
            let size: u64 = if fdh[f].is_large_face() {
                seen = seen + 1;
                u64_at(large_table, 8 * (seen - 1))
            } else {
                fdh[f].blocksize() as u64
            };
            assert(size == face_size(fdh@, large_table@, f as int));
            match offset.checked_add(size) {
                Some(p) => {
                    offset = p;
                },
                None => {
                    proof {
                        lemma_face_offset_grows(
                            fdh@,
                            base as int,
                            large_table@,
                            (f + 1) as nat,
                            (nfaces - 1) as nat,
                        );
                    }
                    return Err(corrupt("block offset out of range"));
                },
            }
        }
        f = f + 1;
    }
    assert(offsets@ =~= Seq::new(
        fdh@.len(),
        |f: int| face_offset(fdh@, base as int, large_table@, f as nat) as u64,
    ));
    Ok(offsets)
}

/// A tile resolution that divides a face resolution into tiles that can be
/// counted.
pub open spec fn tiles_fit(res: Res, tile_res: Res) -> bool {
    &&& 0 <= tile_res.ulog2
    &&& 0 <= tile_res.vlog2
    &&& res.divides_into(tile_res)
}

/// The tiles make up the texels of the face, no more and no less.
///
/// Only five bits of a log2 count towards a dimension, so a tile grid can also
/// be larger than its face.
pub open spec fn tiles_cover(res: Res, tile_res: Res) -> bool {
    &&& tiles_fit(res, tile_res)
    &&& res.spec_ntilesu(tile_res) * tile_res.spec_u() == res.spec_u()
    &&& res.spec_ntilesv(tile_res) * tile_res.spec_v() == res.spec_v()
}

/// Tile resolution and directory size in the header of a tiled block.
pub open spec fn tile_header(head: Seq<u8>, res: Res) -> Result<(Res, usize), ErrorView> {
    let tile_res = Res { ulog2: wrap_i8(head[0] as int), vlog2: wrap_i8(head[1] as int) };
    if tile_res.ulog2 < 0 || tile_res.vlog2 < 0 {
        Err(ErrorView::Corrupt("negative tile res"@))
    } else if tile_res.ulog2 > res.ulog2 || tile_res.vlog2 > res.vlog2 {
        Err(ErrorView::Corrupt("tile res larger than face res"@))
    } else {
        Ok((tile_res, spec_u32_at(head, 2) as usize))
    }
}

/// Parse the 6-byte tile block header into the tile resolution and the
/// compressed size of the tile directory that follows it.
pub fn parse_tile_header(head: &[u8], res: Res) -> (r: Result<(Res, usize), Error>)
    requires
        head@.len() >= 6,
    ensures
        view_result(r) == tile_header(head@, res),
        r is Ok ==> {
            let (tile_res, size) = r->Ok_0;
            &&& 0 <= tile_res.ulog2 <= res.ulog2
            &&& 0 <= tile_res.vlog2 <= res.vlog2
            &&& size <= u32::MAX
        },
{
    let tile_res = Res { ulog2: signed8(head[0]), vlog2: signed8(head[1]) };
    let tileheadersize: usize = u32_at(head, 2) as usize;
    if tile_res.ulog2 < 0 || tile_res.vlog2 < 0 {
        return Err(corrupt("negative tile res"));
    }
    if tile_res.ulog2 > res.ulog2 || tile_res.vlog2 > res.vlog2 {
        return Err(corrupt("tile res larger than face res"));
    }
    Ok((tile_res, tileheadersize))
}

/// Offset of a tile: behind the tiles before it, the first one at `base`.
pub open spec fn tile_offset(fdh: Seq<FaceDataHeader>, base: int, t: nat) -> int
    decreases t,
{
    if t == 0 {
        base
    } else {
        tile_offset(fdh, base, (t - 1) as nat) + fdh[t - 1].spec_blocksize()
    }
}

/// Why a tile cannot be placed, if it cannot: a directory has no 64-bit size
/// table for large tiles, and tiles are not tiled again.
pub open spec fn tile_fault(fdh: Seq<FaceDataHeader>, base: int, t: int) -> Option<ErrorView> {
    if tile_offset(fdh, base, t as nat) > u64::MAX {
        Some(bad_offset())
    } else if fdh[t].spec_is_large_face() {
        Some(ErrorView::Unsupported("large tile data blocks are not supported"@))
    } else if fdh[t].spec_encoding() is Tiled {
        Some(ErrorView::Corrupt("nested tiled face data"@))
    } else {
        None
    }
}

/// The first fault among the first `n` tiles.
pub open spec fn first_tile_fault(
    fdh: Seq<FaceDataHeader>,
    base: int,
    n: nat,
) -> Option<ErrorView>
    decreases n,
{
    if n == 0 {
        None
    } else {
        match first_tile_fault(fdh, base, (n - 1) as nat) {
            Some(e) => Some(e),
            None => tile_fault(fdh, base, n - 1),
        }
    }
}

/// The tile directory that an inflated tile header block holds.
pub open spec fn tile_dir_of(dir: Seq<u8>, tile_res: Res, res: Res, base: int) -> Result<
    DirView,
    ErrorView,
> {
    let fdh = face_data_headers(dir);
    if fdh.len() != res.spec_ntiles(tile_res) {
        Err(ErrorView::Corrupt("tile directory size mismatch"@))
    } else {
        match first_tile_fault(fdh, base, fdh.len()) {
            Some(e) => Err(e),
            None => Ok(
                DirView {
                    tile_res,
                    fdh,
                    offsets: Seq::new(
                        fdh.len(),
                        |t: int| tile_offset(fdh, base, t as nat) as u64,
                    ),
                },
            ),
        }
    }
}

proof fn lemma_fault_stays(fdh: Seq<FaceDataHeader>, base: int, n: nat, m: nat)
    requires
        n <= m,
        first_tile_fault(fdh, base, n) is Some,
    ensures
        first_tile_fault(fdh, base, m) == first_tile_fault(fdh, base, n),
    decreases m,
{
    if n < m {
        lemma_fault_stays(fdh, base, n, (m - 1) as nat);
    }
}

proof fn lemma_no_fault(fdh: Seq<FaceDataHeader>, base: int, n: nat, t: int)
    requires
        first_tile_fault(fdh, base, n) is None,
        0 <= t < n,
    ensures
        tile_fault(fdh, base, t) is None,
    decreases n,
{
    if t < n - 1 {
        lemma_no_fault(fdh, base, (n - 1) as nat, t);
    }
}

/// A tile of a directory is neither marked large nor tiled, and the first one
/// is at the base.
pub proof fn lemma_tile_is_sound(dir: Seq<u8>, tile_res: Res, res: Res, base: int, t: int)
    requires
        tile_dir_of(dir, tile_res, res, base) is Ok,
        0 <= base,
        0 <= t < face_data_headers(dir).len(),
    ensures
        ({
            let d = tile_dir_of(dir, tile_res, res, base)->Ok_0;
            &&& !d.fdh[t].spec_is_large_face()
            &&& !(d.fdh[t].spec_encoding() is Tiled)
            &&& d.offsets[0] == base
        }),
{
    let fdh = face_data_headers(dir);
    lemma_no_fault(fdh, base, fdh.len(), t);
    lemma_no_fault(fdh, base, fdh.len(), 0);
}

/// Tiles follow each other: one ends where the next begins.
pub proof fn tiles_are_consecutive(dir: Seq<u8>, tile_res: Res, res: Res, base: int, t: int)
    requires
        tile_dir_of(dir, tile_res, res, base) is Ok,
        0 <= base,
        0 <= t < face_data_headers(dir).len() - 1,
    ensures
        ({
            let d = tile_dir_of(dir, tile_res, res, base)->Ok_0;
            d.offsets[t + 1] == d.offsets[t] + d.fdh[t].spec_blocksize()
        }),
{
    let fdh = face_data_headers(dir);
    lemma_no_fault(fdh, base, fdh.len(), t);
    lemma_no_fault(fdh, base, fdh.len(), t + 1);
    lemma_tile_offset_min(fdh, base, t as nat);
}

proof fn lemma_tile_offset_min(fdh: Seq<FaceDataHeader>, base: int, t: nat)
    ensures
        base <= tile_offset(fdh, base, t),
    decreases t,
{
    if t > 0 {
        lemma_tile_offset_min(fdh, base, (t - 1) as nat);
    }
}

/// Build a tile directory from the inflated tile header block.
///
/// `base` is the absolute file offset of the first tile's data, i.e. the
/// offset of the tiled block plus 6 plus the compressed directory size.
pub fn parse_tile_dir(dir: &[u8], tile_res: Res, res: Res, base: u64) -> (r: Result<TileDir, Error>)
    requires
        tiles_fit(res, tile_res),
    ensures
        match r {
            Ok(d) => tile_dir_of(dir@, tile_res, res, base as int) == Ok::<DirView, ErrorView>(d@),
            Err(e) => tile_dir_of(dir@, tile_res, res, base as int) == Err::<DirView, ErrorView>(
                e@,
            ),
        },
        r is Err ==> !(r->Err_0 is Io),
{
    let ntiles: usize = res.ntiles(tile_res);
    let fdh = parse_face_data_headers(dir);
    if fdh.len() != ntiles {
        return Err(corrupt("tile directory size mismatch"));
    }
    let n: usize = fdh.len();
    let mut offsets: Vec<u64> = Vec::with_capacity(n);
    // none once a sum has left the range of file offsets
    let mut offset: Option<u64> = Some(base);
    let mut t: usize = 0;
    while t < n
        invariant
            t <= n,
            n == fdh@.len(),
            fdh@ == face_data_headers(dir@),
            n == res.spec_ntiles(tile_res),
            offsets@.len() == t,
            match offset {
                Some(o) => o == tile_offset(fdh@, base as int, t as nat),
                None => tile_offset(fdh@, base as int, t as nat) > u64::MAX,
            },
            first_tile_fault(fdh@, base as int, t as nat) is None,
            forall|k: int|
                0 <= k < t ==> #[trigger] offsets@[k] == tile_offset(fdh@, base as int, k as nat),
        decreases n - t,
    {
        let o: u64 = match offset {
            Some(o) => o,
            None => {
                proof {
                    lemma_fault_stays(fdh@, base as int, (t + 1) as nat, n as nat);
                }
                return Err(corrupt("block offset out of range"));
            },
        };
        // A tile directory has no 64-bit size table, so a tile flagged
        // "large" would silently break the offset chain for every tile
        // after it.  Reject rather than mis-read.
        if fdh[t].is_large_face() {
            proof {
                lemma_fault_stays(fdh@, base as int, (t + 1) as nat, n as nat);
            }
            return Err(unsupported("large tile data blocks are not supported"));
        }
        if fdh[t].encoding() == Encoding::Tiled {
            proof {
                lemma_fault_stays(fdh@, base as int, (t + 1) as nat, n as nat);
            }
            return Err(corrupt("nested tiled face data"));
        }
        offsets.push(o);
        offset = o.checked_add(fdh[t].blocksize() as u64);
        t = t + 1;
    }
    assert(offsets@ =~= Seq::new(
        fdh@.len(),
        |t: int| tile_offset(fdh@, base as int, t as nat) as u64,
    ));
    Ok(TileDir { tile_res, fdh, offsets })
}

/// Number of bytes of a packed image.
pub open spec fn image_size(info: InfoView, res: Res) -> nat {
    res.spec_size() * info.pixel_size
}

/// Memory can hold an image: no allocation exceeds half of the address space.
pub open spec fn is_allocatable(info: InfoView, res: Res) -> bool {
    image_size(info, res) <= isize::MAX
}

/// A buffer of zeros.
pub open spec fn zeros(n: nat) -> Seq<u8> {
    Seq::new(n, |i: int| 0u8)
}

/// Pixels as they are handed out: with the color channels multiplied by alpha
/// if that was asked for, at level 0 alone, since reduction levels are
/// premultiplied already.
pub open spec fn finished(
    m: Arith,
    info: InfoView,
    pixels: Seq<u8>,
    npixels: nat,
    levelid: int,
) -> Seq<u8> {
    if levelid == 0 && info.premultiply && info.header.spec_has_alpha() {
        premultiplied(
            m,
            pixels,
            npixels as int,
            info.data_type,
            info.nchannels() as int,
            info.header.alphachan as int,
        )
    } else {
        pixels
    }
}

/// The pixel that a constant block holds.
pub open spec fn constant_pixel(m: Arith, info: InfoView, raw: Seq<u8>, levelid: int) -> Seq<u8> {
    finished(m, info, raw.take(info.pixel_size as int), 1, levelid)
}

/// Planar data as an image of interleaved pixels.
pub open spec fn interleaved(info: InfoView, planes: Seq<u8>, res: Res) -> Seq<u8> {
    put_all(
        zeros(image_size(info, res)),
        interleave_writes(
            planes,
            res.spec_u() as int,
            res.spec_v() as int,
            (res.spec_u() * info.pixel_size) as int,
            info.data_type.spec_size() as int,
            info.nchannels() as int,
        ),
    )
}

/// The image that a zipped or difference-zipped block holds.
pub open spec fn packed_image(
    m: Arith,
    info: InfoView,
    raw: Seq<u8>,
    res: Res,
    encoding: Encoding,
    levelid: int,
) -> Result<Seq<u8>, ErrorView> {
    match spec_unzip(raw, image_size(info, res)) {
        Ok(tmp) => {
            let planes = if encoding is DiffZipped {
                differences_decoded(tmp, info.data_type)
            } else {
                tmp
            };
            Ok(finished(m, info, interleaved(info, planes, res), res.spec_size(), levelid))
        },
        Err(e) => Err(e),
    }
}

/// Every decoded image has the size of its resolution.
pub proof fn lemma_packed_image_len(
    m: Arith,
    info: InfoView,
    raw: Seq<u8>,
    res: Res,
    encoding: Encoding,
    levelid: int,
)
    ensures
        packed_image(m, info, raw, res, encoding, levelid) is Ok ==> packed_image(
            m,
            info,
            raw,
            res,
            encoding,
            levelid,
        )->Ok_0.len() == image_size(info, res),
{
    if spec_unzip(raw, image_size(info, res)) is Ok {
        let tmp = spec_unzip(raw, image_size(info, res))->Ok_0;
        let planes = if encoding is DiffZipped {
            differences_decoded(tmp, info.data_type)
        } else {
            tmp
        };
        lemma_put_all_len(
            zeros(image_size(info, res)),
            interleave_writes(
                planes,
                res.spec_u() as int,
                res.spec_v() as int,
                (res.spec_u() * info.pixel_size) as int,
                info.data_type.spec_size() as int,
                info.nchannels() as int,
            ),
        );
    }
}

/// Rows of an image, or parts of them, lie inside it.
pub proof fn lemma_rows_in_image(w: int, h: int, ps: int, rows: int, cols: int)
    requires
        0 <= cols <= w,
        0 < rows <= h,
        0 <= ps,
    ensures
        (rows - 1) * (w * ps) + cols * ps <= w * h * ps,
        0 <= w * ps,
        0 <= cols * ps <= w * ps,
        w * ps <= w * h * ps,
{
    assert(0 <= cols * ps <= w * ps) by (nonlinear_arith)
        requires
            0 <= cols <= w,
            0 <= ps,
    ;
    assert((rows - 1) * (w * ps) + w * ps == rows * (w * ps)) by (nonlinear_arith);
    lemma_scaled(rows, h, w * ps);
    assert(h * (w * ps) == w * h * ps) by (nonlinear_arith);
    lemma_scaled(1, h, w * ps);
}

/// Decode a constant block: a single pixel value.
///
/// Alpha premultiplication is applied only at level 0 (reduction levels are
/// premultiplied already).
pub fn decode_constant<M: Fn(PixelOp) -> u32>(
    raw: &[u8],
    info: &FileInfo,
    levelid: usize,
    math: &M,
) -> (pixel: Vec<u8>)
    requires
        info@.wf(),
        is_arith(*math),
        raw@.len() >= info@.pixel_size,
    ensures
        pixel@ == constant_pixel(arith(*math), info@, raw@, levelid as int),
        pixel@.len() == info@.pixel_size,
{
    let mut pixel: Vec<u8> = vstd::slice::slice_to_vec(
        vstd::slice::slice_subrange(raw, 0, info.pixel_size),
    );
    assert(pixel@ =~= raw@.take(info.pixel_size as int));
    finish(&mut pixel, 1, info, levelid, math);
    pixel
}

/// Multiply colors by alpha where that is due.
fn finish<M: Fn(PixelOp) -> u32>(
    pixels: &mut Vec<u8>,
    npixels: usize,
    info: &FileInfo,
    levelid: usize,
    math: &M,
)
    requires
        info@.wf(),
        is_arith(*math),
    ensures
        final(pixels)@ == finished(
            arith(*math),
            info@,
            old(pixels)@,
            npixels as nat,
            levelid as int,
        ),
        final(pixels)@.len() == old(pixels)@.len(),
{
    if levelid == 0 && info.premultiply && info.header.has_alpha() {
        multalpha(
            pixels.as_mut_slice(),
            npixels,
            info.data_type,
            info.num_channels(),
            info.header.alphachan as usize,
            math,
        );
    }
}

/// Decode a zipped or difference-zipped block into interleaved pixels.
pub fn decode_packed<M: Fn(PixelOp) -> u32>(
    raw: &[u8],
    res: Res,
    encoding: Encoding,
    info: &FileInfo,
    levelid: usize,
    math: &M,
) -> (r: Result<Vec<u8>, Error>)
    requires
        info@.wf(),
        is_arith(*math),
        is_allocatable(info@, res),
    ensures
        view_bytes(r) == packed_image(arith(*math), info@, raw@, res, encoding, levelid as int),
        r is Ok ==> r->Ok_0@.len() == image_size(info@, res),
{
    let uw: usize = res.u();
    let vw: usize = res.v();
    let ps: usize = info.pixel_size;
    let ghost es = info@.data_type.spec_size();
    let ghost nchan = info@.nchannels();
    proof {
        lemma_rows_in_image(uw as int, vw as int, ps as int, vw as int, uw as int);
        assert(uw * nchan * es == uw * ps) by (nonlinear_arith)
            requires
                ps == es * nchan,
        ;
        assert(nchan * vw * uw * es == uw * vw * ps) by (nonlinear_arith)
            requires
                ps == es * nchan,
        ;
    }
    assert(ps > 0 ==> uw * vw <= uw * vw * ps) by (nonlinear_arith)
        requires
            uw > 0,
            vw > 0,
    ;
    // without channels there are no bytes, and the count does not matter
    let npixels: usize = if ps == 0 {
        0
    } else {
        uw * vw
    };
    assert(npixels * ps == uw * vw * ps) by (nonlinear_arith)
        requires
            ps > 0 ==> npixels == uw * vw,
    ;
    let unpacked_size: usize = npixels * ps;
    let mut tmp = match unzip(raw, unpacked_size as u64) {
        Ok(v) => v,
        Err(e) => {
            return Err(e);
        },
    };
    if encoding == Encoding::DiffZipped {
        decode_difference(tmp.as_mut_slice(), info.data_type);
    }
    let mut data: Vec<u8> = vec![0u8; unpacked_size];
    assert(data@ =~= zeros(image_size(info@, res)));
    interleave(
        tmp.as_slice(),
        uw,
        vw,
        data.as_mut_slice(),
        uw * ps,
        info.data_type,
        info.num_channels(),
    );
    finish(&mut data, npixels, info, levelid, math);
    proof {
        lemma_packed_image_len(arith(*math), info@, raw@, res, encoding, levelid as int);
    }
    Ok(data)
}

impl ReduceKind {
    /// The kernel that does this reduction.
    pub open spec fn spec_kernel(self) -> Kernel {
        match self {
            ReduceKind::U => Kernel::U,
            ReduceKind::V => Kernel::V,
            ReduceKind::Tri => Kernel::Tri,
        }
    }

    /// `dst` is `src` reduced once this way.
    pub open spec fn halves(self, src: Res, dst: Res) -> bool {
        match self {
            ReduceKind::U => src.ulog2 == dst.ulog2 + 1 && src.vlog2 == dst.vlog2,
            ReduceKind::V => src.ulog2 == dst.ulog2 && src.vlog2 == dst.vlog2 + 1,
            ReduceKind::Tri => src.ulog2 == dst.ulog2 + 1 && src.vlog2 == dst.vlog2 + 1,
        }
    }

    fn kernel(self) -> (k: Kernel)
        ensures
            k == self.spec_kernel(),
    {
        match self {
            ReduceKind::U => Kernel::U,
            ReduceKind::V => Kernel::V,
            ReduceKind::Tri => Kernel::Tri,
        }
    }
}

/// The image of resolution `dst_res` that one reduction makes of `src`.
pub open spec fn reduced_image(
    m: Arith,
    info: InfoView,
    src: Seq<u8>,
    src_res: Res,
    dst_res: Res,
    kind: ReduceKind,
) -> Seq<u8> {
    put_rows(
        zeros(image_size(info, dst_res)),
        (dst_res.spec_u() * info.pixel_size) as int,
        reduced_rows(
            kind.spec_kernel(),
            m,
            src,
            (src_res.spec_u() * info.pixel_size) as int,
            src_res.spec_u() as int,
            src_res.spec_v() as int,
            info.data_type,
            info.nchannels() as int,
        ),
    )
}

/// Half of a dimension is at most the dimension of the next smaller log2.
proof fn lemma_half_dim(log2: i8)
    requires
        log2 < 127,
    ensures
        crate::types::dim((log2 + 1) as i8) / 2 <= crate::types::dim(log2),
        crate::types::dim(log2) > 0,
{
    let a = (log2 as int % 32) as nat;
    vstd::arithmetic::power2::lemma_pow2_pos(a);
    if a < 31 {
        assert((log2 + 1) % 32 == a + 1);
        vstd::arithmetic::power2::lemma_pow2_unfold(a + 1);
    } else {
        assert((log2 + 1) % 32 == 0);
        vstd::arithmetic::power2::lemma2_to64();
    }
}

/// Apply one reduction step, producing `dst_res` from packed `src_res` data.
///
/// Triangle reductions read as many rows as columns.
pub fn reduce_step<M: Fn(PixelOp) -> u32>(
    src: &[u8],
    src_res: Res,
    dst_res: Res,
    kind: ReduceKind,
    info: &FileInfo,
    math: &M,
) -> (data: Vec<u8>)
    requires
        info@.wf(),
        is_arith(*math),
        kind.halves(src_res, dst_res),
        kind is Tri ==> src_res.spec_u() <= src_res.spec_v(),
        src@.len() == image_size(info@, src_res),
        is_allocatable(info@, dst_res),
    ensures
        data@ == reduced_image(arith(*math), info@, src@, src_res, dst_res, kind),
        data@.len() == image_size(info@, dst_res),
{
    let ps: usize = info.pixel_size;
    let su: usize = src_res.u();
    let sv: usize = src_res.v();
    let du: usize = dst_res.u();
    let dv: usize = dst_res.v();
    let kernel = kind.kernel();
    let ghost es = info@.data_type.spec_size();
    let ghost nchan = info@.nchannels();
    assert(src@.len() == src.len());
    proof {
        lemma_rows_in_image(su as int, sv as int, ps as int, sv as int, su as int);
        lemma_rows_in_image(du as int, dv as int, ps as int, dv as int, du as int);
        if !(kind is V) {
            lemma_half_dim(dst_res.ulog2);
        }
        if !(kind is U) {
            lemma_half_dim(dst_res.vlog2);
        }
        let rows = kernel.rows(su as int, sv as int);
        let cols = kernel.cols(su as int);
        let srows = kernel.src_rows(su as int, sv as int);
        let scols = kernel.src_cols(su as int);
        if rows > 0 {
            assert(0 < rows <= dv);
            assert(0 <= cols <= du);
            assert(0 < srows <= sv);
            assert(0 <= scols <= su);
            lemma_rows_in_image(su as int, sv as int, ps as int, srows, scols);
            lemma_rows_in_image(du as int, dv as int, ps as int, rows, cols);
            assert(scols * nchan * es == scols * ps) by (nonlinear_arith)
                requires
                    ps == es * nchan,
            ;
            assert(cols * nchan * es == cols * ps) by (nonlinear_arith)
                requires
                    ps == es * nchan,
            ;
        }
        assert(kernel.fits(
            src@.len(),
            su * ps,
            su as int,
            sv as int,
            image_size(info@, dst_res),
            du * ps,
            info@.data_type,
            nchan as int,
        ));
    }
    let size: usize = packed_size(dst_res, ps);
    let mut data: Vec<u8> = vec![0u8; size];
    assert(data@ =~= zeros(image_size(info@, dst_res)));
    reduce_with(
        kernel,
        src,
        su * ps,
        su,
        sv,
        data.as_mut_slice(),
        du * ps,
        info.data_type,
        info.num_channels(),
        math,
    );
    proof {
        lemma_put_all_len(
            zeros(image_size(info@, dst_res)),
            row_writes(
                reduced_rows(
                    kernel,
                    arith(*math),
                    src@,
                    su * ps,
                    su as int,
                    sv as int,
                    info@.data_type,
                    nchan as int,
                ),
                du * ps,
            ),
        );
    }
    data
}

/// Number of bytes of a packed image.
pub(crate) fn packed_size(res: Res, pixel_size: usize) -> (n: usize)
    requires
        res.spec_size() * pixel_size <= usize::MAX,
    ensures
        n == res.spec_size() * pixel_size,
{
    let uw: usize = res.u();
    let vw: usize = res.v();
    if pixel_size == 0 {
        assert(uw * vw * 0 == 0);
        return 0;
    }
    assert(uw * vw <= uw * vw * pixel_size) by (nonlinear_arith)
        requires
            pixel_size >= 1,
            uw > 0,
            vw > 0,
    ;
    uw * vw * pixel_size
}

} // verus!
