//! An open file: its tables, the stream that it is read from, and the
//! arithmetic on its texels.

use crate::decode::{
    decode_constant, decode_packed, image_size, is_allocatable, large_face_positions,
    lemma_packed_image_len, level_offsets, packed_size, parse_face_data_headers, parse_tile_dir,
    parse_tile_header, reduce_step, tiles_fit, DirView, Level, LevelView, TileDir,
};
use crate::error::{corrupt, unsupported, Error, ErrorView};
use crate::file_info::{FileInfo, InfoView, ReduceKind};
use crate::format::{checked_u32_at, FaceDataHeader, FACE_DATA_HEADER_SIZE};
use crate::image::{
    block_of, constant_block_of, dir_of, large_table_of, level_of, reduced_of, solid_image,
    TILE_HEADER_SIZE,
};
use crate::metadata::{block_entries, entry_header_at, parse_entry_header, EntryView, MetaData};
use crate::open::{bad_offset, read_zip_from, zip_at};
use crate::place::lemma_solid_rows;
use crate::stream::{
    failures, is_handed_on, is_stream, read_raw, stream, view_bytes, Failures, Stream,
};
use crate::texel::{arith, is_arith, Arith, PixelOp};
use crate::types::Res;
use vstd::prelude::*;

verus! {

/// A file that can be read.
///
/// `read` returns the bytes at an absolute position of the stream, and `math`
/// does the floating-point arithmetic on texels.
pub struct Source<R, M> {
    info: FileInfo,
    read: R,
    math: M,
}

/// A level index has an offset for every header.
pub proof fn lemma_level_shape(f: Stream, info: InfoView, levelid: int)
    ensures
        level_of(f, info, levelid) is Ok ==> {
            let level = level_of(f, info, levelid)->Ok_0;
            level.fdh.len() == level.offsets.len()
        },
{
    reveal(level_of);
}

/// A tile directory has a header and an offset for every tile of a grid that
/// covers the face.
pub proof fn lemma_dir_shape(f: Stream, pos: u64, res: Res)
    ensures
        dir_of(f, pos, res) is Ok ==> {
            let dir = dir_of(f, pos, res)->Ok_0;
            &&& tiles_fit(res, dir.tile_res)
            &&& dir.fdh.len() == res.spec_ntiles(dir.tile_res)
            &&& dir.offsets.len() == dir.fdh.len()
        },
{
    reveal(dir_of);
}

/// Every image that a block holds has the size of its resolution.
pub proof fn lemma_block_len(
    f: Stream,
    m: Arith,
    info: InfoView,
    pos: u64,
    fdh: FaceDataHeader,
    res: Res,
    levelid: int,
)
    requires
        forall|p: u64, n: usize| #[trigger] f(p, n) is Some ==> f(p, n)->0.len() == n,
        info.pixel_size <= usize::MAX,
    ensures
        block_of(f, m, info, pos, fdh, res, levelid) is Ok ==> block_of(
            f,
            m,
            info,
            pos,
            fdh,
            res,
            levelid,
        )->Ok_0.len() == image_size(info, res) && is_allocatable(info, res),
{
    reveal(block_of);
    if block_of(f, m, info, pos, fdh, res, levelid) is Ok {
        if fdh.spec_encoding() is Constant {
            let raw = f(pos, info.pixel_size as usize)->0;
            let pixel = crate::decode::constant_pixel(m, info, raw, levelid);
            assert(block_of(f, m, info, pos, fdh, res, levelid)->Ok_0 == solid_image(pixel, res));
            lemma_solid_rows(pixel, res);
            assert(res.spec_v() * (res.spec_u() * pixel.len()) == res.spec_size() * pixel.len())
                by (nonlinear_arith)
                requires
                    res.spec_size() == res.spec_u() * res.spec_v(),
            ;
        } else {
            lemma_packed_image_len(
                m,
                info,
                f(pos, fdh.spec_blocksize() as usize)->0,
                res,
                fdh.spec_encoding(),
                levelid,
            );
        }
    }
}

/// The entries of the large meta data that the header `buf` describes from
/// `ptr` on, their data at `datapos`: each entry is stored as its own zip
/// block behind the one before it.
pub open spec fn large_entries(f: Stream, buf: Seq<u8>, ptr: int, datapos: int) -> Result<
    Seq<EntryView>,
    ErrorView,
>
    decreases buf.len() - ptr,
{
    if ptr < 0 || ptr >= buf.len() {
        Ok(Seq::empty())
    } else {
        match entry_header_at(buf, ptr) {
            Ok(h) => match crate::format::spec_checked_u32_at(buf, h.next) {
                Ok(zipsize) => if datapos > u64::MAX {
                    Err(bad_offset())
                } else {
                    match zip_at(f, datapos as u64, zipsize as usize, h.datasize as nat) {
                        Ok(data) => match large_entries(f, buf, h.next + 4, datapos + zipsize) {
                            Ok(rest) => Ok(
                                seq![EntryView { key: h.key, data_type: h.data_type, data }] + rest,
                            ),
                            Err(e) => Err(e),
                        },
                        Err(e) => Err(e),
                    }
                },
                Err(e) => Err(e),
            },
            Err(e) => Err(e),
        }
    }
}

/// The primary meta data.
pub open spec fn small_metadata_of(f: Stream, info: InfoView) -> Result<Seq<EntryView>, ErrorView> {
    if info.header.metadatamemsize == 0 {
        Ok(Seq::empty())
    } else {
        match zip_at(
            f,
            info.metadata_pos,
            info.header.metadatazipsize as usize,
            info.header.metadatamemsize as nat,
        ) {
            Ok(buf) => match block_entries(buf, 0).1 {
                Some(e) => Err(e),
                None => Ok(block_entries(buf, 0).0),
            },
            Err(e) => Err(e),
        }
    }
}

/// The large meta data.
pub open spec fn large_metadata_of(f: Stream, info: InfoView) -> Result<Seq<EntryView>, ErrorView> {
    if info.ext_header.lmdheadermemsize == 0 {
        Ok(Seq::empty())
    } else {
        match zip_at(
            f,
            info.lmdheader_pos,
            info.ext_header.lmdheaderzipsize as usize,
            info.ext_header.lmdheadermemsize as nat,
        ) {
            Ok(buf) => large_entries(
                f,
                buf,
                0,
                info.lmdheader_pos + info.ext_header.lmdheaderzipsize,
            ),
            Err(e) => Err(e),
        }
    }
}

/// All meta data of a file, the primary entries first.
#[verifier::opaque]
pub open spec fn metadata_of(f: Stream, info: InfoView) -> Result<Seq<EntryView>, ErrorView> {
    match small_metadata_of(f, info) {
        Ok(small) => match large_metadata_of(f, info) {
            Ok(large) => Ok(small + large),
            Err(e) => Err(e),
        },
        Err(e) => Err(e),
    }
}

impl<R: Fn(u64, usize) -> Result<Vec<u8>, std::io::Error>, M: Fn(PixelOp) -> u32> Source<R, M> {
    /// The parts fit together.
    pub closed spec fn wf(&self) -> bool {
        &&& is_stream(self.read)
        &&& is_arith(self.math)
        &&& self.info@.wf()
    }

    /// Contents of the stream.
    pub closed spec fn file(&self) -> Stream {
        stream(self.read)
    }

    /// Errors with which reads can fail.
    pub closed spec fn failures(&self) -> Failures {
        failures(self.read)
    }

    /// Results of arithmetic on texels.
    pub closed spec fn arith(&self) -> Arith {
        arith(self.math)
    }

    /// Tables of the file.
    pub closed spec fn tables(&self) -> InfoView {
        self.info@
    }

    /// What holds of every source.
    pub proof fn lemma_wf(&self)
        requires
            self.wf(),
        ensures
            self.tables().wf(),
            self.tables().pixel_size <= 4 * 0xffff,
            forall|pos: u64, len: usize| #[trigger]
                (self.file())(pos, len) is Some ==> (self.file())(pos, len)->0.len() == len,
    {
        crate::open::lemma_pixel_size(self.info@.header);
        assert forall|pos: u64, len: usize| #[trigger]
            (self.file())(pos, len) is Some implies (self.file())(pos, len)->0.len() == len by {
            let r = choose|r: Result<Vec<u8>, std::io::Error>| self.read.ensures((pos, len), r);
            assert(self.read.ensures((pos, len), r));
        }
    }

    /// Put an open file together.
    pub fn new(info: FileInfo, read: R, math: M) -> (s: Self)
        requires
            info@.wf(),
            is_stream(read),
            is_arith(math),
        ensures
            s.wf(),
            s.tables() == info@,
            s.file() == stream(read),
            s.failures() == failures(read),
            s.arith() == arith(math),
    {
        Source { info, read, math }
    }

    /// Tables of the file.
    pub fn info(&self) -> (info: &FileInfo)
        ensures
            info@ == self.tables(),
            self.wf() ==> info@.wf(),
    {
        &self.info
    }

    /// True if memory can hold an image of this resolution.
    pub fn fits(&self, res: Res) -> (b: bool)
        requires
            self.wf(),
        ensures
            b == is_allocatable(self.tables(), res),
    {
        proof {
            self.lemma_wf();
        }
        let uw: usize = res.u();
        let vw: usize = res.v();
        let ps: usize = self.info.pixel_size;
        assert(uw * vw <= 0x8000_0000 * 0x8000_0000) by (nonlinear_arith)
            requires
                uw <= 0x8000_0000,
                vw <= 0x8000_0000,
        ;
        assert(uw * vw * ps <= 0x8000_0000 * 0x8000_0000 * (4 * 0xffff)) by (nonlinear_arith)
            requires
                uw * vw <= 0x8000_0000 * 0x8000_0000,
                ps <= 4 * 0xffff,
        ;
        uw as u128 * vw as u128 * ps as u128 <= isize::MAX as u128
    }

    /// A zeroed buffer for an image of this resolution.
    pub fn new_image(&self, res: Res) -> (r: Result<Vec<u8>, Error>)
        requires
            self.wf(),
        ensures
            match r {
                Ok(v) => is_allocatable(self.tables(), res) && v@.len() == image_size(
                    self.tables(),
                    res,
                ),
                Err(e) => !is_allocatable(self.tables(), res) && e@
                    == crate::image::too_large(),
            },
            r is Err ==> is_handed_on(r->Err_0, self.failures()),
    {
        if !self.fits(res) {
            return Err(unsupported("buffer too small for requested res"));
        }
        let n: usize = packed_size(res, self.info.pixel_size);
        Ok(vec![0u8; n])
    }

    /// Read the face index (headers + offsets) of a level.
    pub fn load_level(&self, levelid: usize) -> (r: Result<Level, Error>)
        requires
            self.wf(),
            levelid < self.tables().levels.len(),
        ensures
            match r {
                Ok(level) => level_of(self.file(), self.tables(), levelid as int) == Ok::<
                    LevelView,
                    ErrorView,
                >(level@),
                Err(e) => level_of(self.file(), self.tables(), levelid as int) == Err::<
                    LevelView,
                    ErrorView,
                >(e@),
            },
            r is Err ==> is_handed_on(r->Err_0, self.failures()),
    {
        proof {
            reveal(level_of);
        }
        let li = self.info.level_info[levelid];
        let base: u64 = self.info.level_pos[levelid];
        let buf = match read_zip_from(
            &self.read,
            base,
            li.levelheadersize as usize,
            FACE_DATA_HEADER_SIZE as u64 * li.nfaces as u64,
        ) {
            Ok(b) => b,
            Err(e) => {
                return Err(e);
            },
        };
        let fdh = parse_face_data_headers(buf.as_slice());
        // faces marked "large" have 64-bit sizes stored in an extra table
        // immediately after the level header
        let data_base: u64 = match base.checked_add(li.levelheadersize as u64) {
            Some(p) => p,
            None => {
                return Err(corrupt("block offset out of range"));
            },
        };
        let nlarge: usize = large_face_positions(fdh.as_slice()).len();
        let large_table: Vec<u8> = if nlarge > 0 {
            let size: usize = match nlarge.checked_mul(8) {
                Some(n) => n,
                None => {
                    return Err(corrupt("large face table out of range"));
                },
            };
            match read_raw(&self.read, data_base, size) {
                Ok(b) => b,
                Err(e) => {
                    return Err(e);
                },
            }
        } else {
            Vec::new()
        };
        assert(large_table_of(self.file(), fdh@, data_base) == Ok::<Seq<u8>, ErrorView>(
            large_table@,
        )) by {
            if nlarge == 0 {
                assert(large_table@ =~= Seq::empty());
            }
        }
        match level_offsets(fdh.as_slice(), data_base, large_table.as_slice()) {
            Ok(offsets) => Ok(Level { fdh, offsets }),
            Err(e) => Err(e),
        }
    }

    /// Read and inflate the tile directory of the tiled block at `pos`.
    pub fn load_dir(&self, pos: u64, res: Res) -> (r: Result<TileDir, Error>)
        requires
            self.wf(),
        ensures
            match r {
                Ok(dir) => dir_of(self.file(), pos, res) == Ok::<DirView, ErrorView>(dir@),
                Err(e) => dir_of(self.file(), pos, res) == Err::<DirView, ErrorView>(e@),
            },
            r is Err ==> is_handed_on(r->Err_0, self.failures()),
    {
        proof {
            reveal(dir_of);
        }
        let head = match read_raw(&self.read, pos, TILE_HEADER_SIZE) {
            Ok(b) => b,
            Err(e) => {
                return Err(e);
            },
        };
        let (tile_res, size) = match parse_tile_header(head.as_slice(), res) {
            Ok(h) => h,
            Err(e) => {
                return Err(e);
            },
        };
        let base: u64 = match pos.checked_add(TILE_HEADER_SIZE as u64 + size as u64) {
            Some(p) => p,
            None => {
                return Err(corrupt("block offset out of range"));
            },
        };
        let (du, dv): (i16, i16) = (
            res.ulog2 as i16 - tile_res.ulog2 as i16,
            res.vlog2 as i16 - tile_res.vlog2 as i16,
        );
        if (du + dv) as u32 >= usize::BITS {
            return Err(corrupt("tile directory size mismatch"));
        }
        let ntiles: usize = res.ntiles(tile_res);
        let dirsize: u64 = match (ntiles as u64).checked_mul(FACE_DATA_HEADER_SIZE as u64) {
            Some(n) => n,
            None => {
                return Err(corrupt("tile directory size mismatch"));
            },
        };
        let dir = match read_zip_from(&self.read, pos + TILE_HEADER_SIZE as u64, size, dirsize) {
            Ok(b) => b,
            Err(e) => {
                return Err(e);
            },
        };
        parse_tile_dir(dir.as_slice(), tile_res, res, base)
    }

    /// Read the pixel of a constant block.
    ///
    /// A constant block carries one pixel; one that is shorter has the next
    /// block's bytes at its offset.
    pub fn load_pixel(&self, pos: u64, fdh: FaceDataHeader, levelid: usize) -> (r: Result<
        Vec<u8>,
        Error,
    >)
        requires
            self.wf(),
        ensures
            view_bytes(r) == constant_block_of(
                self.file(),
                self.arith(),
                self.tables(),
                pos,
                fdh,
                levelid as int,
            ),
            r is Ok ==> r->Ok_0@.len() == self.tables().pixel_size,
            r is Err ==> is_handed_on(r->Err_0, self.failures()),
    {
        if (fdh.blocksize() as usize) < self.info.pixel_size {
            return Err(corrupt("constant block shorter than a pixel"));
        }
        match read_raw(&self.read, pos, self.info.pixel_size) {
            Ok(raw) => Ok(decode_constant(raw.as_slice(), &self.info, levelid, &self.math)),
            Err(e) => Err(e),
        }
    }

    /// Read the image of a zipped or difference-zipped block.
    pub fn load_packed(&self, pos: u64, fdh: FaceDataHeader, res: Res, levelid: usize) -> (r:
        Result<Vec<u8>, Error>)
        requires
            self.wf(),
            fdh.spec_encoding() is Zipped || fdh.spec_encoding() is DiffZipped,
        ensures
            view_bytes(r) == block_of(
                self.file(),
                self.arith(),
                self.tables(),
                pos,
                fdh,
                res,
                levelid as int,
            ),
            r is Ok ==> r->Ok_0@.len() == image_size(self.tables(), res),
            r is Err ==> is_handed_on(r->Err_0, self.failures()),
    {
        proof {
            reveal(block_of);
        }
        if fdh.is_large_face() {
            return Err(corrupt("non-tiled large face"));
        }
        let raw = match read_raw(&self.read, pos, fdh.blocksize() as usize) {
            Ok(raw) => raw,
            Err(e) => {
                return Err(e);
            },
        };
        if !self.fits(res) {
            return Err(unsupported("buffer too small for requested res"));
        }
        decode_packed(raw.as_slice(), res, fdh.encoding(), &self.info, levelid, &self.math)
    }

    /// Reduce an image once.
    pub fn reduce(&self, src: &[u8], src_res: Res, res: Res, kind: ReduceKind) -> (r: Result<
        Vec<u8>,
        Error,
    >)
        requires
            self.wf(),
            kind.halves(src_res, res),
            src@.len() == image_size(self.tables(), src_res),
        ensures
            view_bytes(r) == reduced_of(self.arith(), self.tables(), src@, src_res, res, kind),
            r is Ok ==> r->Ok_0@.len() == image_size(self.tables(), res),
            r is Err ==> is_handed_on(r->Err_0, self.failures()),
    {
        if kind == ReduceKind::Tri && src_res.u() > src_res.v() {
            return Err(corrupt("triangle face wider than high"));
        }
        if !self.fits(res) {
            return Err(unsupported("buffer too small for requested res"));
        }
        Ok(reduce_step(src, src_res, res, kind, &self.info, &self.math))
    }

    /// Read all meta data of the file.
    pub fn load_metadata(&self) -> (r: Result<MetaData, Error>)
        requires
            self.wf(),
        ensures
            match r {
                Ok(md) => metadata_of(self.file(), self.tables()) == Ok::<
                    Seq<EntryView>,
                    ErrorView,
                >(md@),
                Err(e) => metadata_of(self.file(), self.tables()) == Err::<
                    Seq<EntryView>,
                    ErrorView,
                >(e@),
            },
            r is Err ==> is_handed_on(r->Err_0, self.failures()),
    {
        proof {
            reveal(metadata_of);
        }
        let mut md = MetaData::default();
        let header = &self.info.header;
        let ext = &self.info.ext_header;
        // primary (small) meta data block
        if header.metadatamemsize > 0 {
            let buf = match read_zip_from(
                &self.read,
                self.info.metadata_pos,
                header.metadatazipsize as usize,
                header.metadatamemsize as u64,
            ) {
                Ok(b) => b,
                Err(e) => {
                    return Err(e);
                },
            };
            match md.parse_block(buf.as_slice()) {
                Ok(_) => {},
                Err(e) => {
                    return Err(e);
                },
            }
            assert(md@ =~= block_entries(buf@, 0).0);
        }
        let ghost small = md@;
        assert(small_metadata_of(self.file(), self.tables()) == Ok::<Seq<EntryView>, ErrorView>(
            small,
        ));
        // large meta data: a zipped header block describing entries, each
        // entry's data stored as its own zip block following the header
        if ext.lmdheadermemsize > 0 {
            let buf = match read_zip_from(
                &self.read,
                self.info.lmdheader_pos,
                ext.lmdheaderzipsize as usize,
                ext.lmdheadermemsize as u64,
            ) {
                Ok(b) => b,
                Err(e) => {
                    return Err(e);
                },
            };
            match self.load_large(&mut md, buf.as_slice()) {
                Ok(_) => {},
                Err(e) => {
                    return Err(e);
                },
            }
        }
        assert(md@ =~= small + large_metadata_of(self.file(), self.tables())->Ok_0);
        Ok(md)
    }

    /// Read the entries of the large meta data, given its header.
    fn load_large(&self, md: &mut MetaData, buf: &[u8]) -> (r: Result<(), Error>)
        requires
            self.wf(),
        ensures
            ({
                let info = self.tables();
                let start = info.lmdheader_pos + info.ext_header.lmdheaderzipsize;
                match r {
                    Ok(_) => large_entries(self.file(), buf@, 0, start) is Ok && final(md)@
                        == old(md)@ + large_entries(self.file(), buf@, 0, start)->Ok_0,
                    Err(e) => large_entries(self.file(), buf@, 0, start) == Err::<
                        Seq<EntryView>,
                        ErrorView,
                    >(e@),
                }
            }),
            r is Err ==> is_handed_on(r->Err_0, self.failures()),
    {
        let ghost f = self.file();
        let ghost start = self.info.lmdheader_pos + self.info.ext_header.lmdheaderzipsize;
        let ghost all = large_entries(f, buf@, 0, start);
        let ghost before = md@;
        let ghost mut at: int = start;
        // none once the position has left the range of file offsets
        let mut datapos: Option<u64> = self.info.lmdheader_pos.checked_add(
            self.info.ext_header.lmdheaderzipsize as u64,
        );
        let mut ptr: usize = 0;
        assert(buf@.len() == buf.len());
        assert(all is Ok ==> before + all->Ok_0 =~= md@ + all->Ok_0);
        while ptr < buf.len()
            invariant
                self.wf(),
                f == self.file(),
                ptr <= buf@.len(),
                buf@.len() <= usize::MAX,
                match datapos {
                    Some(p) => at == p,
                    None => at > u64::MAX,
                },
                (all is Ok) == (large_entries(f, buf@, ptr as int, at) is Ok),
                all is Err ==> all == large_entries(f, buf@, ptr as int, at),
                all is Ok ==> before + all->Ok_0 == md@ + large_entries(
                    f,
                    buf@,
                    ptr as int,
                    at,
                )->Ok_0,
                before == old(md)@,
                start == self.tables().lmdheader_pos + self.tables().ext_header.lmdheaderzipsize,
                all == large_entries(f, buf@, 0, start),
            decreases buf@.len() - ptr,
        {
            let ghost rest = large_entries(f, buf@, ptr as int, at);
            let ghost here = md@;
            let head = match parse_entry_header(buf, ptr) {
                Ok(h) => h,
                Err(e) => {
                    return Err(e);
                },
            };
            let zipsize: u32 = match checked_u32_at(buf, head.next) {
                Ok(n) => n,
                Err(e) => {
                    return Err(e);
                },
            };
            let pos: u64 = match datapos {
                Some(p) => p,
                None => {
                    return Err(corrupt("block offset out of range"));
                },
            };
            let data = match read_zip_from(
                &self.read,
                pos,
                zipsize as usize,
                head.datasize as u64,
            ) {
                Ok(b) => b,
                Err(e) => {
                    return Err(e);
                },
            };
            let ghost e = EntryView {
                key: head@.key,
                data_type: head@.data_type,
                data: data@,
            };
            ptr = head.next + 4;
            datapos = pos.checked_add(zipsize as u64);
            md.add_entry(head.key, head.data_type, data);
            proof {
                at = at + zipsize;
                let next = large_entries(f, buf@, ptr as int, at);
                if next is Ok {
                    assert(rest->Ok_0 =~= seq![e] + next->Ok_0);
                    assert(here + rest->Ok_0 =~= md@ + next->Ok_0);
                }
            }
        }
        assert(md@ + Seq::<EntryView>::empty() =~= md@);
        Ok(())
    }
}

} // verus!
