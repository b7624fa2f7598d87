//! Reading the tables of a file when it is opened.

use crate::error::{corrupt, Error, ErrorView};
use crate::file_info::{FileInfo, InfoView};
use crate::format::{
    is_face_info_at, lemma_face_info_at, parse_face_info, spec_face_info_at, ExtHeader, Header,
    LevelInfo, EXT_HEADER_SIZE, FACE_INFO_SIZE, HEADER_SIZE, LEVEL_INFO_SIZE, MAGIC,
};
use crate::ranking::{gen_rfaceids, ranks};
use crate::stream::{
    failures, is_handed_on, is_stream, raw_at, read_raw, stream, view_bytes, Stream,
};
use crate::texel::{arith, is_arith, Arith, PixelOp};
use crate::types::{DataType, FaceInfo, MeshType};
use crate::utils::{multalpha, premultiplied};
use crate::zlib::{spec_unzip, unzip};
use vstd::prelude::*;

verus! {

/// The `zipsize` bytes at `pos`, decompressed into exactly `unzipsize` bytes.
pub open spec fn zip_at(
    f: Stream,
    pos: u64,
    zipsize: usize,
    unzipsize: nat,
) -> Result<Seq<u8>, ErrorView> {
    match raw_at(f, pos, zipsize) {
        Ok(comp) => spec_unzip(comp, unzipsize),
        Err(e) => Err(e),
    }
}

/// Read `zipsize` bytes at `pos` and zlib-decompress them into exactly
/// `unzipsize` bytes.
pub(crate) fn read_zip_from<R: Fn(u64, usize) -> Result<Vec<u8>, std::io::Error>>(
    read: &R,
    pos: u64,
    zipsize: usize,
    unzipsize: u64,
) -> (r: Result<Vec<u8>, Error>)
    requires
        is_stream(*read),
    ensures
        view_bytes(r) == zip_at(stream(*read), pos, zipsize, unzipsize as nat),
        r is Ok ==> r->Ok_0@.len() == unzipsize,
        r is Err ==> is_handed_on(r->Err_0, failures(*read)),
{
    match read_raw(read, pos, zipsize) {
        Ok(comp) => unzip(comp.as_slice(), unzipsize),
        Err(e) => Err(e),
    }
}

/// Error for a position in the file that does not fit in 64 bits.
pub open spec fn bad_offset() -> ErrorView {
    ErrorView::Corrupt("block offset out of range"@)
}

/// Position of the face info table.
pub open spec fn faceinfo_pos(h: Header) -> int {
    HEADER_SIZE + h.extheadersize
}

/// Position of the constant-data block.
pub open spec fn constdata_pos(h: Header) -> int {
    faceinfo_pos(h) + h.faceinfosize
}

/// Position of the level info table.
pub open spec fn levelinfo_pos(h: Header) -> int {
    constdata_pos(h) + h.constdatasize
}

/// Position of the data of level 0.
pub open spec fn leveldata_pos(h: Header) -> int {
    levelinfo_pos(h) + h.levelinfosize
}

/// Position of the meta data block.
pub open spec fn metadata_pos(h: Header) -> int {
    leveldata_pos(h) + h.leveldatasize
}

/// Position of the header of the large meta data, behind eight bytes that
/// nothing uses.
pub open spec fn lmdheader_pos(h: Header) -> int {
    metadata_pos(h) + h.metadatazipsize + 8
}

/// The fixed header, if it is one of a file that can be read.
pub open spec fn header_of(f: Stream) -> Result<Header, ErrorView> {
    match raw_at(f, 0, HEADER_SIZE) {
        Ok(b) => {
            let h = Header::spec_parse(b);
            if h.magic != MAGIC {
                Err(ErrorView::NotAPtexFile)
            } else if h.version != 1 {
                Err(ErrorView::UnsupportedVersion(h.version))
            } else if MeshType::spec_from_u32(h.meshtype) is Err {
                Err(ErrorView::InvalidMeshType(h.meshtype))
            } else if DataType::spec_from_u32(h.datatype) is Err {
                Err(ErrorView::InvalidDataType(h.datatype))
            } else {
                Ok(h)
            }
        },
        Err(e) => Err(e),
    }
}

/// The extended header; the file may hold a longer or a shorter one, and
/// bytes that it lacks read as zero.
pub open spec fn ext_header_of(f: Stream, h: Header) -> Result<ExtHeader, ErrorView> {
    let n = if h.extheadersize < EXT_HEADER_SIZE {
        h.extheadersize as usize
    } else {
        EXT_HEADER_SIZE
    };
    match raw_at(f, HEADER_SIZE as u64, n) {
        Ok(b) => Ok(
            ExtHeader::spec_parse(b + Seq::new((EXT_HEADER_SIZE - b.len()) as nat, |i: int| 0u8)),
        ),
        Err(e) => Err(e),
    }
}

/// The face info records that a decompressed table holds.
pub open spec fn face_records(b: Seq<u8>, n: nat) -> Seq<FaceInfo> {
    Seq::new(n, |i: int| spec_face_info_at(b, FACE_INFO_SIZE * i))
}

/// The face info table.
pub open spec fn faces_of(f: Stream, h: Header) -> Result<Seq<FaceInfo>, ErrorView> {
    match zip_at(
        f,
        faceinfo_pos(h) as u64,
        h.faceinfosize as usize,
        FACE_INFO_SIZE as nat * h.nfaces as nat,
    ) {
        Ok(b) => Ok(face_records(b, h.nfaces as nat)),
        Err(e) => Err(e),
    }
}

/// Size of a pixel in bytes.
pub open spec fn pixel_size_of(h: Header) -> nat {
    h.spec_pixel_size()->Ok_0
}

/// The constant-data block: one pixel per face.
pub open spec fn const_data_of(
    f: Stream,
    m: Arith,
    h: Header,
    premultiply: bool,
) -> Result<Seq<u8>, ErrorView> {
    match zip_at(
        f,
        constdata_pos(h) as u64,
        h.constdatasize as usize,
        pixel_size_of(h) * h.nfaces as nat,
    ) {
        Ok(b) => Ok(
            if premultiply && h.spec_has_alpha() {
                premultiplied(
                    m,
                    b,
                    h.nfaces as int,
                    DataType::spec_from_u32(h.datatype)->Ok_0,
                    h.nchannels as int,
                    h.alphachan as int,
                )
            } else {
                b
            },
        ),
        Err(e) => Err(e),
    }
}

/// The level info records that a table holds.
pub open spec fn level_records(b: Seq<u8>, n: nat) -> Seq<LevelInfo> {
    Seq::new(
        n,
        |i: int|
            LevelInfo::spec_parse(
                b.subrange(LEVEL_INFO_SIZE * i, LEVEL_INFO_SIZE * i + LEVEL_INFO_SIZE),
            ),
    )
}

/// The level info table, which is not compressed.
pub open spec fn levels_of(f: Stream, h: Header) -> Result<Seq<LevelInfo>, ErrorView> {
    if h.levelinfosize != LEVEL_INFO_SIZE * h.nlevels {
        Err(ErrorView::Corrupt("level info size mismatch"@))
    } else {
        match raw_at(f, levelinfo_pos(h) as u64, (LEVEL_INFO_SIZE * h.nlevels) as usize) {
            Ok(b) => Ok(level_records(b, h.nlevels as nat)),
            Err(e) => Err(e),
        }
    }
}

/// Position of level `n`, behind the data of the levels before it.
pub open spec fn level_start(levels: Seq<LevelInfo>, base: int, n: nat) -> int
    decreases n,
{
    if n == 0 {
        base
    } else {
        level_start(levels, base, (n - 1) as nat) + levels[n - 1].leveldatasize
    }
}

/// Positions of all levels.
pub open spec fn level_starts(levels: Seq<LevelInfo>, base: int) -> Result<Seq<u64>, ErrorView> {
    if levels.len() > 0 && level_start(levels, base, (levels.len() - 1) as nat) > u64::MAX {
        Err(bad_offset())
    } else {
        Ok(Seq::new(levels.len(), |i: int| level_start(levels, base, i as nat) as u64))
    }
}

pub proof fn lemma_level_start_grows(levels: Seq<LevelInfo>, base: int, n: nat, m: nat)
    requires
        n <= m,
    ensures
        level_start(levels, base, n) <= level_start(levels, base, m),
    decreases m,
{
    if n < m {
        lemma_level_start_grows(levels, base, n, (m - 1) as nat);
    }
}

/// Everything that is read when a file is opened.
pub open spec fn info_of(f: Stream, m: Arith, premultiply: bool) -> Result<InfoView, ErrorView> {
    match header_of(f) {
        Ok(h) => match ext_header_of(f, h) {
            Ok(ext) => if lmdheader_pos(h) > u64::MAX {
                Err(bad_offset())
            } else {
                match faces_of(f, h) {
                    Ok(faces) => match const_data_of(f, m, h, premultiply) {
                        Ok(const_data) => match levels_of(f, h) {
                            Ok(levels) => match level_starts(levels, leveldata_pos(h)) {
                                Ok(level_pos) => Ok(
                                    InfoView {
                                        premultiply,
                                        header: h,
                                        ext_header: ext,
                                        mesh_type: MeshType::spec_from_u32(h.meshtype)->Ok_0,
                                        data_type: DataType::spec_from_u32(h.datatype)->Ok_0,
                                        pixel_size: pixel_size_of(h),
                                        metadata_pos: metadata_pos(h) as u64,
                                        lmdheader_pos: lmdheader_pos(h) as u64,
                                        faces,
                                        rfaceids: ranks(faces),
                                        const_data,
                                        levels,
                                        level_pos,
                                    },
                                ),
                                Err(e) => Err(e),
                            },
                            Err(e) => Err(e),
                        },
                        Err(e) => Err(e),
                    },
                    Err(e) => Err(e),
                }
            },
            Err(e) => Err(e),
        },
        Err(e) => Err(e),
    }
}

fn read_header<R: Fn(u64, usize) -> Result<Vec<u8>, std::io::Error>>(read: &R) -> (r: Result<
    Header,
    Error,
>)
    requires
        is_stream(*read),
    ensures
        crate::error::view_result(r) == header_of(stream(*read)),
        r is Err ==> is_handed_on(r->Err_0, failures(*read)),
{
    let hbuf = match read_raw(read, 0, HEADER_SIZE) {
        Ok(b) => b,
        Err(e) => {
            return Err(e);
        },
    };
    let header = Header::parse(hbuf.as_slice());
    if header.magic != MAGIC {
        return Err(Error::NotAPtexFile);
    }
    if header.version != 1 {
        return Err(Error::UnsupportedVersion(header.version));
    }
    match MeshType::from_u32(header.meshtype) {
        Ok(_) => {},
        Err(e) => {
            return Err(e);
        },
    }
    match DataType::from_u32(header.datatype) {
        Ok(_) => {},
        Err(e) => {
            return Err(e);
        },
    }
    Ok(header)
}

/// The bytes of an extended header with zeros in place of missing ones.
fn padded(bytes: Vec<u8>) -> (r: Vec<u8>)
    requires
        bytes@.len() <= EXT_HEADER_SIZE,
    ensures
        r@ == bytes@ + Seq::new((EXT_HEADER_SIZE - bytes@.len()) as nat, |i: int| 0u8),
        r@.len() == EXT_HEADER_SIZE,
{
    let mut r = bytes;
    while r.len() < EXT_HEADER_SIZE
        invariant
            bytes@.len() <= r@.len() <= EXT_HEADER_SIZE,
            r@ =~= bytes@ + Seq::new((r@.len() - bytes@.len()) as nat, |i: int| 0u8),
        decreases EXT_HEADER_SIZE - r@.len(),
    {
        r.push(0);
    }
    r
}

fn read_ext_header<R: Fn(u64, usize) -> Result<Vec<u8>, std::io::Error>>(
    read: &R,
    header: &Header,
) -> (r: Result<ExtHeader, Error>)
    requires
        is_stream(*read),
    ensures
        crate::error::view_result(r) == ext_header_of(stream(*read), *header),
        r is Err ==> is_handed_on(r->Err_0, failures(*read)),
{
    // the header may be shorter or longer than we know; extra bytes are
    // skipped, missing bytes read as zero
    let n: usize = if (header.extheadersize as usize) < EXT_HEADER_SIZE {
        header.extheadersize as usize
    } else {
        EXT_HEADER_SIZE
    };
    let buf = match read_raw(read, HEADER_SIZE as u64, n) {
        Ok(b) => padded(b),
        Err(e) => {
            return Err(e);
        },
    };
    Ok(ExtHeader::parse(buf.as_slice()))
}

fn read_faces<R: Fn(u64, usize) -> Result<Vec<u8>, std::io::Error>>(
    read: &R,
    header: &Header,
) -> (r: Result<Vec<FaceInfo>, Error>)
    requires
        is_stream(*read),
        lmdheader_pos(*header) <= u64::MAX,
    ensures
        match r {
            Ok(v) => faces_of(stream(*read), *header) == Ok::<Seq<FaceInfo>, ErrorView>(v@),
            Err(e) => faces_of(stream(*read), *header) == Err::<Seq<FaceInfo>, ErrorView>(e@),
        },
        r is Err ==> is_handed_on(r->Err_0, failures(*read)),
{
    let nfaces: usize = header.nfaces as usize;
    let buf = match read_zip_from(
        read,
        HEADER_SIZE as u64 + header.extheadersize as u64,
        header.faceinfosize as usize,
        FACE_INFO_SIZE as u64 * header.nfaces as u64,
    ) {
        Ok(b) => b,
        Err(e) => {
            return Err(e);
        },
    };
    let mut faces: Vec<FaceInfo> = Vec::new();
    let mut i: usize = 0;
    assert(buf@.len() == buf.len());
    while i < nfaces
        invariant
            i <= nfaces,
            buf@.len() == FACE_INFO_SIZE * nfaces,
            buf@.len() <= usize::MAX,
            faces@ =~= face_records(buf@, nfaces as nat).take(i as int),
        decreases nfaces - i,
    {
        let ghost off = FACE_INFO_SIZE * i;
        let rec = vstd::slice::slice_subrange(
            buf.as_slice(),
            FACE_INFO_SIZE * i,
            FACE_INFO_SIZE * i + FACE_INFO_SIZE,
        );
        let face = parse_face_info(rec);
        proof {
            assert(forall|k: int| 0 <= k < FACE_INFO_SIZE ==> rec@[k] == buf@[off + k]);
            assert(is_face_info_at(face, buf@, off));
            lemma_face_info_at(face, buf@, off);
        }
        faces.push(face);
        i = i + 1;
    }
    assert(face_records(buf@, nfaces as nat).take(nfaces as int) =~= face_records(
        buf@,
        nfaces as nat,
    ));
    Ok(faces)
}

fn read_const_data<
    R: Fn(u64, usize) -> Result<Vec<u8>, std::io::Error>,
    M: Fn(PixelOp) -> u32,
>(read: &R, math: &M, header: &Header, data_type: DataType, pixel_size: usize, premultiply: bool)
    -> (r: Result<Vec<u8>, Error>)
    requires
        is_stream(*read),
        is_arith(*math),
        lmdheader_pos(*header) <= u64::MAX,
        DataType::spec_from_u32(header.datatype) == Ok::<DataType, ErrorView>(data_type),
        pixel_size == pixel_size_of(*header),
    ensures
        view_bytes(r) == const_data_of(stream(*read), arith(*math), *header, premultiply),
        r is Ok ==> r->Ok_0@.len() == pixel_size * header.nfaces,
        r is Err ==> is_handed_on(r->Err_0, failures(*read)),
{
    assert(pixel_size <= 4 * 0xffff) by {
        lemma_pixel_size(*header);
    }
    assert(pixel_size * header.nfaces <= 4 * 0xffff * 0xffff_ffff) by (nonlinear_arith)
        requires
            pixel_size <= 4 * 0xffff,
            header.nfaces <= 0xffff_ffff,
    ;
    let mut data = match read_zip_from(
        read,
        HEADER_SIZE as u64 + header.extheadersize as u64 + header.faceinfosize as u64,
        header.constdatasize as usize,
        pixel_size as u64 * header.nfaces as u64,
    ) {
        Ok(b) => b,
        Err(e) => {
            return Err(e);
        },
    };
    if premultiply && header.has_alpha() {
        multalpha(
            data.as_mut_slice(),
            header.nfaces as usize,
            data_type,
            header.nchannels as usize,
            header.alphachan as usize,
            math,
        );
    }
    Ok(data)
}

/// A pixel is at most four bytes per channel.
pub proof fn lemma_pixel_size(h: Header)
    requires
        DataType::spec_from_u32(h.datatype) is Ok,
    ensures
        pixel_size_of(h) == DataType::spec_from_u32(h.datatype)->Ok_0.spec_size() * h.nchannels,
        pixel_size_of(h) <= 4 * 0xffff,
{
    let es = DataType::spec_from_u32(h.datatype)->Ok_0.spec_size();
    assert(es * h.nchannels <= 4 * 0xffff) by (nonlinear_arith)
        requires
            es <= 4,
            h.nchannels <= 0xffff,
    ;
}

fn read_levels<R: Fn(u64, usize) -> Result<Vec<u8>, std::io::Error>>(
    read: &R,
    header: &Header,
) -> (r: Result<Vec<LevelInfo>, Error>)
    requires
        is_stream(*read),
        lmdheader_pos(*header) <= u64::MAX,
    ensures
        match r {
            Ok(v) => levels_of(stream(*read), *header) == Ok::<Seq<LevelInfo>, ErrorView>(v@),
            Err(e) => levels_of(stream(*read), *header) == Err::<Seq<LevelInfo>, ErrorView>(e@),
        },
        r is Err ==> is_handed_on(r->Err_0, failures(*read)),
{
    let nlevels: usize = header.nlevels as usize;
    if header.levelinfosize as usize != LEVEL_INFO_SIZE * nlevels {
        return Err(corrupt("level info size mismatch"));
    }
    let pos: u64 = HEADER_SIZE as u64 + header.extheadersize as u64 + header.faceinfosize as u64
        + header.constdatasize as u64;
    let buf = match read_raw(read, pos, LEVEL_INFO_SIZE * nlevels) {
        Ok(b) => b,
        Err(e) => {
            return Err(e);
        },
    };
    let mut levels: Vec<LevelInfo> = Vec::new();
    let mut i: usize = 0;
    while i < nlevels
        invariant
            i <= nlevels,
            nlevels <= 0xffff,
            buf@.len() == LEVEL_INFO_SIZE * nlevels,
            levels@ =~= level_records(buf@, nlevels as nat).take(i as int),
        decreases nlevels - i,
    {
        let rec = vstd::slice::slice_subrange(
            buf.as_slice(),
            LEVEL_INFO_SIZE * i,
            LEVEL_INFO_SIZE * i + LEVEL_INFO_SIZE,
        );
        levels.push(LevelInfo::parse(rec));
        i = i + 1;
    }
    assert(level_records(buf@, nlevels as nat).take(nlevels as int) =~= level_records(
        buf@,
        nlevels as nat,
    ));
    Ok(levels)
}

/// Positions of the levels, the first one at `base`.
fn place_levels(levels: &[LevelInfo], base: u64) -> (r: Result<Vec<u64>, Error>)
    ensures
        match r {
            Ok(v) => level_starts(levels@, base as int) == Ok::<Seq<u64>, ErrorView>(v@),
            Err(e) => level_starts(levels@, base as int) == Err::<Seq<u64>, ErrorView>(e@),
        },
{
    let n: usize = levels.len();
    let mut starts: Vec<u64> = Vec::new();
    let mut pos: u64 = base;
    let mut i: usize = 0;
    while i < n
        invariant
            i <= n,
            n == levels@.len(),
            starts@.len() == i,
            i < n || n == 0 ==> pos == level_start(levels@, base as int, i as nat),
            i > 0 ==> level_start(levels@, base as int, (i - 1) as nat) <= u64::MAX,
            forall|k: int|
                0 <= k < i ==> #[trigger] starts@[k] == level_start(
                    levels@,
                    base as int,
                    k as nat,
                ),
        decreases n - i,
    {
        starts.push(pos);
        i = i + 1;
        if i < n {
            match pos.checked_add(levels[i - 1].leveldatasize) {
                Some(p) => {
                    pos = p;
                },
                None => {
                    proof {
                        lemma_level_start_grows(
                            levels@,
                            base as int,
                            i as nat,
                            (n - 1) as nat,
                        );
                    }
                    return Err(corrupt("block offset out of range"));
                },
            }
        }
    }
    assert(starts@ =~= Seq::new(
        levels@.len(),
        |k: int| level_start(levels@, base as int, k as nat) as u64,
    ));
    Ok(starts)
}

impl FileInfo {
    /// Read and parse the header, face table, constant data and level table.
    pub fn read<
        R: Fn(u64, usize) -> Result<Vec<u8>, std::io::Error>,
        M: Fn(PixelOp) -> u32,
    >(read: &R, math: &M, premultiply: bool) -> (r: Result<FileInfo, Error>)
        requires
            is_stream(*read),
            is_arith(*math),
        ensures
            match r {
                Ok(info) => info_of(stream(*read), arith(*math), premultiply) == Ok::<
                    InfoView,
                    ErrorView,
                >(info@) && info@.wf(),
                Err(e) => info_of(stream(*read), arith(*math), premultiply) == Err::<
                    InfoView,
                    ErrorView,
                >(e@),
            },
            r is Err ==> is_handed_on(r->Err_0, failures(*read)),
    {
        let header = match read_header(read) {
            Ok(h) => h,
            Err(e) => {
                return Err(e);
            },
        };
        let ext_header = match read_ext_header(read, &header) {
            Ok(h) => h,
            Err(e) => {
                return Err(e);
            },
        };
        let mesh_type = match MeshType::from_u32(header.meshtype) {
            Ok(t) => t,
            Err(e) => {
                return Err(e);
            },
        };
        let data_type = match DataType::from_u32(header.datatype) {
            Ok(t) => t,
            Err(e) => {
                return Err(e);
            },
        };
        let pixel_size: usize = match header.pixel_size() {
            Ok(n) => n,
            Err(e) => {
                return Err(e);
            },
        };
        // offsets of the various blocks
        let leveldata: u64 = HEADER_SIZE as u64 + header.extheadersize as u64
            + header.faceinfosize as u64 + header.constdatasize as u64
            + header.levelinfosize as u64;
        let metadata: u64 = match leveldata.checked_add(header.leveldatasize) {
            Some(p) => p,
            None => {
                return Err(corrupt("block offset out of range"));
            },
        };
        let lmdheader: u64 = match metadata.checked_add(header.metadatazipsize as u64 + 8) {
            Some(p) => p,
            None => {
                return Err(corrupt("block offset out of range"));
            },
        };
        let face_info = match read_faces(read, &header) {
            Ok(v) => v,
            Err(e) => {
                return Err(e);
            },
        };
        let rfaceids = gen_rfaceids(face_info.as_slice());
        let const_data = match read_const_data(
            read,
            math,
            &header,
            data_type,
            pixel_size,
            premultiply,
        ) {
            Ok(v) => v,
            Err(e) => {
                return Err(e);
            },
        };
        let level_info = match read_levels(read, &header) {
            Ok(v) => v,
            Err(e) => {
                return Err(e);
            },
        };
        let level_pos = match place_levels(level_info.as_slice(), leveldata) {
            Ok(v) => v,
            Err(e) => {
                return Err(e);
            },
        };
        Ok(
            FileInfo {
                premultiply,
                header,
                ext_header,
                mesh_type,
                data_type,
                pixel_size,
                metadata_pos: metadata,
                lmdheader_pos: lmdheader,
                face_info,
                rfaceids,
                const_data,
                level_info,
                level_pos,
            },
        )
    }
}

} // verus!
