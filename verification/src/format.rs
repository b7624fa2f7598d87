//! On-disk file format structures.
//!
//! All multi-byte values in a Ptex file are stored little-endian.

use crate::error::{corrupt, Error, ErrorView};
use crate::types::{signed32, signed8, wrap_i32, wrap_i8, DataType, FaceInfo, Res};
use vstd::prelude::*;

verus! {

/// File magic: "Ptex" as a little-endian u32.
pub const MAGIC: u32 = 0x7865_7450;

/// Size of the fixed file header in bytes.
pub const HEADER_SIZE: usize = 64;

/// Size of the extended header in bytes.
pub const EXT_HEADER_SIZE: usize = 40;

/// Size of a level info record in bytes.
pub const LEVEL_INFO_SIZE: usize = 16;

/// Size of a face data header in bytes.
pub const FACE_DATA_HEADER_SIZE: usize = 4;

/// Size of a face info record in bytes.
pub const FACE_INFO_SIZE: usize = 20;

/// The little-endian 16-bit value at `off`.
pub open spec fn spec_u16_at(b: Seq<u8>, off: int) -> u16 {
    (b[off] + 0x100 * b[off + 1]) as u16
}

/// The little-endian 32-bit value at `off`.
pub open spec fn spec_u32_at(b: Seq<u8>, off: int) -> u32 {
    (b[off] + 0x100 * b[off + 1] + 0x1_0000 * b[off + 2] + 0x100_0000 * b[off + 3]) as u32
}

/// The little-endian 64-bit value at `off`.
pub open spec fn spec_u64_at(b: Seq<u8>, off: int) -> u64 {
    (spec_u32_at(b, off) + 0x1_0000_0000 * spec_u32_at(b, off + 4)) as u64
}

pub fn u16_at(b: &[u8], off: usize) -> (v: u16)
    requires
        off + 2 <= b@.len(),
    ensures
        v == spec_u16_at(b@, off as int),
{
    b[off] as u16 + 0x100 * b[off + 1] as u16
}

pub fn u32_at(b: &[u8], off: usize) -> (v: u32)
    requires
        off + 4 <= b@.len(),
    ensures
        v == spec_u32_at(b@, off as int),
{
    b[off] as u32 + 0x100 * b[off + 1] as u32 + 0x1_0000 * b[off + 2] as u32 + 0x100_0000 * b[off
        + 3] as u32
}

pub fn u64_at(b: &[u8], off: usize) -> (v: u64)
    requires
        off + 8 <= b@.len(),
    ensures
        v == spec_u64_at(b@, off as int),
{
    assert(b@.len() == b.len());
    u32_at(b, off) as u64 + 0x1_0000_0000 * u32_at(b, off + 4) as u64
}

/// The 32-bit value at `off`, or the error for a block that ends before it.
pub open spec fn spec_checked_u32_at(b: Seq<u8>, off: int) -> Result<u32, ErrorView> {
    if off + 4 > b.len() {
        Err(ErrorView::Corrupt("truncated block"@))
    } else {
        Ok(spec_u32_at(b, off))
    }
}

/// Checked variant of [`u32_at`] for parsing untrusted buffers.
pub fn checked_u32_at(b: &[u8], off: usize) -> (r: Result<u32, Error>)
    ensures
        crate::error::view_result(r) == spec_checked_u32_at(b@, off as int),
{
    if b.len() < 4 || off > b.len() - 4 {
        return Err(corrupt("truncated block"));
    }
    Ok(u32_at(b, off))
}

/// Fixed file header.
#[derive(Debug, Clone, Copy)]
pub struct Header {
    pub magic: u32,
    pub version: u32,
    pub meshtype: u32,
    pub datatype: u32,
    pub alphachan: i32,
    pub nchannels: u16,
    pub nlevels: u16,
    pub nfaces: u32,
    pub extheadersize: u32,
    pub faceinfosize: u32,
    pub constdatasize: u32,
    pub levelinfosize: u32,
    pub minorversion: u32,
    pub leveldatasize: u64,
    pub metadatazipsize: u32,
    pub metadatamemsize: u32,
}

impl Header {
    /// The header that the first [`HEADER_SIZE`] bytes of a file hold.
    pub open spec fn spec_parse(b: Seq<u8>) -> Header {
        Header {
            magic: spec_u32_at(b, 0),
            version: spec_u32_at(b, 4),
            meshtype: spec_u32_at(b, 8),
            datatype: spec_u32_at(b, 12),
            alphachan: wrap_i32(spec_u32_at(b, 16) as int),
            nchannels: spec_u16_at(b, 20),
            nlevels: spec_u16_at(b, 22),
            nfaces: spec_u32_at(b, 24),
            extheadersize: spec_u32_at(b, 28),
            faceinfosize: spec_u32_at(b, 32),
            constdatasize: spec_u32_at(b, 36),
            levelinfosize: spec_u32_at(b, 40),
            minorversion: spec_u32_at(b, 44),
            leveldatasize: spec_u64_at(b, 48),
            metadatazipsize: spec_u32_at(b, 56),
            metadatamemsize: spec_u32_at(b, 60),
        }
    }

    pub fn parse(b: &[u8]) -> (h: Header)
        requires
            b@.len() >= HEADER_SIZE,
        ensures
            h == Header::spec_parse(b@),
    {
        Header {
            magic: u32_at(b, 0),
            version: u32_at(b, 4),
            meshtype: u32_at(b, 8),
            datatype: u32_at(b, 12),
            alphachan: signed32(u32_at(b, 16)),
            nchannels: u16_at(b, 20),
            nlevels: u16_at(b, 22),
            nfaces: u32_at(b, 24),
            extheadersize: u32_at(b, 28),
            faceinfosize: u32_at(b, 32),
            constdatasize: u32_at(b, 36),
            levelinfosize: u32_at(b, 40),
            minorversion: u32_at(b, 44),
            leveldatasize: u64_at(b, 48),
            metadatazipsize: u32_at(b, 56),
            metadatamemsize: u32_at(b, 60),
        }
    }

    /// Size of a pixel in bytes, or the error for an unknown data type.
    pub open spec fn spec_pixel_size(self) -> Result<nat, ErrorView> {
        match DataType::spec_from_u32(self.datatype) {
            Ok(dt) => Ok(dt.spec_size() * self.nchannels as nat),
            Err(e) => Err(e),
        }
    }

    /// Size of a pixel in bytes (data size * number of channels).
    pub fn pixel_size(&self) -> (r: Result<usize, Error>)
        ensures
            match r {
                Ok(n) => self.spec_pixel_size() == Ok::<nat, ErrorView>(n as nat),
                Err(e) => self.spec_pixel_size() == Err::<nat, ErrorView>(e@),
            },
    {
        match DataType::from_u32(self.datatype) {
            Ok(dt) => {
                let size: usize = dt.size();
                let n: usize = self.nchannels as usize;
                assert(size * n <= 4 * 0xffff) by (nonlinear_arith)
                    requires
                        size <= 4,
                        n <= 0xffff,
                ;
                Ok(size * n)
            },
            Err(e) => Err(e),
        }
    }

    /// True if the alpha channel number names one of the channels.
    pub open spec fn spec_has_alpha(self) -> bool {
        0 <= self.alphachan < self.nchannels
    }

    pub fn has_alpha(&self) -> (b: bool)
        ensures
            b == self.spec_has_alpha(),
    {
        self.alphachan >= 0 && self.alphachan < self.nchannels as i32
    }
}

/// Extended header (may be truncated or absent in older files;
/// missing fields read as zero).
#[derive(Debug, Clone, Copy)]
pub struct ExtHeader {
    pub ubordermode: u16,
    pub pad: u16,
    pub vbordermode: u16,
    pub edgefiltermode: u16,
    pub lmdheaderzipsize: u32,
    pub lmdheadermemsize: u32,
    pub lmddatasize: u64,
    pub obsolete: u64,
    pub obsolete2: u64,
}

impl ExtHeader {
    /// The extended header that [`EXT_HEADER_SIZE`] bytes hold.
    pub open spec fn spec_parse(b: Seq<u8>) -> ExtHeader {
        ExtHeader {
            ubordermode: spec_u16_at(b, 0),
            pad: spec_u16_at(b, 2),
            vbordermode: spec_u16_at(b, 4),
            edgefiltermode: spec_u16_at(b, 6),
            lmdheaderzipsize: spec_u32_at(b, 8),
            lmdheadermemsize: spec_u32_at(b, 12),
            lmddatasize: spec_u64_at(b, 16),
            obsolete: spec_u64_at(b, 24),
            obsolete2: spec_u64_at(b, 32),
        }
    }

    pub fn parse(b: &[u8]) -> (h: ExtHeader)
        requires
            b@.len() >= EXT_HEADER_SIZE,
        ensures
            h == ExtHeader::spec_parse(b@),
    {
        ExtHeader {
            ubordermode: u16_at(b, 0),
            pad: u16_at(b, 2),
            vbordermode: u16_at(b, 4),
            edgefiltermode: u16_at(b, 6),
            lmdheaderzipsize: u32_at(b, 8),
            lmdheadermemsize: u32_at(b, 12),
            lmddatasize: u64_at(b, 16),
            obsolete: u64_at(b, 24),
            obsolete2: u64_at(b, 32),
        }
    }
}

/// Per-level info record.
#[derive(Debug, Clone, Copy)]
pub struct LevelInfo {
    pub leveldatasize: u64,
    pub levelheadersize: u32,
    pub nfaces: u32,
}

impl LevelInfo {
    /// The record that [`LEVEL_INFO_SIZE`] bytes hold.
    pub open spec fn spec_parse(b: Seq<u8>) -> LevelInfo {
        LevelInfo {
            leveldatasize: spec_u64_at(b, 0),
            levelheadersize: spec_u32_at(b, 8),
            nfaces: spec_u32_at(b, 12),
        }
    }

    pub fn parse(b: &[u8]) -> (h: LevelInfo)
        requires
            b@.len() >= LEVEL_INFO_SIZE,
        ensures
            h == LevelInfo::spec_parse(b@),
    {
        LevelInfo {
            leveldatasize: u64_at(b, 0),
            levelheadersize: u32_at(b, 8),
            nfaces: u32_at(b, 12),
        }
    }
}

/// How face data is encoded on disk.
#[derive(Debug, Clone, Copy, PartialEq, Eq, Structural)]
pub enum Encoding {
    Constant,
    Zipped,
    DiffZipped,
    Tiled,
}

/// Face data header: block size (bits 0..29) and encoding (bits 30..31).
#[derive(Debug, Clone, Copy, PartialEq, Eq, Structural)]
pub struct FaceDataHeader {
    pub data: u32,
}

/// A face whose block size reaches this sentinel is a "large face"; its
/// actual size is stored in a separate 64-bit large-face header.
pub const BLOCKSIZE_MAX: u32 = 0x3fff_ffff;

impl FaceDataHeader {
    /// Size of the block in bytes: the 30 low bits.
    pub open spec fn spec_blocksize(self) -> u32 {
        self.data % 0x4000_0000
    }

    /// Encoding of the block: the 2 high bits.
    pub open spec fn spec_encoding(self) -> Encoding {
        if self.data / 0x4000_0000 == 0 {
            Encoding::Constant
        } else if self.data / 0x4000_0000 == 1 {
            Encoding::Zipped
        } else if self.data / 0x4000_0000 == 2 {
            Encoding::DiffZipped
        } else {
            Encoding::Tiled
        }
    }

    /// True if all bits of the block size are set.
    pub open spec fn spec_is_large_face(self) -> bool {
        self.spec_blocksize() == BLOCKSIZE_MAX
    }

    pub fn blocksize(self) -> (n: u32)
        ensures
            n == self.spec_blocksize(),
    {
        self.data % 0x4000_0000
    }

    pub fn encoding(self) -> (e: Encoding)
        ensures
            e == self.spec_encoding(),
    {
        match self.data / 0x4000_0000 {
            0 => Encoding::Constant,
            1 => Encoding::Zipped,
            2 => Encoding::DiffZipped,
            _ => Encoding::Tiled,
        }
    }

    pub fn is_large_face(self) -> (b: bool)
        ensures
            b == self.spec_is_large_face(),
    {
        self.blocksize() == BLOCKSIZE_MAX
    }
}

/// `f` is the face info record that the bytes at `off` hold.
pub open spec fn is_face_info_at(f: FaceInfo, b: Seq<u8>, off: int) -> bool {
    &&& f.res == Res { ulog2: wrap_i8(b[off] as int), vlog2: wrap_i8(b[off + 1] as int) }
    &&& f.adjedges == b[off + 2]
    &&& f.flags == b[off + 3]
    &&& f.adjfaces@ == seq![
        wrap_i32(spec_u32_at(b, off + 4) as int),
        wrap_i32(spec_u32_at(b, off + 8) as int),
        wrap_i32(spec_u32_at(b, off + 12) as int),
        wrap_i32(spec_u32_at(b, off + 16) as int),
    ]
}

/// The face info record that the bytes at `off` hold.
pub open spec fn spec_face_info_at(b: Seq<u8>, off: int) -> FaceInfo {
    choose|f: FaceInfo| is_face_info_at(f, b, off)
}

/// Only one record fits the bytes at `off`.
pub proof fn lemma_face_info_at(f: FaceInfo, b: Seq<u8>, off: int)
    requires
        is_face_info_at(f, b, off),
    ensures
        f == spec_face_info_at(b, off),
{
    let g = spec_face_info_at(b, off);
    assert(is_face_info_at(g, b, off));
    assert(f.adjfaces@ =~= g.adjfaces@);
    assert(f.adjfaces =~= g.adjfaces);
}

/// Parse a `FaceInfo` record from its 20-byte on-disk representation.
pub fn parse_face_info(b: &[u8]) -> (f: FaceInfo)
    requires
        b@.len() >= FACE_INFO_SIZE,
    ensures
        is_face_info_at(f, b@, 0),
{
    let adjfaces = [
        signed32(u32_at(b, 4)),
        signed32(u32_at(b, 8)),
        signed32(u32_at(b, 12)),
        signed32(u32_at(b, 16)),
    ];
    assert(adjfaces@ =~= seq![
        wrap_i32(spec_u32_at(b@, 4) as int),
        wrap_i32(spec_u32_at(b@, 8) as int),
        wrap_i32(spec_u32_at(b@, 12) as int),
        wrap_i32(spec_u32_at(b@, 16) as int),
    ]);
    FaceInfo {
        res: Res { ulog2: signed8(b[0]), vlog2: signed8(b[1]) },
        adjedges: b[2],
        flags: b[3],
        adjfaces,
    }
}

} // verus!
