//! What opening a file reads, byte by byte.

use crate::block_laws::premultiplying_scales_colors;
use crate::element_laws::{lemma_same_number, number_at, numbers_are_little_endian, signed};
use crate::error::ErrorView;
use crate::file_info::InfoView;
use crate::format::{is_face_info_at, spec_face_info_at, Header};
use crate::laws::exact_reads;
use crate::open::{info_of, lemma_level_start_grows};
use crate::ranking::{rank, ranks, ranks_are_a_permutation, ranks_are_sorted};
use crate::stream::Stream;
use crate::texel::{Arith, PixelOp};
use crate::types::{
    wrap_i32, wrap_i8, BorderMode, DataType, EdgeFilterMode, EdgeId, FaceInfo, MeshType,
    MetaDataType, Res,
};
use crate::utils::lemma_grid_end;
use crate::zlib::inflated;
use vstd::prelude::*;

verus! {

/// Reinterpreting a bit pattern as signed.
pub proof fn signed_numbers(n: int)
    ensures
        0 <= n < 0x100 ==> wrap_i8(n) == signed(n as nat, 8),
        0 <= n < 0x1_0000 ==> crate::metadata::wrap_i16(n) == signed(n as nat, 16),
        0 <= n < 0x1_0000_0000 ==> wrap_i32(n) == signed(n as nat, 32),
{
    vstd::arithmetic::power2::lemma2_to64();
}

/// Fields of a header.
proof fn lemma_header_fields(b: Seq<u8>)
    ensures
        ({
            let h = Header::spec_parse(b);
            &&& h.magic == number_at(b, 0, 4)
            &&& h.version == number_at(b, 4, 4)
            &&& h.meshtype == number_at(b, 8, 4)
            &&& h.datatype == number_at(b, 12, 4)
            &&& h.alphachan == signed(number_at(b, 16, 4), 32)
            &&& h.nchannels == number_at(b, 20, 2)
            &&& h.nlevels == number_at(b, 22, 2)
            &&& h.nfaces == number_at(b, 24, 4)
            &&& h.extheadersize == number_at(b, 28, 4)
            &&& h.faceinfosize == number_at(b, 32, 4)
            &&& h.constdatasize == number_at(b, 36, 4)
            &&& h.levelinfosize == number_at(b, 40, 4)
            &&& h.minorversion == number_at(b, 44, 4)
            &&& h.leveldatasize == number_at(b, 48, 8)
            &&& h.metadatazipsize == number_at(b, 56, 4)
            &&& h.metadatamemsize == number_at(b, 60, 4)
        }),
{
    numbers_are_little_endian(b, 0);
    numbers_are_little_endian(b, 4);
    numbers_are_little_endian(b, 8);
    numbers_are_little_endian(b, 12);
    numbers_are_little_endian(b, 16);
    numbers_are_little_endian(b, 20);
    numbers_are_little_endian(b, 22);
    numbers_are_little_endian(b, 24);
    numbers_are_little_endian(b, 28);
    numbers_are_little_endian(b, 32);
    numbers_are_little_endian(b, 36);
    numbers_are_little_endian(b, 40);
    numbers_are_little_endian(b, 44);
    numbers_are_little_endian(b, 48);
    numbers_are_little_endian(b, 56);
    numbers_are_little_endian(b, 60);
    signed_numbers(crate::format::spec_u32_at(b, 16) as int);
}

/// The bytes of the magic number.
proof fn lemma_magic(b: Seq<u8>)
    requires
        crate::format::spec_u32_at(b, 0) == 0x7865_7450,
    ensures
        b[0] == 0x50 && b[1] == 0x74 && b[2] == 0x65 && b[3] == 0x78,
{
}

/// The header is the first 64 bytes of the file: the magic number "Ptex", the
/// version, and the fields that give the types, counts and sizes of what
/// follows.
pub proof fn header_is_at_the_start(f: Stream, m: Arith, premultiply: bool)
    requires
        info_of(f, m, premultiply) is Ok,
    ensures
        ({
            let info = info_of(f, m, premultiply)->Ok_0;
            let b = f(0, 64)->0;
            &&& f(0, 64) is Some
            &&& b[0] == 0x50 && b[1] == 0x74 && b[2] == 0x65 && b[3] == 0x78
            &&& number_at(b, 4, 4) == 1
            &&& number_at(b, 8, 4) == match info.mesh_type {
                MeshType::Triangle => 0nat,
                MeshType::Quad => 1nat,
            }
            &&& number_at(b, 12, 4) == match info.data_type {
                DataType::UInt8 => 0nat,
                DataType::UInt16 => 1nat,
                DataType::Half => 2nat,
                DataType::Float => 3nat,
            }
            &&& info.header.alphachan == signed(number_at(b, 16, 4), 32)
            &&& info.header.nchannels == number_at(b, 20, 2)
            &&& info.header.nlevels == number_at(b, 22, 2)
            &&& info.header.nfaces == number_at(b, 24, 4)
            &&& info.header.extheadersize == number_at(b, 28, 4)
            &&& info.header.faceinfosize == number_at(b, 32, 4)
            &&& info.header.constdatasize == number_at(b, 36, 4)
            &&& info.header.levelinfosize == number_at(b, 40, 4)
            &&& info.header.minorversion == number_at(b, 44, 4)
            &&& info.header.leveldatasize == number_at(b, 48, 8)
            &&& info.header.metadatazipsize == number_at(b, 56, 4)
            &&& info.header.metadatamemsize == number_at(b, 60, 4)
            &&& info.nchannels() == info.header.nchannels
            &&& info.pixel_size == info.data_type.spec_size() * info.header.nchannels
            &&& info.premultiply == premultiply
            &&& info.faces.len() == info.header.nfaces
            &&& info.levels.len() == info.header.nlevels
        }),
{
    let b = f(0, 64)->0;
    lemma_header_fields(b);
    lemma_magic(b);
}

/// A file that does not start with the magic number is no Ptex file; one of
/// another version, or with an unknown mesh or data type, is refused with the
/// number that was found, and a header that cannot be read is an I/O error.
pub proof fn refused_headers(f: Stream, m: Arith, premultiply: bool)
    ensures
        ({
            let r = info_of(f, m, premultiply);
            match f(0, 64) {
                None => r == Err::<InfoView, ErrorView>(ErrorView::Io),
                Some(b) => {
                    let magic = number_at(b, 0, 4) == 0x7865_7450;
                    let version = number_at(b, 4, 4);
                    let mesh = number_at(b, 8, 4);
                    let data = number_at(b, 12, 4);
                    &&& !magic ==> r == Err::<InfoView, ErrorView>(ErrorView::NotAPtexFile)
                    &&& magic && version != 1 ==> r == Err::<InfoView, ErrorView>(
                        ErrorView::UnsupportedVersion(version as u32),
                    )
                    &&& magic && version == 1 && mesh > 1 ==> r == Err::<InfoView, ErrorView>(
                        ErrorView::InvalidMeshType(mesh as u32),
                    )
                    &&& magic && version == 1 && mesh <= 1 && data > 3 ==> r == Err::<
                        InfoView,
                        ErrorView,
                    >(ErrorView::InvalidDataType(data as u32))
                },
            }
        }),
{
    if let Some(b) = f(0, 64) {
        numbers_are_little_endian(b, 0);
        numbers_are_little_endian(b, 4);
        numbers_are_little_endian(b, 8);
        numbers_are_little_endian(b, 12);
    }
}

/// The extended header follows at byte 64.  It may be longer than is known, and
/// fields that a shorter one lacks are zero.
pub proof fn extended_header_follows(f: Stream, m: Arith, premultiply: bool)
    requires
        exact_reads(f),
        info_of(f, m, premultiply) is Ok,
    ensures
        ({
            let info = info_of(f, m, premultiply)->Ok_0;
            let n = if info.header.extheadersize < 40 {
                info.header.extheadersize as usize
            } else {
                40
            };
            let stored = f(64, n);
            let b = Seq::new(
                40,
                |i: int|
                    if i < n {
                        stored->0[i]
                    } else {
                        0
                    },
            );
            &&& stored is Some
            &&& info.ext_header.ubordermode == number_at(b, 0, 2)
            &&& info.ext_header.vbordermode == number_at(b, 4, 2)
            &&& info.ext_header.edgefiltermode == number_at(b, 6, 2)
            &&& info.ext_header.lmdheaderzipsize == number_at(b, 8, 4)
            &&& info.ext_header.lmdheadermemsize == number_at(b, 12, 4)
            &&& info.ext_header.lmddatasize == number_at(b, 16, 8)
            &&& info.spec_has_edits() <==> number_at(b, 24, 8) != 0
        }),
{
    let info = info_of(f, m, premultiply)->Ok_0;
    let n = if info.header.extheadersize < 40 {
        info.header.extheadersize as usize
    } else {
        40
    };
    let stored = f(64, n)->0;
    let b = Seq::new(
        40,
        |i: int|
            if i < n {
                stored[i]
            } else {
                0
            },
    );
    assert(b =~= stored + Seq::new((40 - stored.len()) as nat, |i: int| 0u8));
    numbers_are_little_endian(b, 0);
    numbers_are_little_endian(b, 4);
    numbers_are_little_endian(b, 6);
    numbers_are_little_endian(b, 8);
    numbers_are_little_endian(b, 12);
    numbers_are_little_endian(b, 16);
    numbers_are_little_endian(b, 24);
}

/// The face info table is a zip block behind the extended header.  Inflated it
/// has 20 bytes for every face: the logarithms of the resolution, the adjacent
/// edges, the flags, and at byte 4 + 4 * e the face across edge `e`.
pub proof fn face_table_is_in_order(f: Stream, m: Arith, premultiply: bool, faceid: int)
    requires
        exact_reads(f),
        info_of(f, m, premultiply) is Ok,
        0 <= faceid < info_of(f, m, premultiply)->Ok_0.faces.len(),
    ensures
        ({
            let info = info_of(f, m, premultiply)->Ok_0;
            let face = info.faces[faceid];
            let stored = f(
                (64 + info.header.extheadersize) as u64,
                info.header.faceinfosize as usize,
            );
            let table = inflated(stored->0);
            let at = 20 * faceid;
            &&& stored is Some
            &&& table is Ok
            &&& table->Ok_0.len() == 20 * info.header.nfaces
            &&& info.face(faceid) == Ok::<FaceInfo, ErrorView>(face)
            &&& face.res.ulog2 == signed(number_at(table->Ok_0, at, 1), 8)
            &&& face.res.vlog2 == signed(number_at(table->Ok_0, at + 1, 1), 8)
            &&& face.adjedges == number_at(table->Ok_0, at + 2, 1)
            &&& face.flags == number_at(table->Ok_0, at + 3, 1)
            &&& forall|e: int|
                0 <= e < 4 ==> #[trigger] face.adjfaces@[e] == signed(
                    number_at(table->Ok_0, at + 4 + 4 * e, 4),
                    32,
                )
        }),
{
    let info = info_of(f, m, premultiply)->Ok_0;
    let face = info.faces[faceid];
    let table = inflated(
        f((64 + info.header.extheadersize) as u64, info.header.faceinfosize as usize)->0,
    )->Ok_0;
    let at = 20 * faceid;
    assert(face == spec_face_info_at(table, at));
    lemma_record_exists(table, at);
    reveal_with_fuel(number_at, 2);
    signed_numbers(table[at] as int);
    signed_numbers(table[at + 1] as int);
    assert forall|e: int| 0 <= e < 4 implies #[trigger] face.adjfaces@[e] == signed(
        number_at(table, at + 4 + 4 * e, 4),
        32,
    ) by {
        numbers_are_little_endian(table, at + 4 + 4 * e);
        signed_numbers(crate::format::spec_u32_at(table, at + 4 + 4 * e) as int);
        assert(e == 0 || e == 1 || e == 2 || e == 3);
    }
}

/// Any bytes are those of a record.
proof fn lemma_record_exists(b: Seq<u8>, off: int)
    ensures
        is_face_info_at(spec_face_info_at(b, off), b, off),
{
    let adjfaces = [
        wrap_i32(crate::format::spec_u32_at(b, off + 4) as int),
        wrap_i32(crate::format::spec_u32_at(b, off + 8) as int),
        wrap_i32(crate::format::spec_u32_at(b, off + 12) as int),
        wrap_i32(crate::format::spec_u32_at(b, off + 16) as int),
    ];
    let face = FaceInfo {
        res: Res { ulog2: wrap_i8(b[off] as int), vlog2: wrap_i8(b[off + 1] as int) },
        adjedges: b[off + 2],
        flags: b[off + 3],
        adjfaces,
    };
    assert(face.adjfaces@ =~= seq![
        wrap_i32(crate::format::spec_u32_at(b, off + 4) as int),
        wrap_i32(crate::format::spec_u32_at(b, off + 8) as int),
        wrap_i32(crate::format::spec_u32_at(b, off + 12) as int),
        wrap_i32(crate::format::spec_u32_at(b, off + 16) as int),
    ]);
    assert(is_face_info_at(face, b, off));
}

/// The blocks of a file follow each other: extended header, face info table,
/// constant data, level info table, the data of the levels, meta data and the
/// header of the large meta data, the last behind eight unused bytes.
pub proof fn blocks_follow_each_other(f: Stream, m: Arith, premultiply: bool)
    requires
        info_of(f, m, premultiply) is Ok,
    ensures
        ({
            let info = info_of(f, m, premultiply)->Ok_0;
            let h = info.header;
            let levels = 64 + h.extheadersize + h.faceinfosize + h.constdatasize
                + h.levelinfosize;
            &&& info.levels.len() > 0 ==> info.level_pos[0] == levels
            &&& info.metadata_pos == levels + h.leveldatasize
            &&& info.lmdheader_pos == levels + h.leveldatasize + h.metadatazipsize + 8
        }),
{
    let info = info_of(f, m, premultiply)->Ok_0;
    let h = info.header;
    if info.levels.len() > 0 {
        lemma_level_start_grows(
            info.levels,
            crate::open::leveldata_pos(h),
            0,
            (info.levels.len() - 1) as nat,
        );
    }
}

/// The level info table has 16 bytes for every level: the size of the level's
/// data, that of its header, and its number of faces.  The levels follow each
/// other.
pub proof fn level_table_is_in_order(f: Stream, m: Arith, premultiply: bool, level: int)
    requires
        exact_reads(f),
        info_of(f, m, premultiply) is Ok,
        0 <= level < info_of(f, m, premultiply)->Ok_0.levels.len(),
    ensures
        ({
            let info = info_of(f, m, premultiply)->Ok_0;
            let h = info.header;
            let stored = f(
                (64 + h.extheadersize + h.faceinfosize + h.constdatasize) as u64,
                (16 * h.nlevels) as usize,
            );
            let li = info.levels[level];
            &&& stored is Some
            &&& h.levelinfosize == 16 * h.nlevels
            &&& info.level_pos.len() == info.levels.len()
            &&& li.leveldatasize == number_at(stored->0, 16 * level, 8)
            &&& li.levelheadersize == number_at(stored->0, 16 * level + 8, 4)
            &&& li.nfaces == number_at(stored->0, 16 * level + 12, 4)
            &&& info.level_nfaces(level) == li.nfaces
            &&& level + 1 < info.levels.len() ==> info.level_pos[level + 1]
                == info.level_pos[level] + li.leveldatasize
        }),
{
    let info = info_of(f, m, premultiply)->Ok_0;
    let h = info.header;
    let stored = f(
        (64 + h.extheadersize + h.faceinfosize + h.constdatasize) as u64,
        (16 * h.nlevels) as usize,
    )->0;
    let rec = stored.subrange(16 * level, 16 * level + 16);
    numbers_are_little_endian(rec, 0);
    numbers_are_little_endian(rec, 8);
    numbers_are_little_endian(rec, 12);
    lemma_same_number(rec, 0, stored, 16 * level, 8);
    lemma_same_number(rec, 8, stored, 16 * level + 8, 4);
    lemma_same_number(rec, 12, stored, 16 * level + 12, 4);
    let base = crate::open::leveldata_pos(h);
    let last = (info.levels.len() - 1) as nat;
    lemma_level_start_grows(info.levels, base, 0, level as nat);
    lemma_level_start_grows(info.levels, base, level as nat, last);
    if level + 1 < info.levels.len() {
        lemma_level_start_grows(info.levels, base, (level + 1) as nat, last);
    }
}

/// The constant data is a zip block behind the face info table, and inflates to
/// one pixel for every face, in the order of the faces.  Opened with
/// premultiplication, a file with an alpha channel has the color channels of
/// these pixels multiplied by alpha; alpha itself and the channels behind it
/// stay.
pub proof fn constant_data_has_a_pixel_per_face(
    f: Stream,
    m: Arith,
    premultiply: bool,
    faceid: int,
    c: int,
)
    requires
        exact_reads(f),
        info_of(f, m, premultiply) is Ok,
        0 <= faceid < info_of(f, m, premultiply)->Ok_0.faces.len(),
        0 <= c < info_of(f, m, premultiply)->Ok_0.nchannels(),
    ensures
        ({
            let info = info_of(f, m, premultiply)->Ok_0;
            let h = info.header;
            let dt = info.data_type;
            let size = dt.spec_size();
            let stored = f(
                (64 + h.extheadersize + h.faceinfosize) as u64,
                h.constdatasize as usize,
            );
            let table = inflated(stored->0);
            let alphachan = h.alphachan as int;
            let value = number_at(table->Ok_0, faceid * info.pixel_size + c * size, size);
            let alpha = number_at(
                table->Ok_0,
                faceid * info.pixel_size + alphachan * size,
                size,
            );
            let product = m(
                PixelOp::Scale { dt, value: value as u32, alpha: alpha as u32 },
            ) as int;
            let scaled = premultiply && 0 <= alphachan < info.nchannels() && ((alphachan == 0 && c
                > 0) || c < alphachan);
            &&& stored is Some
            &&& table is Ok
            &&& table->Ok_0.len() == info.pixel_size * h.nfaces
            &&& info.constant_pixel(faceid).len() == info.pixel_size
            &&& number_at(info.constant_pixel(faceid), c * size, size) == if scaled {
                match dt {
                    DataType::UInt8 => product % 0x100,
                    DataType::UInt16 => product % 0x1_0000,
                    DataType::Half => product % 0x1_0000,
                    DataType::Float => product,
                }
            } else {
                value as int
            }
        }),
{
    let info = info_of(f, m, premultiply)->Ok_0;
    let h = info.header;
    let dt = info.data_type;
    let es = dt.spec_size() as int;
    let ps = info.pixel_size as int;
    let nc = info.nchannels() as int;
    let n = info.faces.len() as int;
    let stored = f(
        (64 + h.extheadersize + h.faceinfosize) as u64,
        h.constdatasize as usize,
    )->0;
    let table = inflated(stored)->Ok_0;
    crate::open::lemma_pixel_size(h);
    assert(nc * es == ps) by (nonlinear_arith)
        requires
            ps == es * nc,
    ;
    lemma_grid_end(faceid, n, ps);
    lemma_grid_end(c, nc, es);
    assert(ps * n == n * ps) by (nonlinear_arith);
    if premultiply && 0 <= h.alphachan < nc {
        premultiplying_scales_colors(
            m,
            table,
            h.nfaces as int,
            dt,
            nc,
            h.alphachan as int,
            faceid,
            c,
        );
    }
    let pixel = info.constant_pixel(faceid);
    let data = info.const_data;
    assert forall|k: int| 0 <= k < es implies #[trigger] pixel[c * es + k] == data[faceid * ps + c
        * es + k] by {}
    lemma_same_number(pixel, c * es, data, faceid * ps + c * es, es as nat);
}

/// Whether a face is constant is the lowest bit of its flags.
pub proof fn constant_flag_is_the_lowest_bit(face: FaceInfo)
    ensures
        face.spec_is_constant() <==> face.flags % 2 == 1,
        crate::face_flags::CONSTANT == 1,
        crate::face_flags::OBSOLETE == 2,
        crate::face_flags::NEIGHBORHOOD_CONSTANT == 4,
        crate::face_flags::SUBFACE == 8,
{
    let flags = face.flags;
    assert((flags & 1 != 0) == (flags % 2 == 1)) by (bit_vector);
}

/// In a reduction level faces stand in the order of decreasing detail, which is
/// the logarithm of the smaller dimension, or 1 for a constant face; faces of
/// equal detail stand in the order of their ids.
pub proof fn reduced_faces_are_ordered(
    f: Stream,
    m: Arith,
    premultiply: bool,
    a: int,
    b: int,
)
    requires
        info_of(f, m, premultiply) is Ok,
        0 <= a < info_of(f, m, premultiply)->Ok_0.faces.len(),
        0 <= b < info_of(f, m, premultiply)->Ok_0.faces.len(),
    ensures
        ({
            let info = info_of(f, m, premultiply)->Ok_0;
            let fa = info.faces[a];
            let fb = info.faces[b];
            let da = if fa.flags % 2 == 1 {
                1
            } else if fa.res.ulog2 < fa.res.vlog2 {
                fa.res.ulog2
            } else {
                fa.res.vlog2
            };
            let db = if fb.flags % 2 == 1 {
                1
            } else if fb.res.ulog2 < fb.res.vlog2 {
                fb.res.ulog2
            } else {
                fb.res.vlog2
            };
            &&& info.rfaceids.len() == info.faces.len()
            &&& info.rfaceids[a] < info.faces.len()
            &&& info.rfaceids[a] < info.rfaceids[b] <==> da > db || (da == db && a < b)
        }),
{
    let info = info_of(f, m, premultiply)->Ok_0;
    let faces = info.faces;
    constant_flag_is_the_lowest_bit(faces[a]);
    constant_flag_is_the_lowest_bit(faces[b]);
    ranks_are_a_permutation(faces);
    assert(faces.len() <= u32::MAX);
    assert(rank(faces, a) < faces.len() && rank(faces, b) < faces.len());
    let da = crate::ranking::detail(faces[a]);
    let db = crate::ranking::detail(faces[b]);
    if da > db || (da == db && a < b) {
        ranks_are_sorted(faces, a, b);
    } else if a != b {
        ranks_are_sorted(faces, b, a);
    }
    assert(info.rfaceids == ranks(faces));
}

/// Numbers of the modes and types that a file stores, and their sizes.
pub proof fn stored_codes(v: u8)
    ensures
        MeshType::spec_from_u32(v as u32) is Ok <==> v <= 1,
        DataType::spec_from_u32(v as u32) is Ok <==> v <= 3,
        MetaDataType::spec_from_u8(v) is Ok <==> v <= 5,
        MetaDataType::spec_from_u8(v) is Ok ==> v == match MetaDataType::spec_from_u8(v)->Ok_0 {
            MetaDataType::String => 0int,
            MetaDataType::Int8 => 1int,
            MetaDataType::Int16 => 2int,
            MetaDataType::Int32 => 3int,
            MetaDataType::Float => 4int,
            MetaDataType::Double => 5int,
        },
        v as int % 4 == match EdgeId::spec_from_u8(v) {
            EdgeId::Bottom => 0int,
            EdgeId::Right => 1int,
            EdgeId::Top => 2int,
            EdgeId::Left => 3int,
        },
{
}

/// Border modes are numbered from 0, clamping standing for every unknown
/// number; of the edge filter modes, 1 is the one that rotates tangent vectors.
pub proof fn stored_modes(v: u16)
    ensures
        BorderMode::spec_from_u16(v) == match v {
            1 => BorderMode::Black,
            2 => BorderMode::Periodic,
            _ => BorderMode::Clamp,
        },
        EdgeFilterMode::spec_from_u16(v) is TangentVector <==> v == 1,
{
}

/// Sum of the data sizes of the first `n` levels in a level info table.
pub open spec fn levels_before(table: Seq<u8>, n: nat) -> nat
    decreases n,
{
    if n == 0 {
        0
    } else {
        levels_before(table, (n - 1) as nat) + number_at(table, 16 * (n - 1), 8)
    }
}

proof fn lemma_levels_before(table: Seq<u8>, base: int, nlevels: nat, n: nat)
    requires
        n <= nlevels,
        table.len() == 16 * nlevels,
    ensures
        crate::open::level_start(crate::open::level_records(table, nlevels), base, n) == base
            + levels_before(table, n),
    decreases n,
{
    if n > 0 {
        lemma_levels_before(table, base, nlevels, (n - 1) as nat);
        let rec = table.subrange(16 * (n - 1), 16 * (n - 1) + 16);
        numbers_are_little_endian(rec, 0);
        lemma_same_number(rec, 0, table, 16 * (n - 1), 8);
    }
}

/// A file opens exactly if its header is one of a Ptex file of version 1 with
/// known types, every table can be read and has the size that the header gives
/// it, inflated where it is compressed, and every block starts at a position
/// that can be expressed.
pub proof fn files_that_open(f: Stream, m: Arith, premultiply: bool)
    requires
        exact_reads(f),
    ensures
        ({
            let head = f(0, 64);
            let b = head->0;
            let nchannels = number_at(b, 20, 2);
            let nlevels = number_at(b, 22, 2);
            let nfaces = number_at(b, 24, 4);
            let ext_size = number_at(b, 28, 4);
            let face_size = number_at(b, 32, 4);
            let const_size = number_at(b, 36, 4);
            let level_size = number_at(b, 40, 4);
            let ext = f(
                64,
                if ext_size < 40 {
                    ext_size as usize
                } else {
                    40
                },
            );
            let faces = f((64 + ext_size) as u64, face_size as usize);
            let constants = f((64 + ext_size + face_size) as u64, const_size as usize);
            let levels = f(
                (64 + ext_size + face_size + const_size) as u64,
                (16 * nlevels) as usize,
            );
            let data = 64 + ext_size + face_size + const_size + level_size;
            let size = if number_at(b, 12, 4) == 0 {
                1nat
            } else if number_at(b, 12, 4) == 3 {
                4nat
            } else {
                2nat
            };
            info_of(f, m, premultiply) is Ok <==> {
                &&& head is Some
                &&& number_at(b, 0, 4) == 0x7865_7450
                &&& number_at(b, 4, 4) == 1
                &&& number_at(b, 8, 4) <= 1
                &&& number_at(b, 12, 4) <= 3
                &&& ext is Some
                &&& data + number_at(b, 48, 8) + number_at(b, 56, 4) + 8 <= u64::MAX
                &&& faces is Some && inflated(faces->0) is Ok && inflated(faces->0)->Ok_0.len()
                    == 20 * nfaces
                &&& constants is Some && inflated(constants->0) is Ok && inflated(
                    constants->0,
                )->Ok_0.len() == (size * nchannels) * nfaces
                &&& level_size == 16 * nlevels
                &&& levels is Some
                &&& nlevels > 0 ==> data + levels_before(levels->0, (nlevels - 1) as nat)
                    <= u64::MAX
            }
        }),
{
    if let Some(b) = f(0, 64) {
        lemma_header_fields(b);
        let h = Header::spec_parse(b);
        if DataType::spec_from_u32(h.datatype) is Ok {
            crate::open::lemma_pixel_size(h);
        }
        let levels = f(
            crate::open::levelinfo_pos(h) as u64,
            (16 * h.nlevels) as usize,
        );
        if levels is Some && h.nlevels > 0 {
            lemma_levels_before(
                levels->0,
                crate::open::leveldata_pos(h),
                h.nlevels as nat,
                (h.nlevels - 1) as nat,
            );
        }
    }
}

/// Premultiplication changes nothing of what opening a file gives but the
/// constant data, and a file opens with it exactly if it opens without.
pub proof fn premultiplying_keeps_the_tables(f: Stream, m: Arith)
    ensures
        ({
            let with = info_of(f, m, true);
            let without = info_of(f, m, false);
            &&& with is Ok <==> without is Ok
            &&& with is Err ==> with == without
            &&& with is Ok ==> with->Ok_0 == InfoView {
                premultiply: true,
                const_data: with->Ok_0.const_data,
                ..without->Ok_0
            }
        }),
{
}

} // verus!
