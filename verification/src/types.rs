//! Common data structures and enums used throughout the API.

use crate::error::{push_decimal, Error, ErrorView};
use crate::face_flags;
use vstd::arithmetic::power2::pow2;
use vstd::prelude::*;

verus! {

/// Type of base mesh for which the textures are defined.  A mesh
/// can be triangle-based (with triangular textures) or quad-based
/// (with rectangular textures).
#[derive(Debug, Clone, Copy, PartialEq, Eq, Hash, Structural)]
pub enum MeshType {
    /// Mesh is triangle-based.
    Triangle,
    /// Mesh is quad-based.
    Quad,
}

impl MeshType {
    /// Mesh type with the given number in a file header.
    pub open spec fn spec_from_u32(v: u32) -> Result<MeshType, ErrorView> {
        if v == 0 {
            Ok(MeshType::Triangle)
        } else if v == 1 {
            Ok(MeshType::Quad)
        } else {
            Err(ErrorView::InvalidMeshType(v))
        }
    }

    pub(crate) fn from_u32(v: u32) -> (r: Result<Self, Error>)
        ensures
            crate::error::view_result(r) == Self::spec_from_u32(v),
    {
        match v {
            0 => Ok(MeshType::Triangle),
            1 => Ok(MeshType::Quad),
            _ => Err(Error::InvalidMeshType(v)),
        }
    }

    /// Look up the name of the mesh type ("triangle" or "quad").
    pub fn name(self) -> (s: &'static str)
        ensures
            s@ == (match self {
                MeshType::Triangle => "triangle"@,
                MeshType::Quad => "quad"@,
            }),
    {
        match self {
            MeshType::Triangle => "triangle",
            MeshType::Quad => "quad",
        }
    }
}

/// Type of data stored in texture file.
#[derive(Debug, Clone, Copy, PartialEq, Eq, Hash, Structural)]
pub enum DataType {
    /// Unsigned, 8-bit integer.
    UInt8,
    /// Unsigned, 16-bit integer.
    UInt16,
    /// Half-precision (16-bit) floating point.
    Half,
    /// Single-precision (32-bit) floating point.
    Float,
}

impl DataType {
    /// Data type with the given number in a file header.
    pub open spec fn spec_from_u32(v: u32) -> Result<DataType, ErrorView> {
        if v == 0 {
            Ok(DataType::UInt8)
        } else if v == 1 {
            Ok(DataType::UInt16)
        } else if v == 2 {
            Ok(DataType::Half)
        } else if v == 3 {
            Ok(DataType::Float)
        } else {
            Err(ErrorView::InvalidDataType(v))
        }
    }

    pub(crate) fn from_u32(v: u32) -> (r: Result<Self, Error>)
        ensures
            crate::error::view_result(r) == Self::spec_from_u32(v),
    {
        match v {
            0 => Ok(DataType::UInt8),
            1 => Ok(DataType::UInt16),
            2 => Ok(DataType::Half),
            3 => Ok(DataType::Float),
            _ => Err(Error::InvalidDataType(v)),
        }
    }

    /// Size of the data type in bytes.
    pub open spec fn spec_size(self) -> nat {
        match self {
            DataType::UInt8 => 1,
            DataType::UInt16 => 2,
            DataType::Half => 2,
            DataType::Float => 4,
        }
    }

    /// Size of the data type in bytes.
    pub fn size(self) -> (n: usize)
        ensures
            n == self.spec_size(),
    {
        match self {
            DataType::UInt8 => 1,
            DataType::UInt16 => 2,
            DataType::Half => 2,
            DataType::Float => 4,
        }
    }

    /// Look up the name of the data type ("uint8", "uint16", "float16" or
    /// "float32").
    pub fn name(self) -> (s: &'static str)
        ensures
            s@ == (match self {
                DataType::UInt8 => "uint8"@,
                DataType::UInt16 => "uint16"@,
                DataType::Half => "float16"@,
                DataType::Float => "float32"@,
            }),
    {
        match self {
            DataType::UInt8 => "uint8",
            DataType::UInt16 => "uint16",
            DataType::Half => "float16",
            DataType::Float => "float32",
        }
    }
}

/// How to handle transformation across edges when filtering.
#[derive(Debug, Clone, Copy, PartialEq, Eq, Hash, Structural)]
pub enum EdgeFilterMode {
    /// Don't do anything with the values.
    Unfiltered,
    /// Values are vectors in tangent space; rotate values.
    TangentVector,
}

impl EdgeFilterMode {
    /// Mode with the given number in a file header; unknown numbers mean
    /// that nothing is done.
    pub open spec fn spec_from_u16(v: u16) -> EdgeFilterMode {
        if v == 1 {
            EdgeFilterMode::TangentVector
        } else {
            EdgeFilterMode::Unfiltered
        }
    }

    pub(crate) fn from_u16(v: u16) -> (r: Self)
        ensures
            r == Self::spec_from_u16(v),
    {
        match v {
            1 => EdgeFilterMode::TangentVector,
            _ => EdgeFilterMode::Unfiltered,
        }
    }

    /// Look up the name of the edge filter mode.
    pub fn name(self) -> (s: &'static str)
        ensures
            s@ == (match self {
                EdgeFilterMode::Unfiltered => "none"@,
                EdgeFilterMode::TangentVector => "tanvec"@,
            }),
    {
        match self {
            EdgeFilterMode::Unfiltered => "none",
            EdgeFilterMode::TangentVector => "tanvec",
        }
    }
}

/// How to handle mesh border when filtering.
#[derive(Debug, Clone, Copy, PartialEq, Eq, Hash, Structural)]
pub enum BorderMode {
    /// Texel access is clamped to border.
    Clamp,
    /// Texels beyond border are assumed to be black.
    Black,
    /// Texel access wraps to other side of face.
    Periodic,
}

impl BorderMode {
    /// Mode with the given number in a file header; unknown numbers mean
    /// clamping.
    pub open spec fn spec_from_u16(v: u16) -> BorderMode {
        if v == 1 {
            BorderMode::Black
        } else if v == 2 {
            BorderMode::Periodic
        } else {
            BorderMode::Clamp
        }
    }

    pub(crate) fn from_u16(v: u16) -> (r: Self)
        ensures
            r == Self::spec_from_u16(v),
    {
        match v {
            1 => BorderMode::Black,
            2 => BorderMode::Periodic,
            _ => BorderMode::Clamp,
        }
    }

    /// Look up the name of the border mode.
    pub fn name(self) -> (s: &'static str)
        ensures
            s@ == (match self {
                BorderMode::Clamp => "clamp"@,
                BorderMode::Black => "black"@,
                BorderMode::Periodic => "periodic"@,
            }),
    {
        match self {
            BorderMode::Clamp => "clamp",
            BorderMode::Black => "black",
            BorderMode::Periodic => "periodic",
        }
    }
}

/// Edge IDs used in adjacency data in the [`FaceInfo`] struct.
/// Edge ID usage for triangle meshes is TBD.
#[derive(Debug, Clone, Copy, PartialEq, Eq, Hash, Structural)]
pub enum EdgeId {
    /// Bottom edge, from UV (0,0) to (1,0).
    Bottom,
    /// Right edge, from UV (1,0) to (1,1).
    Right,
    /// Top edge, from UV (1,1) to (0,1).
    Top,
    /// Left edge, from UV (0,1) to (0,0).
    Left,
}

impl EdgeId {
    /// Edge with the given number, of which only the two low bits count.
    pub open spec fn spec_from_u8(v: u8) -> EdgeId {
        if v % 4 == 0 {
            EdgeId::Bottom
        } else if v % 4 == 1 {
            EdgeId::Right
        } else if v % 4 == 2 {
            EdgeId::Top
        } else {
            EdgeId::Left
        }
    }

    pub(crate) fn from_u8(v: u8) -> (r: Self)
        ensures
            r == Self::spec_from_u8(v),
    {
        match v % 4 {
            0 => EdgeId::Bottom,
            1 => EdgeId::Right,
            2 => EdgeId::Top,
            _ => EdgeId::Left,
        }
    }

    /// Look up the name of the edge id.
    pub fn name(self) -> (s: &'static str)
        ensures
            s@ == (match self {
                EdgeId::Bottom => "bottom"@,
                EdgeId::Right => "right"@,
                EdgeId::Top => "top"@,
                EdgeId::Left => "left"@,
            }),
    {
        match self {
            EdgeId::Bottom => "bottom",
            EdgeId::Right => "right",
            EdgeId::Top => "top",
            EdgeId::Left => "left",
        }
    }
}

/// Type of a meta data entry.
#[derive(Debug, Clone, Copy, PartialEq, Eq, Hash, Structural)]
pub enum MetaDataType {
    /// Null-terminated string.
    String,
    /// Signed 8-bit integer.
    Int8,
    /// Signed 16-bit integer.
    Int16,
    /// Signed 32-bit integer.
    Int32,
    /// Single-precision (32-bit) floating point.
    Float,
    /// Double-precision (64-bit) floating point.
    Double,
}

impl MetaDataType {
    /// Type with the given number in a meta data block.
    pub open spec fn spec_from_u8(v: u8) -> Result<MetaDataType, ErrorView> {
        if v == 0 {
            Ok(MetaDataType::String)
        } else if v == 1 {
            Ok(MetaDataType::Int8)
        } else if v == 2 {
            Ok(MetaDataType::Int16)
        } else if v == 3 {
            Ok(MetaDataType::Int32)
        } else if v == 4 {
            Ok(MetaDataType::Float)
        } else if v == 5 {
            Ok(MetaDataType::Double)
        } else {
            Err(
                ErrorView::Corrupt(
                    "invalid meta data type ("@ + crate::error::decimal(v as nat) + ")"@,
                ),
            )
        }
    }

    pub(crate) fn from_u8(v: u8) -> (r: Result<Self, Error>)
        ensures
            crate::error::view_result(r) == Self::spec_from_u8(v),
    {
        match v {
            0 => Ok(MetaDataType::String),
            1 => Ok(MetaDataType::Int8),
            2 => Ok(MetaDataType::Int16),
            3 => Ok(MetaDataType::Int32),
            4 => Ok(MetaDataType::Float),
            5 => Ok(MetaDataType::Double),
            _ => {
                let mut msg = String::from_str("invalid meta data type (");
                push_decimal(&mut msg, v as u64);
                msg.append(")");
                Err(Error::Corrupt(msg))
            },
        }
    }

    /// Size of one value, in bytes.
    pub open spec fn spec_size(self) -> nat {
        match self {
            MetaDataType::String | MetaDataType::Int8 => 1,
            MetaDataType::Int16 => 2,
            MetaDataType::Int32 | MetaDataType::Float => 4,
            MetaDataType::Double => 8,
        }
    }

    /// Look up the name of the meta data type.
    pub fn name(self) -> (s: &'static str)
        ensures
            s@ == (match self {
                MetaDataType::String => "string"@,
                MetaDataType::Int8 => "int8"@,
                MetaDataType::Int16 => "int16"@,
                MetaDataType::Int32 => "int32"@,
                MetaDataType::Float => "float"@,
                MetaDataType::Double => "double"@,
            }),
    {
        match self {
            MetaDataType::String => "string",
            MetaDataType::Int8 => "int8",
            MetaDataType::Int16 => "int16",
            MetaDataType::Int32 => "int32",
            MetaDataType::Float => "float",
            MetaDataType::Double => "double",
        }
    }
}

/// The `i8` with the bit pattern of `v` modulo 256.
pub open spec fn wrap_i8(v: int) -> i8 {
    if v % 256 < 128 {
        (v % 256) as i8
    } else {
        (v % 256 - 256) as i8
    }
}

/// The `i32` with the bit pattern of `v` modulo 2^32.
pub open spec fn wrap_i32(v: int) -> i32 {
    if v % 0x1_0000_0000 < 0x8000_0000 {
        (v % 0x1_0000_0000) as i32
    } else {
        (v % 0x1_0000_0000 - 0x1_0000_0000) as i32
    }
}

/// Reinterpret a byte as signed.
pub(crate) fn signed8(v: u8) -> (r: i8)
    ensures
        r == wrap_i8(v as int),
{
    if v < 128 {
        v as i8
    } else {
        (v as i16 - 256) as i8
    }
}

/// Reinterpret a 32-bit word as signed.
pub(crate) fn signed32(v: u32) -> (r: i32)
    ensures
        r == wrap_i32(v as int),
{
    if v < 0x8000_0000 {
        v as i32
    } else {
        (v as i64 - 0x1_0000_0000) as i32
    }
}

fn unsigned8(v: i8) -> (r: u8)
    ensures
        r == v as int % 256,
{
    if v >= 0 {
        v as u8
    } else {
        (v as i16 + 256) as u8
    }
}

/// Number of texels along an edge whose log2 is `log2`; only the five low
/// bits of the logarithm count.
pub open spec fn dim(log2: i8) -> nat {
    pow2((log2 as int % 32) as nat)
}

/// `1 << n`.
pub(crate) fn pow2_usize(n: usize) -> (r: usize)
    requires
        n < usize::BITS,
    ensures
        r == pow2(n as nat),
{
    proof {
        vstd::bits::lemma_usize_pow2_no_overflow(n as nat);
        vstd::bits::lemma_usize_shl_is_mul(1, n);
    }
    1usize << n
}

fn dim_usize(log2: i8) -> (r: usize)
    ensures
        r == dim(log2),
        0 < r <= 0x8000_0000,
{
    let n: usize = ((log2 as i16 + 128) % 32) as usize;
    proof {
        lemma_dim(log2);
    }
    pow2_usize(n)
}

/// A product of powers of two that can be counted.
pub proof fn lemma_pow2_product(a: nat, b: nat)
    requires
        a + b < usize::BITS,
    ensures
        pow2(a) * pow2(b) <= usize::MAX,
        pow2(a) * pow2(b)
            == pow2(a + b),
{
    vstd::arithmetic::power2::lemma_pow2_adds(a, b);
    vstd::bits::lemma_usize_pow2_no_overflow(a + b);
}

/// Pixel resolution of a given texture.
///
/// The resolution is stored in log form: `ulog2 = log2(ures)`,
/// `vlog2 = log2(vres)`.
/// Note: negative `ulog2` or `vlog2` values are reserved for internal use.
#[derive(Debug, Clone, Copy, PartialEq, Eq, Hash, Structural)]
pub struct Res {
    /// log base 2 of u resolution, in texels.
    pub ulog2: i8,
    /// log base 2 of v resolution, in texels.
    pub vlog2: i8,
}

impl Default for Res {
    fn default() -> (r: Self)
        ensures
            r == (Res { ulog2: 0, vlog2: 0 }),
    {
        Res { ulog2: 0, vlog2: 0 }
    }
}

impl Res {
    /// U resolution in texels.
    pub open spec fn spec_u(self) -> nat {
        dim(self.ulog2)
    }

    /// V resolution in texels.
    pub open spec fn spec_v(self) -> nat {
        dim(self.vlog2)
    }

    /// Number of texels.
    pub open spec fn spec_size(self) -> nat {
        self.spec_u() * self.spec_v()
    }

    /// Number of tiles in the u direction.
    pub open spec fn spec_ntilesu(self, tileres: Res) -> nat {
        pow2((self.ulog2 - tileres.ulog2) as nat)
    }

    /// Number of tiles in the v direction.
    pub open spec fn spec_ntilesv(self, tileres: Res) -> nat {
        pow2((self.vlog2 - tileres.vlog2) as nat)
    }

    /// Total number of tiles.
    pub open spec fn spec_ntiles(self, tileres: Res) -> nat {
        self.spec_ntilesu(tileres) * self.spec_ntilesv(tileres)
    }

    /// Packed 16-bit value of the resolution.
    pub open spec fn spec_val(self) -> u16 {
        (self.ulog2 as int % 256 + 256 * (self.vlog2 as int % 256)) as u16
    }

    /// Resolution with the given packed 16-bit value.
    pub open spec fn spec_from_val(value: u16) -> Res {
        Res { ulog2: wrap_i8(value as int), vlog2: wrap_i8(value as int / 256) }
    }

    /// The number of texels can be counted.
    pub open spec fn is_countable(self) -> bool {
        self.ulog2 as int % 32 + self.vlog2 as int % 32 < usize::BITS
    }

    /// The resolution divides into tiles that can be counted.
    pub open spec fn divides_into(self, tileres: Res) -> bool {
        &&& 0 <= self.ulog2 - tileres.ulog2
        &&& 0 <= self.vlog2 - tileres.vlog2
        &&& (self.ulog2 - tileres.ulog2) + (self.vlog2 - tileres.vlog2) < usize::BITS
    }

    /// Create a resolution from log2 u and v sizes.
    pub fn new(ulog2: i8, vlog2: i8) -> (r: Self)
        ensures
            r == (Res { ulog2, vlog2 }),
    {
        Res { ulog2, vlog2 }
    }

    /// Create a resolution from a packed 16-bit value (as stored on disk).
    pub fn from_val(value: u16) -> (r: Self)
        ensures
            r == Self::spec_from_val(value),
    {
        Res { ulog2: signed8((value % 256) as u8), vlog2: signed8((value / 256) as u8) }
    }

    /// U resolution in texels.
    pub fn u(self) -> (n: usize)
        ensures
            n == self.spec_u(),
            0 < n <= 0x8000_0000,
    {
        dim_usize(self.ulog2)
    }

    /// V resolution in texels.
    pub fn v(self) -> (n: usize)
        ensures
            n == self.spec_v(),
            0 < n <= 0x8000_0000,
    {
        dim_usize(self.vlog2)
    }

    /// Resolution as a single 16-bit integer value.
    pub fn val(self) -> (r: u16)
        ensures
            r == self.spec_val(),
    {
        unsigned8(self.ulog2) as u16 + 256 * unsigned8(self.vlog2) as u16
    }

    /// Total size of the texture in texels (u * v).
    pub fn size(self) -> (n: usize)
        requires
            self.is_countable(),
        ensures
            n == self.spec_size(),
            n == pow2(
                (self.ulog2 as int % 32 + self.vlog2 as int % 32) as nat,
            ),
    {
        proof {
            lemma_pow2_product(
                (self.ulog2 as int % 32) as nat,
                (self.vlog2 as int % 32) as nat,
            );
        }
        self.u() * self.v()
    }

    /// Get value of resolution with u and v swapped.
    pub fn swappeduv(self) -> (r: Res)
        ensures
            r == (Res { ulog2: self.vlog2, vlog2: self.ulog2 }),
    {
        Res::new(self.vlog2, self.ulog2)
    }

    /// Clamp the resolution value against the given value.
    pub fn clamp(&mut self, r: Res)
        ensures
            final(self).ulog2 == if old(self).ulog2 > r.ulog2 { r.ulog2 } else { old(self).ulog2 },
            final(self).vlog2 == if old(self).vlog2 > r.vlog2 { r.vlog2 } else { old(self).vlog2 },
    {
        if self.ulog2 > r.ulog2 {
            self.ulog2 = r.ulog2;
        }
        if self.vlog2 > r.vlog2 {
            self.vlog2 = r.vlog2;
        }
    }

    /// Determine the number of tiles in the u direction for the given tile res.
    pub fn ntilesu(self, tileres: Res) -> (n: usize)
        requires
            0 <= self.ulog2 - tileres.ulog2 < usize::BITS,
        ensures
            n == self.spec_ntilesu(tileres),
            n > 0,
    {
        proof {
            vstd::arithmetic::power2::lemma_pow2_pos((self.ulog2 - tileres.ulog2) as nat);
        }
        pow2_usize((self.ulog2 - tileres.ulog2) as usize)
    }

    /// Determine the number of tiles in the v direction for the given tile res.
    pub fn ntilesv(self, tileres: Res) -> (n: usize)
        requires
            0 <= self.vlog2 - tileres.vlog2 < usize::BITS,
        ensures
            n == self.spec_ntilesv(tileres),
            n > 0,
    {
        proof {
            vstd::arithmetic::power2::lemma_pow2_pos((self.vlog2 - tileres.vlog2) as nat);
        }
        pow2_usize((self.vlog2 - tileres.vlog2) as usize)
    }

    /// Determine the total number of tiles for the given tile res.
    pub fn ntiles(self, tileres: Res) -> (n: usize)
        requires
            self.divides_into(tileres),
        ensures
            n == self.spec_ntiles(tileres),
            n == pow2(
                ((self.ulog2 - tileres.ulog2) + (self.vlog2 - tileres.vlog2)) as nat,
            ),
    {
        proof {
            lemma_pow2_product(
                (self.ulog2 - tileres.ulog2) as nat,
                (self.vlog2 - tileres.vlog2) as nat,
            );
        }
        self.ntilesu(tileres) * self.ntilesv(tileres)
    }

    /// True if res is 1x1 texel.
    pub fn is_one(self) -> (b: bool)
        ensures
            b == (self.ulog2 == 0 && self.vlog2 == 0),
    {
        self.ulog2 == 0 && self.vlog2 == 0
    }
}

/// Information about a face, as stored in the Ptex file header.
///
/// The FaceInfo data contains the face resolution and neighboring face
/// adjacency information as well as a set of flags describing the face.
///
/// The `adjfaces` data member contains the face ids of the four neighboring
/// faces.  The neighbors are accessed in [`EdgeId`] order, CCW, starting with
/// the bottom edge.  The `adjedges` data member contains the corresponding
/// edge id for each neighboring face.
///
/// If a face has no neighbor for a given edge, the adjface id should be -1,
/// and the adjedge id doesn't matter (but is typically zero).
///
/// If an adjacent face is a pair of subfaces, the id of the first subface as
/// encountered in a CCW traversal should be stored as the adjface id.
#[derive(Debug, Clone, Copy, PartialEq, Eq)]
pub struct FaceInfo {
    /// Resolution of face.
    pub res: Res,
    /// Adjacent edges, 2 bits per edge.
    pub adjedges: u8,
    /// Flags (see [`face_flags`]).
    pub flags: u8,
    /// Adjacent faces (-1 == no adjacent face).
    pub adjfaces: [i32; 4],
}

impl Default for FaceInfo {
    fn default() -> (r: Self)
        ensures
            r.res == (Res { ulog2: 0, vlog2: 0 }),
            r.adjedges == 0,
            r.flags == 0,
            r.adjfaces@ == seq![-1i32, -1i32, -1i32, -1i32],
    {
        let r = FaceInfo { res: Res::default(), adjedges: 0, flags: 0, adjfaces: [-1, -1, -1, -1] };
        assert(r.adjfaces@ =~= seq![-1i32, -1i32, -1i32, -1i32]);
        r
    }
}

impl FaceInfo {
    /// True if the constant flag is set.
    pub open spec fn spec_is_constant(self) -> bool {
        self.flags & face_flags::CONSTANT != 0
    }

    /// Access an adjacent edge id.  The `eid` value must be 0..3.
    pub fn adjedge(&self, eid: usize) -> (e: EdgeId)
        requires
            eid < 4,
        ensures
            e == EdgeId::spec_from_u8(
                (self.adjedges as int / vstd::arithmetic::power::pow(4, eid as nat)) as u8,
            ),
    {
        proof {
            assert(vstd::arithmetic::power::pow(4, 0) == 1 && vstd::arithmetic::power::pow(4, 1)
                == 4 && vstd::arithmetic::power::pow(4, 2) == 16 && vstd::arithmetic::power::pow(
                4,
                3,
            ) == 64) by {
                reveal_with_fuel(vstd::arithmetic::power::pow, 4);
            }
        }
        match eid {
            0 => EdgeId::from_u8(self.adjedges),
            1 => EdgeId::from_u8(self.adjedges / 4),
            2 => EdgeId::from_u8(self.adjedges / 16),
            _ => EdgeId::from_u8(self.adjedges / 64),
        }
    }

    /// Access an adjacent face id.  The `eid` value must be 0..3.
    pub fn adjface(&self, eid: usize) -> (f: i32)
        requires
            eid < 4,
        ensures
            f == self.adjfaces@[eid as int],
    {
        self.adjfaces[eid]
    }

    /// Determine if the face is constant (by checking a flag).
    pub fn is_constant(&self) -> (b: bool)
        ensures
            b == self.spec_is_constant(),
    {
        self.flags & face_flags::CONSTANT != 0
    }

    /// Determine if the neighborhood of the face is constant (by checking a flag).
    pub fn is_neighborhood_constant(&self) -> (b: bool)
        ensures
            b == (self.flags & face_flags::NEIGHBORHOOD_CONSTANT != 0),
    {
        self.flags & face_flags::NEIGHBORHOOD_CONSTANT != 0
    }

    /// Determine if the face is a subface (by checking a flag).
    pub fn is_subface(&self) -> (b: bool)
        ensures
            b == (self.flags & face_flags::SUBFACE != 0),
    {
        self.flags & face_flags::SUBFACE != 0
    }
}

proof fn lemma_dim(log2: i8)
    ensures
        0 < dim(log2) <= 0x8000_0000,
{
    let n = (log2 as int % 32) as nat;
    vstd::arithmetic::power2::lemma_pow2_pos(n);
    vstd::arithmetic::power2::lemma2_to64();
    if n < 31 {
        vstd::arithmetic::power2::lemma_pow2_strictly_increases(n, 31);
    }
}

/// Dimensions are positive, and fit in 32 bits.
pub proof fn lemma_dims(res: Res)
    ensures
        0 < res.spec_u() <= 0x8000_0000,
        0 < res.spec_v() <= 0x8000_0000,
{
    lemma_dim(res.ulog2);
    lemma_dim(res.vlog2);
}

/// Packing a resolution into 16 bits loses nothing.
pub proof fn val_round_trip(r: Res)
    ensures
        Res::spec_from_val(r.spec_val()) == r,
{
    let a = r.ulog2 as int % 256;
    let b = r.vlog2 as int % 256;
    assert((a + 256 * b) % 256 == a && (a + 256 * b) / 256 == b);
}

/// Every 16-bit value is the packed value of exactly the resolution that it
/// unpacks to.
pub proof fn from_val_round_trip(value: u16)
    ensures
        Res::spec_from_val(value).spec_val() == value,
{
}

/// A packed resolution has the logarithm of u in its low byte and that of v in
/// its high byte.
pub proof fn packed_resolution(value: u16)
    ensures
        Res::spec_from_val(value).ulog2 as int % 256 == value as int % 256,
        Res::spec_from_val(value).vlog2 as int % 256 == value as int / 256,
{
}

/// Numbers of tiles along the edges of a face, for tiles that divide it.
pub proof fn tiles_along_the_edges(res: Res, tileres: Res)
    requires
        0 <= tileres.ulog2 <= res.ulog2 < 32,
        0 <= tileres.vlog2 <= res.vlog2 < 32,
    ensures
        res.spec_ntilesu(tileres) * tileres.spec_u() == res.spec_u(),
        res.spec_ntilesv(tileres) * tileres.spec_v() == res.spec_v(),
        res.spec_ntiles(tileres) == res.spec_ntilesu(tileres) * res.spec_ntilesv(tileres),
{
    vstd::arithmetic::power2::lemma_pow2_adds(
        (res.ulog2 - tileres.ulog2) as nat,
        tileres.ulog2 as nat,
    );
    vstd::arithmetic::power2::lemma_pow2_adds(
        (res.vlog2 - tileres.vlog2) as nat,
        tileres.vlog2 as nat,
    );
}

} // verus!
