//! Immutable, parsed-at-open state of a Ptex file.
//!
//! Everything in [`FileInfo`] is read once when the file is opened and never
//! changes afterwards, so it can be shared freely between threads.  Both the
//! single-threaded [`crate::PtexReader`] and the shared reader hold one.

use crate::error::{corrupt, unsupported, view_result, Error, ErrorView};
use crate::format::{ExtHeader, Header, LevelInfo};
use crate::decode::image_size;
use crate::image::{clipped_channels, texel_bytes};
use crate::ranking::ranks;
use crate::texel::{elem, get_elem};
use crate::types::{
    signed32, wrap_i32, BorderMode, DataType, EdgeFilterMode, FaceInfo, MeshType, Res,
};
use crate::utils::{lemma_grid, lemma_grid_end};
use vstd::prelude::*;

verus! {

/// How a request for a face at a particular resolution resolves against the
/// file.
///
/// It is shared by every entry point so that the tile API, the whole-face
/// API and the single-texel API can never disagree about where data lives.
#[derive(Debug, Clone, Copy, PartialEq, Eq, Structural)]
pub enum FaceSource {
    /// A single pixel taken from the file's constant-data block.
    Constant,
    /// A data block stored in the file.
    Stored {
        /// Reduction level the block lives in (0 == full resolution).
        levelid: usize,
        /// Index of the face within that level's face table.
        facepos: usize,
    },
    /// Not stored at this resolution; must be computed by reduction.
    Reduced,
}

/// Which reduction kernel produces a resolution from the next larger one.
#[derive(Debug, Clone, Copy, PartialEq, Eq, Structural)]
pub enum ReduceKind {
    /// Blend pairs of texels in u.
    U,
    /// Blend pairs of texels in v.
    V,
    /// Triangle 2x2 reduction.
    Tri,
}

/// Parsed header, face table and level table of a Ptex file.
pub struct FileInfo {
    pub premultiply: bool,
    pub header: Header,
    pub ext_header: ExtHeader,
    pub mesh_type: MeshType,
    pub data_type: DataType,
    pub pixel_size: usize,
    pub metadata_pos: u64,
    pub lmdheader_pos: u64,
    pub face_info: Vec<FaceInfo>,
    pub rfaceids: Vec<u32>,
    pub const_data: Vec<u8>,
    pub level_info: Vec<LevelInfo>,
    pub level_pos: Vec<u64>,
}

/// A [`FileInfo`] with its tables as sequences.
pub struct InfoView {
    pub premultiply: bool,
    pub header: Header,
    pub ext_header: ExtHeader,
    pub mesh_type: MeshType,
    pub data_type: DataType,
    pub pixel_size: nat,
    pub metadata_pos: u64,
    pub lmdheader_pos: u64,
    pub faces: Seq<FaceInfo>,
    pub rfaceids: Seq<u32>,
    pub const_data: Seq<u8>,
    pub levels: Seq<LevelInfo>,
    pub level_pos: Seq<u64>,
}

impl View for FileInfo {
    type V = InfoView;

    open spec fn view(&self) -> InfoView {
        InfoView {
            premultiply: self.premultiply,
            header: self.header,
            ext_header: self.ext_header,
            mesh_type: self.mesh_type,
            data_type: self.data_type,
            pixel_size: self.pixel_size as nat,
            metadata_pos: self.metadata_pos,
            lmdheader_pos: self.lmdheader_pos,
            faces: self.face_info@,
            rfaceids: self.rfaceids@,
            const_data: self.const_data@,
            levels: self.level_info@,
            level_pos: self.level_pos@,
        }
    }
}

impl InfoView {
    /// The tables have the sizes that the header gives, and the derived
    /// fields the values that follow from it.
    pub open spec fn wf(self) -> bool {
        &&& self.mesh_type == MeshType::spec_from_u32(self.header.meshtype)->Ok_0
        &&& MeshType::spec_from_u32(self.header.meshtype) is Ok
        &&& DataType::spec_from_u32(self.header.datatype) == Ok::<DataType, ErrorView>(
            self.data_type,
        )
        &&& self.pixel_size == self.data_type.spec_size() * self.nchannels()
        &&& self.faces.len() == self.header.nfaces
        &&& self.rfaceids == ranks(self.faces)
        &&& self.const_data.len() == self.pixel_size * self.faces.len()
        &&& self.levels.len() == self.header.nlevels
        &&& self.level_pos.len() == self.header.nlevels
    }

    /// Number of channels per pixel.
    pub open spec fn nchannels(self) -> nat {
        self.header.nchannels as nat
    }

    /// Error for a face that the file does not have.
    pub open spec fn no_face(self, faceid: int) -> ErrorView {
        ErrorView::FaceOutOfRange { faceid: wrap_i32(faceid), nfaces: self.header.nfaces }
    }

    /// Info record of a face.
    pub open spec fn face(self, faceid: int) -> Result<FaceInfo, ErrorView> {
        if faceid < self.faces.len() {
            Ok(self.faces[faceid])
        } else {
            Err(self.no_face(faceid))
        }
    }

    /// Pixel of a face in the constant-data block.
    pub open spec fn constant_pixel(self, faceid: int) -> Seq<u8> {
        self.const_data.subrange(faceid * self.pixel_size, (faceid + 1) * self.pixel_size)
    }

    /// Number of faces in a level; none in a level that the file lacks.
    pub open spec fn level_nfaces(self, levelid: int) -> nat {
        if 0 <= levelid < self.levels.len() {
            self.levels[levelid].nfaces as nat
        } else {
            0
        }
    }

    /// Number of mipmap levels of a face: each halves both dimensions, and the
    /// last reduces the smaller one to a single texel.
    pub open spec fn num_levels_of(self, faceid: int) -> Result<nat, ErrorView> {
        match self.face(faceid) {
            Ok(f) => {
                let m = if f.res.ulog2 <= f.res.vlog2 {
                    f.res.ulog2
                } else {
                    f.res.vlog2
                };
                Ok(
                    if m < 0 {
                        1
                    } else {
                        (m + 1) as nat
                    },
                )
            },
            Err(e) => Err(e),
        }
    }

    /// Resolution of a face reduced by `level` mipmap levels.
    pub open spec fn level_res(self, faceid: int, level: int) -> Result<Res, ErrorView> {
        match self.num_levels_of(faceid) {
            Ok(n) => if level < n {
                Ok(
                    Res {
                        ulog2: (self.faces[faceid].res.ulog2 - level) as i8,
                        vlog2: (self.faces[faceid].res.vlog2 - level) as i8,
                    },
                )
            } else {
                Err(ErrorView::Unsupported("reductions below 1 pixel are not supported"@))
            },
            Err(e) => Err(e),
        }
    }

    /// Level that holds a face at a resolution, and the position in it, if the
    /// file's tables have one.
    pub open spec fn stored_at(self, faceid: int, res: Res) -> Option<(int, int)> {
        let f = self.faces[faceid];
        let redu = f.res.ulog2 - res.ulog2;
        let redv = f.res.vlog2 - res.vlog2;
        if redu != redv || redu < 0 || redu >= self.header.nlevels && redu > 0 {
            None
        } else {
            let facepos = if redu == 0 {
                faceid
            } else {
                self.rfaceids[faceid] as int
            };
            if facepos < self.level_nfaces(redu) {
                Some((redu, facepos))
            } else {
                None
            }
        }
    }

    /// A face that is one color, or reduced to one texel, comes from the
    /// constant-data block.
    pub open spec fn is_single_pixel(self, faceid: int, res: Res) -> bool {
        self.faces[faceid].spec_is_constant() || (res.ulog2 == 0 && res.vlog2 == 0)
    }

    /// True if a face is stored in the file at a resolution.
    pub open spec fn is_stored(self, faceid: int, res: Res) -> Result<bool, ErrorView> {
        match self.face(faceid) {
            Ok(f) => Ok(self.is_single_pixel(faceid, res) || self.stored_at(faceid, res) is Some),
            Err(e) => Err(e),
        }
    }

    /// The first `n` mipmap levels of a face are stored, and no more in a row.
    pub open spec fn stored_prefix(self, faceid: int, n: nat) -> bool {
        let levels = self.num_levels_of(faceid);
        &&& levels is Ok
        &&& n <= levels->Ok_0
        &&& forall|level: int|
            0 <= level < n ==> self.is_stored(
                faceid,
                (#[trigger] self.level_res(faceid, level))->Ok_0,
            ) == Ok::<bool, ErrorView>(true)
        &&& n < levels->Ok_0 ==> self.is_stored(
            faceid,
            self.level_res(faceid, n as int)->Ok_0,
        ) == Ok::<bool, ErrorView>(false)
    }

    /// The file carries edit records: the size of the edit data block, a field
    /// that current writers leave at zero, is not zero.
    pub open spec fn spec_has_edits(self) -> bool {
        self.ext_header.obsolete != 0
    }

    /// Where the data of a face at a resolution comes from.
    pub open spec fn source(self, faceid: int, res: Res) -> Result<FaceSource, ErrorView> {
        match self.face(faceid) {
            Ok(f) => {
                if self.is_single_pixel(faceid, res) {
                    Ok(FaceSource::Constant)
                } else if self.stored_at(faceid, res) is Some {
                    let (levelid, facepos) = self.stored_at(faceid, res)->0;
                    Ok(FaceSource::Stored { levelid: levelid as usize, facepos: facepos as usize })
                } else if f.res == res {
                    Err(ErrorView::Corrupt("face missing from level 0"@))
                } else if res.ulog2 < 0 || res.vlog2 < 0 {
                    Err(ErrorView::Unsupported("reductions below 1 pixel are not supported"@))
                } else if res.ulog2 > f.res.ulog2 || res.vlog2 > f.res.vlog2 {
                    Err(ErrorView::Unsupported("enlargements are not supported"@))
                } else if self.mesh_type == MeshType::Triangle && f.res.ulog2 - res.ulog2
                    != f.res.vlog2 - res.vlog2 {
                    Err(
                        ErrorView::Unsupported(
                            "anisotropic reductions are not supported for triangle meshes"@,
                        ),
                    )
                } else {
                    Ok(FaceSource::Reduced)
                }
            },
            Err(e) => Err(e),
        }
    }

    /// Next larger resolution of a face, and the kernel that reduces it to
    /// `res`: triangles halve both dimensions, quads the one that has further
    /// to go, and u and v in turn where both have equally far to go.
    pub open spec fn reduced_from(self, faceid: int, res: Res) -> (Res, ReduceKind) {
        let f = self.faces[faceid];
        let redu = f.res.ulog2 - res.ulog2;
        let redv = f.res.vlog2 - res.vlog2;
        if self.mesh_type == MeshType::Triangle {
            (
                Res { ulog2: (res.ulog2 + 1) as i8, vlog2: (res.vlog2 + 1) as i8 },
                ReduceKind::Tri,
            )
        } else if redu > redv || (redu == redv && res.ulog2 as int % 2 != 0) {
            (Res { ulog2: (res.ulog2 + 1) as i8, vlog2: res.vlog2 }, ReduceKind::U)
        } else {
            (Res { ulog2: res.ulog2, vlog2: (res.vlog2 + 1) as i8 }, ReduceKind::V)
        }
    }
}

/// A face is stored at a resolution exactly when reading it needs no
/// reduction.
pub proof fn stored_iff_not_reduced(info: InfoView, faceid: int, res: Res)
    requires
        info.wf(),
        0 <= faceid < info.faces.len(),
    ensures
        info.is_stored(faceid, res) == Ok::<bool, ErrorView>(
            match info.source(faceid, res) {
                Ok(FaceSource::Constant) | Ok(FaceSource::Stored { .. }) => true,
                _ => false,
            },
        ),
{
}

impl FileInfo {
    pub fn num_faces(&self) -> (n: usize)
        ensures
            n == self@.header.nfaces,
    {
        self.header.nfaces as usize
    }

    pub fn num_channels(&self) -> (n: usize)
        ensures
            n == self@.nchannels(),
    {
        self.header.nchannels as usize
    }

    pub fn num_levels(&self) -> (n: usize)
        ensures
            n == self@.header.nlevels,
    {
        self.header.nlevels as usize
    }

    pub fn u_border_mode(&self) -> (m: BorderMode)
        ensures
            m == BorderMode::spec_from_u16(self@.ext_header.ubordermode),
    {
        BorderMode::from_u16(self.ext_header.ubordermode)
    }

    pub fn v_border_mode(&self) -> (m: BorderMode)
        ensures
            m == BorderMode::spec_from_u16(self@.ext_header.vbordermode),
    {
        BorderMode::from_u16(self.ext_header.vbordermode)
    }

    pub fn edge_filter_mode(&self) -> (m: EdgeFilterMode)
        ensures
            m == EdgeFilterMode::spec_from_u16(self@.ext_header.edgefiltermode),
    {
        EdgeFilterMode::from_u16(self.ext_header.edgefiltermode)
    }

    pub fn has_edits(&self) -> (b: bool)
        ensures
            b == self@.spec_has_edits(),
    {
        self.ext_header.obsolete != 0
    }

    /// Number of channels to return when `n` are asked for from `first` on.
    pub fn clip_channels(&self, first: usize, n: usize) -> (r: usize)
        ensures
            r == clipped_channels(self@, first as nat, n as nat),
    {
        let all: usize = self.num_channels();
        let available: usize = if first < all {
            all - first
        } else {
            0
        };
        if n < available {
            n
        } else {
            available
        }
    }

    /// Bit patterns of `n` channels of a pixel, from `first` on.
    pub fn channel_values(&self, pixel: &[u8], first: usize, n: usize) -> (values: Vec<u32>)
        requires
            self@.wf(),
            pixel@.len() == self@.pixel_size,
            first + n <= self@.nchannels(),
        ensures
            values@ == Seq::new(
                n as nat,
                |c: int|
                    elem(pixel@, (first + c) * self@.data_type.spec_size(), self@.data_type),
            ),
    {
        let es: usize = self.data_type.size();
        let mut values: Vec<u32> = Vec::new();
        let mut c: usize = 0;
        assert(pixel@.len() == pixel.len());
        while c < n
            invariant
                c <= n,
                es == self@.data_type.spec_size(),
                self@.wf(),
                pixel@.len() == self@.pixel_size,
                pixel@.len() <= usize::MAX,
                first + n <= self@.nchannels(),
                values@ =~= Seq::new(
                    c as nat,
                    |c: int|
                        elem(pixel@, (first + c) * self@.data_type.spec_size(), self@.data_type),
                ),
            decreases n - c,
        {
            proof {
                crate::utils::lemma_grid_end(first + c, self@.nchannels() as int, es as int);
            }
            values.push(get_elem(pixel, (first + c) * es, self.data_type));
            c = c + 1;
        }
        values
    }

    /// Bytes of a texel of a packed image.
    pub fn cut_texel(&self, img: &[u8], res: Res, u: usize, v: usize) -> (r: Vec<u8>)
        requires
            self@.wf(),
            img@.len() == image_size(self@, res),
            u < res.spec_u(),
            v < res.spec_v(),
        ensures
            r@ == texel_bytes(img@, res, self@.pixel_size, u as int, v as int),
            r@.len() == self@.pixel_size,
    {
        let ps: usize = self.pixel_size;
        let uw: usize = res.u();
        let vw: usize = res.v();
        proof {
            lemma_grid(v as int, u as int, vw as int, uw as int);
            lemma_grid_end(v * uw + u, vw * uw, ps as int);
            assert(vw * uw == uw * vw) by (nonlinear_arith);
            assert(img@.len() == img.len());
        }
        if ps == 0 {
            assert((v * uw + u) * 0 == 0);
            let r: Vec<u8> = Vec::new();
            assert(r@ =~= texel_bytes(img@, res, 0, u as int, v as int));
            return r;
        }
        assert(v * uw + u <= (v * uw + u) * ps) by (nonlinear_arith)
            requires
                0 <= v * uw + u,
                1 <= ps,
        ;
        let off: usize = (v * uw + u) * ps;
        vstd::slice::slice_to_vec(vstd::slice::slice_subrange(img, off, off + ps))
    }

    fn no_face(&self, faceid: usize) -> (e: Error)
        ensures
            e@ == self@.no_face(faceid as int),
    {
        Error::FaceOutOfRange {
            faceid: signed32((faceid as u64 % 0x1_0000_0000) as u32),
            nfaces: self.header.nfaces,
        }
    }

    pub fn face_info(&self, faceid: usize) -> (r: Result<&FaceInfo, Error>)
        requires
            self@.wf(),
        ensures
            match r {
                Ok(f) => self@.face(faceid as int) == Ok::<FaceInfo, ErrorView>(*f),
                Err(e) => self@.face(faceid as int) == Err::<FaceInfo, ErrorView>(e@),
            },
    {
        if faceid < self.face_info.len() {
            Ok(&self.face_info[faceid])
        } else {
            Err(self.no_face(faceid))
        }
    }

    pub fn constant_data(&self, faceid: usize) -> (r: Result<&[u8], Error>)
        requires
            self@.wf(),
        ensures
            match r {
                Ok(p) => faceid < self@.faces.len() && p@ == self@.constant_pixel(faceid as int)
                    && p@.len() == self@.pixel_size,
                Err(e) => faceid >= self@.faces.len() && e@ == self@.no_face(faceid as int),
            },
    {
        if faceid >= self.num_faces() {
            return Err(self.no_face(faceid));
        }
        proof {
            crate::utils::lemma_grid_end(
                faceid as int,
                self@.faces.len() as int,
                self.pixel_size as int,
            );
        }
        assert(self.const_data@.len() == self.const_data.len());
        Ok(
            vstd::slice::slice_subrange(
                self.const_data.as_slice(),
                faceid * self.pixel_size,
                (faceid + 1) * self.pixel_size,
            ),
        )
    }

    /// Number of mipmap levels a face has, counting level 0 (full
    /// resolution).  The last level reduces the smaller dimension to one
    /// texel.
    pub fn face_num_levels(&self, faceid: usize) -> (r: Result<usize, Error>)
        requires
            self@.wf(),
        ensures
            match r {
                Ok(n) => self@.num_levels_of(faceid as int) == Ok::<nat, ErrorView>(n as nat),
                Err(e) => self@.num_levels_of(faceid as int) == Err::<nat, ErrorView>(e@),
            },
    {
        let res: Res = match self.face_info(faceid) {
            Ok(f) => f.res,
            Err(e) => {
                return Err(e);
            },
        };
        let m: i8 = if res.ulog2 <= res.vlog2 {
            res.ulog2
        } else {
            res.vlog2
        };
        if m < 0 {
            Ok(1)
        } else {
            Ok(m as usize + 1)
        }
    }

    /// Resolution of a face reduced by `level` mipmap levels.
    pub fn face_level_res(&self, faceid: usize, level: usize) -> (r: Result<Res, Error>)
        requires
            self@.wf(),
        ensures
            view_result(r) == self@.level_res(faceid as int, level as int),
    {
        let n: usize = match self.face_num_levels(faceid) {
            Ok(n) => n,
            Err(e) => {
                return Err(e);
            },
        };
        if level >= n {
            return Err(unsupported("reductions below 1 pixel are not supported"));
        }
        let res: Res = self.face_info[faceid].res;
        let l: i8 = level as i8;
        Ok(Res::new(res.ulog2 - l, res.vlog2 - l))
    }

    fn level_nfaces(&self, levelid: usize) -> (n: usize)
        ensures
            n == self@.level_nfaces(levelid as int),
    {
        if levelid < self.level_info.len() {
            self.level_info[levelid].nfaces as usize
        } else {
            0
        }
    }

    /// Level and position of a face at a resolution.
    fn find_stored(&self, faceid: usize, res: Res) -> (r: Option<(usize, usize)>)
        requires
            self@.wf(),
            faceid < self@.faces.len(),
        ensures
            match r {
                Some((l, p)) => self@.stored_at(faceid as int, res) == Some((l as int, p as int)),
                None => self@.stored_at(faceid as int, res) is None,
            },
    {
        let full: Res = self.face_info[faceid].res;
        let redu: i32 = full.ulog2 as i32 - res.ulog2 as i32;
        let redv: i32 = full.vlog2 as i32 - res.vlog2 as i32;
        if redu != redv || redu < 0 || redu >= self.num_levels() as i32 && redu > 0 {
            return None;
        }
        let levelid: usize = redu as usize;
        let facepos: usize = if redu == 0 {
            faceid
        } else {
            self.rfaceids[faceid] as usize
        };
        if facepos < self.level_nfaces(levelid) {
            Some((levelid, facepos))
        } else {
            None
        }
    }

    /// True if a resolution is stored in the file for this face, and so can
    /// be read (and streamed tile by tile) directly rather than computed by
    /// reduction.  Performs no I/O.
    pub fn is_res_stored(&self, faceid: usize, res: Res) -> (r: Result<bool, Error>)
        requires
            self@.wf(),
        ensures
            view_result(r) == self@.is_stored(faceid as int, res),
    {
        let single: bool = match self.face_info(faceid) {
            Ok(f) => f.is_constant() || res.is_one(),
            Err(e) => {
                return Err(e);
            },
        };
        Ok(single || self.find_stored(faceid, res).is_some())
    }

    /// Number of leading mipmap levels of a face that are stored in the file,
    /// counting level 0.
    pub fn num_stored_levels(&self, faceid: usize) -> (r: Result<usize, Error>)
        requires
            self@.wf(),
        ensures
            match r {
                Ok(n) => self@.stored_prefix(faceid as int, n as nat),
                Err(e) => self@.num_levels_of(faceid as int) == Err::<nat, ErrorView>(e@),
            },
    {
        let nlevels: usize = match self.face_num_levels(faceid) {
            Ok(n) => n,
            Err(e) => {
                return Err(e);
            },
        };
        let mut n: usize = 0;
        while n < nlevels
            invariant
                n <= nlevels,
                self@.wf(),
                self@.num_levels_of(faceid as int) == Ok::<nat, ErrorView>(nlevels as nat),
                forall|level: int|
                    0 <= level < n ==> self@.is_stored(
                        faceid as int,
                        (#[trigger] self@.level_res(faceid as int, level))->Ok_0,
                    ) == Ok::<bool, ErrorView>(true),
            decreases nlevels - n,
        {
            let res: Res = match self.face_level_res(faceid, n) {
                Ok(res) => res,
                Err(e) => {
                    return Err(e);
                },
            };
            let stored: bool = match self.is_res_stored(faceid, res) {
                Ok(b) => b,
                Err(e) => {
                    return Err(e);
                },
            };
            if !stored {
                return Ok(n);
            }
            n = n + 1;
        }
        Ok(n)
    }

    /// Resolve a `(faceid, res)` request to its location in the file.
    ///
    /// The validity checks for negative resolutions, enlargements and
    /// anisotropic triangle reductions are performed here so that every
    /// entry point rejects them identically.
    pub fn resolve(&self, faceid: usize, res: Res) -> (r: Result<FaceSource, Error>)
        requires
            self@.wf(),
        ensures
            view_result(r) == self@.source(faceid as int, res),
    {
        let full: Res = match self.face_info(faceid) {
            Ok(f) => {
                if f.is_constant() || res.is_one() {
                    return Ok(FaceSource::Constant);
                }
                f.res
            },
            Err(e) => {
                return Err(e);
            },
        };
        match self.find_stored(faceid, res) {
            Some((levelid, facepos)) => {
                return Ok(FaceSource::Stored { levelid, facepos });
            },
            None => {},
        }
        if full.ulog2 == res.ulog2 && full.vlog2 == res.vlog2 {
            return Err(corrupt("face missing from level 0"));
        }
        // dynamic reduction required
        if res.ulog2 < 0 || res.vlog2 < 0 {
            return Err(unsupported("reductions below 1 pixel are not supported"));
        }
        if res.ulog2 > full.ulog2 || res.vlog2 > full.vlog2 {
            return Err(unsupported("enlargements are not supported"));
        }
        if self.mesh_type == MeshType::Triangle && full.ulog2 - res.ulog2 != full.vlog2
            - res.vlog2 {
            return Err(
                unsupported("anisotropic reductions are not supported for triangle meshes"),
            );
        }
        Ok(FaceSource::Reduced)
    }

    /// Resolution to reduce from, and the kernel to use, when `res` has to be
    /// computed dynamically.  Only valid after [`FileInfo::resolve`] returned
    /// [`FaceSource::Reduced`].
    pub fn reduction_source(&self, faceid: usize, res: Res) -> (r: Result<(Res, ReduceKind), Error>)
        requires
            self@.wf(),
            faceid < self@.faces.len() ==> self@.source(faceid as int, res) == Ok::<
                FaceSource,
                ErrorView,
            >(FaceSource::Reduced),
        ensures
            match r {
                Ok(from) => faceid < self@.faces.len() && from == self@.reduced_from(
                    faceid as int,
                    res,
                ),
                Err(e) => faceid >= self@.faces.len() && e@ == self@.no_face(faceid as int),
            },
    {
        let full: Res = match self.face_info(faceid) {
            Ok(f) => f.res,
            Err(e) => {
                return Err(e);
            },
        };
        if self.mesh_type == MeshType::Triangle {
            return Ok((Res::new(res.ulog2 + 1, res.vlog2 + 1), ReduceKind::Tri));
        }
        let redu: i8 = full.ulog2 - res.ulog2;
        let redv: i8 = full.vlog2 - res.vlog2;
        // determine which direction to blend: for symmetric face blends,
        // alternate u and v blending
        let blendu: bool = if redu == redv {
            res.ulog2 % 2 != 0
        } else {
            redu > redv
        };
        if blendu {
            Ok((Res::new(res.ulog2 + 1, res.vlog2), ReduceKind::U))
        } else {
            Ok((Res::new(res.ulog2, res.vlog2 + 1), ReduceKind::V))
        }
    }
}

} // verus!
