//! Tests over files built in memory: whole faces, tiles, mipmap levels,
//! single texels, meta data, and the shared reader against the plain one.

use std::io::Write;
use std::sync::atomic::{AtomicUsize, Ordering};
use std::sync::Arc;

use flate2::write::ZlibEncoder;
use flate2::Compression;
use ptex::{
    face_flags, BorderMode, CacheOptions, DataType, EdgeFilterMode, EdgeId, Error, MeshType,
    MetaDataType, PixelOp, PtexReader, Res, SharedReader,
};

// ---- floating-point arithmetic ----

fn half_to_float(h: u16) -> f32 {
    f32::from_bits(ptex::half_to_float_bits(h))
}

fn float_to_half(f: f32) -> u16 {
    ptex::float_to_half_bits(f.to_bits(), (f.abs() * 1.677_721_6e7 + 0.5) as u16)
}

fn to_float(dt: DataType, v: u32) -> f32 {
    match dt {
        DataType::UInt8 | DataType::UInt16 => v as f32,
        DataType::Half => half_to_float(v as u16),
        DataType::Float => f32::from_bits(v),
    }
}

fn from_float(dt: DataType, f: f32) -> u32 {
    match dt {
        DataType::UInt8 => f as u8 as u32,
        DataType::UInt16 => f as u16 as u32,
        DataType::Half => float_to_half(f) as u32,
        DataType::Float => f.to_bits(),
    }
}

fn one_value_inv(dt: DataType) -> f32 {
    match dt {
        DataType::UInt8 => 1.0 / 255.0,
        DataType::UInt16 => 1.0 / 65535.0,
        DataType::Half | DataType::Float => 1.0,
    }
}

fn float_math(op: PixelOp) -> u32 {
    match op {
        PixelOp::Halve { dt, a, b } => from_float(dt, 0.5 * (to_float(dt, a) + to_float(dt, b))),
        PixelOp::Quarter { dt, a, b, c, d } => from_float(
            dt,
            0.25 * (to_float(dt, a) + to_float(dt, b) + to_float(dt, c) + to_float(dt, d)),
        ),
        PixelOp::Scale { dt, value, alpha } => from_float(
            dt,
            to_float(dt, value) * (one_value_inv(dt) * to_float(dt, alpha)),
        ),
    }
}

// ---- building files ----

fn zlib(data: &[u8]) -> Vec<u8> {
    let mut e = ZlibEncoder::new(Vec::new(), Compression::default());
    e.write_all(data).unwrap();
    e.finish().unwrap()
}

fn put_u16(buf: &mut [u8], off: usize, v: u16) {
    buf[off..off + 2].copy_from_slice(&v.to_le_bytes());
}

fn put_u32(buf: &mut [u8], off: usize, v: u32) {
    buf[off..off + 4].copy_from_slice(&v.to_le_bytes());
}

fn put_u64(buf: &mut [u8], off: usize, v: u64) {
    buf[off..off + 8].copy_from_slice(&v.to_le_bytes());
}

#[derive(Clone, Copy, PartialEq)]
enum Enc {
    Constant,
    Zipped,
    Diff,
    Tiled(i8, i8),
}

#[derive(Clone, Copy)]
struct Face {
    ulog2: i8,
    vlog2: i8,
    constant: bool,
    /// Encoding of the face in each level that stores it.
    enc: [Enc; 3],
}

#[derive(Clone)]
struct File {
    mesh: u32,
    datatype: u32,
    nchan: usize,
    alpha: i32,
    faces: Vec<Face>,
    /// Number of faces stored in each level.
    levels: Vec<usize>,
    ext: Vec<u8>,
    meta: Vec<u8>,
    lmd_header: Vec<u8>,
    lmd_data: Vec<u8>,
}

fn esize(datatype: u32) -> usize {
    [1, 2, 2, 4][datatype as usize]
}

/// A byte of a face at a level; floats stay finite.
fn sample(f: &File, face: usize, level: usize, n: usize) -> Vec<u8> {
    let x = (n * 7 + face * 31 + level * 101 + n / 13) as u32;
    match f.datatype {
        0 => vec![(x % 251) as u8],
        1 => ((x.wrapping_mul(977) % 65521) as u16).to_le_bytes().to_vec(),
        2 => float_to_half((x % 400) as f32 / 64.0 + 0.25).to_le_bytes().to_vec(),
        _ => ((x % 1000) as f32 / 64.0 - 3.0).to_le_bytes().to_vec(),
    }
}

/// Interleaved pixels of a face at a level.
fn pixels(f: &File, face: usize, level: usize) -> Vec<u8> {
    let fc = &f.faces[face];
    let n = (1usize << (fc.ulog2 - level as i8)) * (1usize << (fc.vlog2 - level as i8)) * f.nchan;
    (0..n).flat_map(|i| sample(f, face, level, i)).collect()
}

fn constant_pixel(f: &File, face: usize) -> Vec<u8> {
    (0..f.nchan).flat_map(|c| sample(f, face, 9, c)).collect()
}

/// Encode a `u` x `v` image as a zipped block of planes.
fn packed(f: &File, img: &[u8], diff: bool) -> Vec<u8> {
    let es = esize(f.datatype);
    let n = img.len() / es / f.nchan;
    let mut planes = Vec::new();
    for c in 0..f.nchan {
        for p in 0..n {
            let off = (p * f.nchan + c) * es;
            planes.extend_from_slice(&img[off..off + es]);
        }
    }
    if diff && es == 1 {
        for i in (1..planes.len()).rev() {
            planes[i] = planes[i].wrapping_sub(planes[i - 1]);
        }
    } else if diff && f.datatype == 1 {
        let vals: Vec<u16> = planes
            .chunks_exact(2)
            .map(|c| u16::from_le_bytes([c[0], c[1]]))
            .collect();
        planes = (0..vals.len())
            .flat_map(|i| {
                let prev = if i == 0 { 0 } else { vals[i - 1] };
                vals[i].wrapping_sub(prev).to_le_bytes()
            })
            .collect();
    }
    zlib(&planes)
}

/// Header and data of a block that holds an image.
fn block(f: &File, img: &[u8], ul: i8, vl: i8, enc: Enc) -> (u32, Vec<u8>) {
    let ps = esize(f.datatype) * f.nchan;
    let (code, data) = match enc {
        Enc::Constant => (0u32, img[..ps].to_vec()),
        Enc::Zipped => (1, packed(f, img, false)),
        Enc::Diff => (2, packed(f, img, true)),
        Enc::Tiled(tu, tv) => {
            let uw = 1usize << ul;
            let (tuw, tvw) = (1usize << tu, 1usize << tv);
            let mut dir = Vec::new();
            let mut body = Vec::new();
            for i in 0..(1usize << (vl - tv)) {
                for j in 0..(1usize << (ul - tu)) {
                    let mut tile = Vec::new();
                    for y in 0..tvw {
                        let off = ((i * tvw + y) * uw + j * tuw) * ps;
                        tile.extend_from_slice(&img[off..off + tuw * ps]);
                    }
                    let enc = if (i + j) % 2 == 0 { Enc::Zipped } else { Enc::Diff };
                    let (h, d) = block(f, &tile, tu, tv, enc);
                    dir.extend_from_slice(&h.to_le_bytes());
                    body.extend_from_slice(&d);
                }
            }
            let dir = zlib(&dir);
            let mut data = vec![tu as u8, tv as u8];
            data.extend_from_slice(&(dir.len() as u32).to_le_bytes());
            data.extend_from_slice(&dir);
            data.extend_from_slice(&body);
            (3, data)
        }
    };
    ((code << 30) | data.len() as u32, data)
}

/// Face ids in the order in which reduction levels store them.
fn reduction_order(f: &File) -> Vec<usize> {
    let mut ids: Vec<usize> = (0..f.faces.len()).collect();
    let key = |i: usize| {
        let fc = &f.faces[i];
        if fc.constant {
            1
        } else {
            fc.ulog2.min(fc.vlog2)
        }
    };
    ids.sort_by(|&a, &b| key(b).cmp(&key(a)));
    ids
}

/// Bytes of a level: its header, and the whole level.
fn level(f: &File, l: usize) -> (Vec<u8>, Vec<u8>) {
    let order = if l == 0 {
        (0..f.faces.len()).collect()
    } else {
        reduction_order(f)
    };
    let mut head = Vec::new();
    let mut body = Vec::new();
    for &id in order.iter().take(f.levels[l]) {
        let fc = f.faces[id];
        let (h, d) = if fc.constant {
            (0, Vec::new())
        } else {
            let (ul, vl) = (fc.ulog2 - l as i8, fc.vlog2 - l as i8);
            block(f, &pixels(f, id, l), ul, vl, fc.enc[l])
        };
        head.extend_from_slice(&h.to_le_bytes());
        body.extend_from_slice(&d);
    }
    let head = zlib(&head);
    let mut all = head.clone();
    all.extend_from_slice(&body);
    (head, all)
}

fn build(f: &File) -> Vec<u8> {
    let mut fi = Vec::new();
    for (i, fc) in f.faces.iter().enumerate() {
        let flags = if fc.constant { face_flags::CONSTANT } else { 0 };
        fi.extend_from_slice(&[fc.ulog2 as u8, fc.vlog2 as u8, 0b11_10_01_00, flags]);
        for e in 0..4 {
            fi.extend_from_slice(&(i as i32 - e).to_le_bytes());
        }
    }
    let faceinfo = zlib(&fi);
    let constdata = zlib(
        &(0..f.faces.len())
            .flat_map(|i| constant_pixel(f, i))
            .collect::<Vec<u8>>(),
    );
    let mut levelinfo = Vec::new();
    let mut leveldata = Vec::new();
    for l in 0..f.levels.len() {
        let (head, all) = level(f, l);
        levelinfo.extend_from_slice(&(all.len() as u64).to_le_bytes());
        levelinfo.extend_from_slice(&(head.len() as u32).to_le_bytes());
        levelinfo.extend_from_slice(&(f.levels[l] as u32).to_le_bytes());
        leveldata.extend_from_slice(&all);
    }
    let metazip = if f.meta.is_empty() { Vec::new() } else { zlib(&f.meta) };
    let mut h = vec![0u8; 64];
    h[0..4].copy_from_slice(b"Ptex");
    put_u32(&mut h, 4, 1);
    put_u32(&mut h, 8, f.mesh);
    put_u32(&mut h, 12, f.datatype);
    put_u32(&mut h, 16, f.alpha as u32);
    put_u16(&mut h, 20, f.nchan as u16);
    put_u16(&mut h, 22, f.levels.len() as u16);
    put_u32(&mut h, 24, f.faces.len() as u32);
    put_u32(&mut h, 28, f.ext.len() as u32);
    put_u32(&mut h, 32, faceinfo.len() as u32);
    put_u32(&mut h, 36, constdata.len() as u32);
    put_u32(&mut h, 40, levelinfo.len() as u32);
    put_u32(&mut h, 44, 4);
    put_u64(&mut h, 48, leveldata.len() as u64);
    put_u32(&mut h, 56, metazip.len() as u32);
    put_u32(&mut h, 60, f.meta.len() as u32);
    let mut out = h;
    let mut ext = f.ext.clone();
    let lmdzip = if f.lmd_header.is_empty() { Vec::new() } else { zlib(&f.lmd_header) };
    if !f.lmd_header.is_empty() {
        put_u32(&mut ext, 8, lmdzip.len() as u32);
        put_u32(&mut ext, 12, f.lmd_header.len() as u32);
        put_u64(&mut ext, 16, f.lmd_data.len() as u64);
    }
    out.extend_from_slice(&ext);
    out.extend_from_slice(&faceinfo);
    out.extend_from_slice(&constdata);
    out.extend_from_slice(&levelinfo);
    out.extend_from_slice(&leveldata);
    out.extend_from_slice(&metazip);
    out.extend_from_slice(&[0u8; 8]);
    out.extend_from_slice(&lmdzip);
    out.extend_from_slice(&f.lmd_data);
    out
}

fn face(ulog2: i8, vlog2: i8, enc: [Enc; 3]) -> Face {
    Face { ulog2, vlog2, constant: false, enc }
}

fn quad(datatype: u32, nchan: usize, faces: Vec<Face>, levels: Vec<usize>) -> File {
    File {
        mesh: 1,
        datatype,
        nchan,
        alpha: -1,
        faces,
        levels,
        ext: Vec::new(),
        meta: Vec::new(),
        lmd_header: Vec::new(),
        lmd_data: Vec::new(),
    }
}

const Z: Enc = Enc::Zipped;
const D: Enc = Enc::Diff;

/// Four channels of uint8 with alpha last, one constant face.
fn quad_u8() -> File {
    let mut f = quad(
        0,
        4,
        vec![
            face(3, 3, [D, Z, Z]),
            face(4, 2, [Z, D, Z]),
            Face { ulog2: 2, vlog2: 3, constant: true, enc: [Enc::Constant; 3] },
            face(2, 5, [D, D, Z]),
        ],
        vec![4, 3, 1],
    );
    f.alpha = 3;
    f.meta = meta_entry("PtexFaceVertCounts", 0, b"hello\0");
    f.meta.extend(meta_entry("bytes", 1, &[1, 0xff]));
    f.meta.extend(meta_entry("shorts", 2, &[2, 0, 0xfe, 0xff]));
    f.meta.extend(meta_entry("ints", 3, &[3, 0, 0, 0, 0xfd, 0xff, 0xff, 0xff]));
    f.meta.extend(meta_entry("floats", 4, &1.5f32.to_le_bytes()));
    f.meta.extend(meta_entry("doubles", 5, &2.5f64.to_le_bytes()));
    f.ext = vec![0u8; 40];
    put_u16(&mut f.ext, 0, 1);
    put_u16(&mut f.ext, 4, 2);
    put_u16(&mut f.ext, 6, 1);
    let large = zlib(&vec![7u8; 300]);
    f.lmd_header = meta_head("large", 1, 300);
    f.lmd_header.extend_from_slice(&(large.len() as u32).to_le_bytes());
    f.lmd_data = large;
    f
}

/// Three channels of float, the first face split into two tiles.
fn quad_f32() -> File {
    quad(
        3,
        3,
        vec![
            face(7, 7, [Enc::Tiled(7, 6), Enc::Tiled(5, 4), Z]),
            face(5, 5, [Z, Z, Z]),
        ],
        vec![2, 2, 1],
    )
}

/// One channel of half, nothing stored but the full resolution.
fn quad_f16() -> File {
    quad(2, 1, vec![face(5, 4, [Z, Z, Z]), face(2, 2, [Z, Z, Z])], vec![2])
}

/// Triangles with two channels of uint16.
fn tri_u16() -> File {
    let mut f = quad(1, 2, vec![face(5, 5, [D, D, Z]), face(3, 3, [Z, Z, Z])], vec![2, 1]);
    f.mesh = 0;
    f
}

/// A face split into a 4x2 grid of tiles, its first reduction tiled too.
fn quad_tiled() -> File {
    quad(
        0,
        1,
        vec![face(6, 5, [Enc::Tiled(4, 4), Enc::Tiled(3, 4), D])],
        vec![1, 1, 1],
    )
}

fn fixtures() -> Vec<(&'static str, File)> {
    vec![
        ("quad_u8", quad_u8()),
        ("quad_f32", quad_f32()),
        ("quad_f16", quad_f16()),
        ("tri_u16", tri_u16()),
        ("quad_tiled", quad_tiled()),
    ]
}

fn meta_head(key: &str, datatype: u8, datasize: usize) -> Vec<u8> {
    let mut e = vec![key.len() as u8 + 1];
    e.extend_from_slice(key.as_bytes());
    e.extend_from_slice(&[0, datatype]);
    e.extend_from_slice(&(datasize as u32).to_le_bytes());
    e
}

fn meta_entry(key: &str, datatype: u8, data: &[u8]) -> Vec<u8> {
    let mut e = meta_head(key, datatype, data.len());
    e.extend_from_slice(data);
    e
}

// ---- opening files ----

type Read = Box<dyn Fn(u64, usize) -> Result<Vec<u8>, std::io::Error> + Send + Sync>;
type Math = fn(PixelOp) -> u32;

fn stream(bytes: &[u8]) -> Read {
    let bytes = bytes.to_vec();
    Box::new(move |pos, len| {
        let pos = pos as usize;
        match bytes.get(pos..pos.saturating_add(len)) {
            Some(b) => Ok(b.to_vec()),
            None => Err(std::io::Error::from(std::io::ErrorKind::UnexpectedEof)),
        }
    })
}

fn try_open(bytes: &[u8]) -> Result<PtexReader<Read, Math>, Error> {
    PtexReader::new_with_options(stream(bytes), float_math as Math, false)
}

fn open(f: &File) -> PtexReader<Read, Math> {
    try_open(&build(f)).unwrap()
}

fn open_shared(f: &File, budget_bytes: usize) -> SharedReader<Read, Math> {
    SharedReader::new_with_options(
        stream(&build(f)),
        float_math as Math,
        CacheOptions { premultiply: false, budget_bytes },
    )
    .unwrap()
}

/// Read a face by streaming every tile into its place in a face-sized image.
fn assemble(tx: &mut PtexReader<Read, Math>, faceid: usize, res: Res) -> Vec<u8> {
    let psize = tx.pixel_size();
    let stride = res.u() * psize;
    let mut img = vec![0u8; res.size() * psize];
    let layout = tx.tile_layout(faceid, res).unwrap();
    assert_eq!(layout.res, res);
    for tile in 0..layout.ntiles() {
        let (u, v) = layout.tile_origin(tile);
        let off = v * stride + u * psize;
        tx.get_tile_into(faceid, res, tile, &mut img[off..], stride)
            .unwrap();
    }
    img
}

// ---- tiles ----

#[test]
fn tiles_reassemble_full_res() {
    for (name, f) in fixtures() {
        let mut tx = open(&f);
        for faceid in 0..tx.num_faces() {
            let res = tx.face_info(faceid).unwrap().res;
            let expected = tx.get_data(faceid).unwrap();
            assert!(
                assemble(&mut tx, faceid, res) == expected,
                "{name} face {faceid}: tile assembly differs from get_data"
            );
            if !f.faces[faceid].constant {
                assert!(expected == pixels(&f, faceid, 0), "{name} face {faceid}");
            }
        }
    }
}

#[test]
fn tiles_reassemble_stored_levels() {
    for (name, f) in fixtures() {
        let mut tx = open(&f);
        for faceid in 0..tx.num_faces() {
            for level in 0..tx.num_stored_levels(faceid).unwrap() {
                let res = tx.res_for_level(faceid, level).unwrap();
                assert!(tx.is_res_stored(faceid, res).unwrap());
                assert!(tx.tile_layout(faceid, res).unwrap().is_stored);
                let expected = tx.get_data_at_res(faceid, res).unwrap();
                assert!(
                    assemble(&mut tx, faceid, res) == expected,
                    "{name} face {faceid} level {level}: tile assembly differs"
                );
                if !f.faces[faceid].constant && !res.is_one() {
                    assert!(
                        expected == pixels(&f, faceid, level),
                        "{name} face {faceid} level {level}: not as stored"
                    );
                }
            }
        }
    }
}

#[test]
fn tiles_reassemble_every_level() {
    // Including levels that are not stored and so are computed by reduction.
    for (name, f) in fixtures() {
        let mut tx = open(&f);
        for faceid in 0..tx.num_faces() {
            for level in 0..tx.face_num_levels(faceid).unwrap() {
                let res = tx.res_for_level(faceid, level).unwrap();
                let expected = tx.get_data_at_res(faceid, res).unwrap();
                assert!(
                    assemble(&mut tx, faceid, res) == expected,
                    "{name} face {faceid} level {level}: tile assembly differs"
                );
            }
        }
    }
}

#[test]
fn computed_resolutions_report_one_tile() {
    // quad_f16 face 0 is 32x16; an anisotropic reduction is never stored.
    let mut tx = open(&quad_f16());
    let res = Res::new(3, 4 - 1);
    assert!(!tx.is_res_stored(0, res).unwrap());
    let layout = tx.tile_layout(0, res).unwrap();
    assert!(!layout.is_stored);
    assert!(!layout.is_tiled);
    assert_eq!(layout.ntiles(), 1);
    assert_eq!(layout.tile_res, res);
    assert_eq!(
        tx.get_tile(0, res, 0).unwrap(),
        tx.get_data_at_res(0, res).unwrap()
    );
    let info = tx.tile_info(0, res, 0).unwrap();
    assert_eq!(info.compressed_size, 0);
    assert_eq!(info.file_offset, None);
}

#[test]
fn constant_and_untiled_faces_report_one_tile() {
    let mut tx = open(&quad_u8());
    // face 2 of quad_u8 is a constant face
    let const_face = (0..tx.num_faces())
        .find(|&f| tx.face_info(f).unwrap().is_constant())
        .expect("fixture has a constant face");
    let res = tx.face_info(const_face).unwrap().res;
    let layout = tx.tile_layout(const_face, res).unwrap();
    assert!(layout.is_constant);
    assert!(!layout.is_tiled);
    assert!(layout.is_stored);
    assert_eq!(layout.ntiles(), 1);
    let info = tx.tile_info(const_face, res, 0).unwrap();
    assert!(info.is_constant);
    assert_eq!(info.compressed_size, 0);
    assert_eq!(info.file_offset, None);

    // a plain zipped/diffzipped face
    let plain = (0..tx.num_faces())
        .find(|&f| !tx.face_info(f).unwrap().is_constant())
        .unwrap();
    let res = tx.face_info(plain).unwrap().res;
    let layout = tx.tile_layout(plain, res).unwrap();
    assert!(!layout.is_constant);
    assert!(!layout.is_tiled);
    assert!(layout.is_stored);
    assert_eq!(layout.ntiles(), 1);
    let info = tx.tile_info(plain, res, 0).unwrap();
    assert!(!info.is_constant);
    assert!(info.compressed_size > 0);
    assert!(info.file_offset.is_some());
}

#[test]
fn fixture_f32_face0_is_tiled() {
    let mut tx = open(&quad_f32());
    let res = tx.face_info(0).unwrap().res;
    let layout = tx.tile_layout(0, res).unwrap();
    assert!(layout.is_tiled);
    assert!(layout.ntiles() > 1);
}

#[test]
fn tiled_face_shape_and_info() {
    let mut tx = open(&quad_f32());
    let res = tx.face_info(0).unwrap().res;
    assert_eq!(res, Res::new(7, 7));
    let layout = tx.tile_layout(0, res).unwrap();
    assert!(layout.is_tiled);
    assert!(layout.is_stored);
    assert!(!layout.is_constant);
    assert_eq!(layout.tile_res, Res::new(7, 6));
    assert_eq!((layout.ntilesu, layout.ntilesv), (1, 2));
    assert_eq!(layout.ntiles(), 2);

    assert_eq!(layout.tile_origin(0), (0, 0));
    assert_eq!(layout.tile_origin(1), (0, 64));
    assert_eq!(layout.tile_index(0, 0), 0);
    assert_eq!(layout.tile_index(127, 63), 0);
    assert_eq!(layout.tile_index(0, 64), 1);
    assert_eq!(layout.tile_index(127, 127), 1);
    assert_eq!(layout.tile_size_bytes(tx.pixel_size()), 128 * 64 * 12);

    // every texel maps into the tile whose span contains it
    for v in (0..res.v()).step_by(7) {
        for u in (0..res.u()).step_by(5) {
            let tile = layout.tile_index(u, v);
            let (ou, ov) = layout.tile_origin(tile);
            assert!(u >= ou && u < ou + layout.tile_res.u());
            assert!(v >= ov && v < ov + layout.tile_res.v());
        }
    }

    // per-tile info is answerable without reading pixels, and the tiles are
    // laid out consecutively in the file
    let t0 = tx.tile_info(0, res, 0).unwrap();
    let t1 = tx.tile_info(0, res, 1).unwrap();
    assert_eq!(t0.res, layout.tile_res);
    assert_eq!(t0.origin, (0, 0));
    assert_eq!(t1.origin, (0, 64));
    assert!(!t0.is_constant && !t1.is_constant);
    assert!(t0.compressed_size > 0 && t1.compressed_size > 0);
    assert_eq!(
        t1.file_offset.unwrap(),
        t0.file_offset.unwrap() + t0.compressed_size
    );
}

#[test]
fn tiles_are_numbered_v_major() {
    let mut tx = open(&quad_tiled());
    let res = tx.face_info(0).unwrap().res;
    let layout = tx.tile_layout(0, res).unwrap();
    assert_eq!((layout.ntilesu, layout.ntilesv), (4, 2));
    assert_eq!(layout.tile_coords(6), (2, 1));
    assert_eq!(layout.tile_origin(6), (32, 16));
    assert_eq!(layout.tile_index(47, 31), 6);
    assert_eq!(tx.tile_info(0, res, 6).unwrap().origin, (32, 16));
    let face = tx.get_data(0).unwrap();
    let tile = tx.get_tile(0, res, 6).unwrap();
    assert_eq!(tile[0], face[16 * 64 + 32]);
    assert_eq!(tile[16 + 3], face[17 * 64 + 35]);
}

#[test]
fn tile_out_of_range() {
    let mut tx = open(&quad_f32());
    let res = tx.face_info(0).unwrap().res;
    assert!(matches!(
        tx.get_tile(0, res, 2),
        Err(Error::TileOutOfRange { tile: 2, ntiles: 2 })
    ));
    assert!(matches!(
        tx.tile_info(0, res, 9),
        Err(Error::TileOutOfRange { tile: 9, ntiles: 2 })
    ));
    // an untiled face has exactly one tile
    let res1 = tx.face_info(1).unwrap().res;
    assert!(matches!(
        tx.get_tile(1, res1, 1),
        Err(Error::TileOutOfRange { tile: 1, ntiles: 1 })
    ));
}

#[test]
fn get_tile_into_with_padded_stride() {
    let mut tx = open(&quad_f32());
    let psize = tx.pixel_size();
    let res = tx.face_info(0).unwrap().res;
    let layout = tx.tile_layout(0, res).unwrap();
    let tile = 1;
    let rowlen = layout.tile_res.u() * psize;
    let stride = rowlen + 16;
    let mut buf = vec![0xabu8; stride * layout.tile_res.v()];
    tx.get_tile_into(0, res, tile, &mut buf, stride).unwrap();

    let face = tx.get_data(0).unwrap();
    let (ou, ov) = layout.tile_origin(tile);
    for v in 0..layout.tile_res.v() {
        let got = &buf[v * stride..v * stride + rowlen];
        let src = (ov + v) * res.u() * psize + ou * psize;
        assert_eq!(got, &face[src..src + rowlen], "row {v}");
        // padding bytes must be untouched
        if v + 1 < layout.tile_res.v() {
            assert!(buf[v * stride + rowlen..(v + 1) * stride]
                .iter()
                .all(|&b| b == 0xab));
        }
    }

    // buffers that are too small, or strides below the row length, are rejected
    let mut small = vec![0u8; rowlen * layout.tile_res.v() - 1];
    assert!(tx.get_tile_into(0, res, tile, &mut small, 0).is_err());
    let mut ok = vec![0u8; rowlen * layout.tile_res.v()];
    assert!(tx.get_tile_into(0, res, tile, &mut ok, rowlen - 1).is_err());
}

#[test]
fn repeated_tile_reads_are_stable_under_any_cache_capacity() {
    let mut tx = open(&quad_f32());
    let res = tx.face_info(0).unwrap().res;
    assert_eq!(tx.tile_cache_capacity(), 16);
    let baseline: Vec<Vec<u8>> = (0..2).map(|t| tx.get_tile(0, res, t).unwrap()).collect();

    for cap in [0usize, 1, 64] {
        tx.set_tile_cache_capacity(cap);
        assert_eq!(tx.tile_cache_capacity(), cap.max(1));
        for _ in 0..3 {
            for (t, expected) in baseline.iter().enumerate() {
                assert!(&tx.get_tile(0, res, t).unwrap() == expected);
            }
        }
    }
}

// ---- mipmap levels ----

#[test]
fn mip_level_helpers() {
    let tx = open(&quad_f32());
    // face 0 is 128x128, face 1 is 32x32
    assert_eq!(tx.face_num_levels(0).unwrap(), 8);
    assert_eq!(tx.face_num_levels(1).unwrap(), 6);
    assert_eq!(tx.res_for_level(0, 0).unwrap(), Res::new(7, 7));
    assert_eq!(tx.res_for_level(0, 3).unwrap(), Res::new(4, 4));
    assert!(tx.res_for_level(0, 8).is_err());

    // stored levels are a prefix, and every one of them really is stored
    for faceid in 0..tx.num_faces() {
        let n = tx.num_stored_levels(faceid).unwrap();
        assert!(n >= 1);
        for level in 0..n {
            let res = tx.res_for_level(faceid, level).unwrap();
            assert!(tx.is_res_stored(faceid, res).unwrap());
        }
    }
    assert_eq!(tx.num_stored_levels(0).unwrap(), 3);
    assert_eq!(tx.num_stored_levels(1).unwrap(), 2);

    // a triangle fixture too
    let tri = open(&tri_u16());
    assert_eq!(tri.face_num_levels(0).unwrap(), 6);
    assert_eq!(tri.res_for_level(0, 2).unwrap(), Res::new(3, 3));
}

#[test]
fn is_res_stored_matches_level_entry() {
    for (name, f) in fixtures() {
        let tx = open(&f);
        let order = reduction_order(&f);
        for faceid in 0..tx.num_faces() {
            let fi = *tx.face_info(faceid).unwrap();
            for level in 0..tx.face_num_levels(faceid).unwrap() {
                let res = tx.res_for_level(faceid, level).unwrap();
                let predicted = tx.is_res_stored(faceid, res).unwrap();
                let actual = if fi.is_constant() || res.is_one() || level == 0 {
                    true
                } else if level < tx.num_levels() {
                    let facepos = order.iter().position(|&i| i == faceid).unwrap();
                    facepos < f.levels[level]
                } else {
                    false
                };
                assert_eq!(predicted, actual, "{name} face {faceid} level {level}");
            }
        }
    }
}

/// Mean of integer elements of a packed image.
fn mean_u8(img: &[u8], at: &[usize]) -> u8 {
    (at.iter().map(|&i| img[i] as u32).sum::<u32>() / at.len() as u32) as u8
}

#[test]
fn quad_reductions_alternate_directions() {
    // 16x4: from (4,2) down to (2,2) in u, u being further from its goal
    let f = quad(0, 1, vec![face(4, 2, [Z, Z, Z])], vec![1]);
    let mut tx = open(&f);
    let full = tx.get_data(0).unwrap();
    let r1 = tx.get_data_at_res(0, Res::new(3, 2)).unwrap();
    let want: Vec<u8> = (0..32).map(|i| mean_u8(&full, &[2 * i, 2 * i + 1])).collect();
    assert_eq!(r1, want);

    // both dimensions one step down: an odd log2 in u blends u last
    let r = tx.get_data_at_res(0, Res::new(3, 1)).unwrap();
    let v_first: Vec<u8> = (0..2)
        .flat_map(|v| (0..16).map(move |u| (v, u)))
        .map(|(v, u)| mean_u8(&full, &[2 * v * 16 + u, (2 * v + 1) * 16 + u]))
        .collect();
    let want: Vec<u8> = (0..16).map(|i| mean_u8(&v_first, &[2 * i, 2 * i + 1])).collect();
    assert_eq!(r, want);
}

#[test]
fn triangle_reductions_blend_the_mirrored_texel() {
    let f = tri_u16();
    let mut tx = open(&f);
    let src: Vec<u16> = tx
        .get_data_at_res(0, Res::new(4, 4))
        .unwrap()
        .chunks_exact(2)
        .map(|c| u16::from_le_bytes([c[0], c[1]]))
        .collect();
    let got: Vec<u16> = tx
        .get_data_at_res(0, Res::new(3, 3))
        .unwrap()
        .chunks_exact(2)
        .map(|c| u16::from_le_bytes([c[0], c[1]]))
        .collect();
    let w = 16;
    for v in 0..8 {
        for u in 0..8 {
            for c in 0..2 {
                let at = |x: usize, y: usize| src[(y * w + x) * 2 + c] as u32;
                let sum = at(2 * u, 2 * v)
                    + at(2 * u + 1, 2 * v)
                    + at(2 * u, 2 * v + 1)
                    + at(w - 1 - 2 * v, w - 1 - 2 * u);
                assert_eq!(got[(v * 8 + u) * 2 + c] as u32, sum / 4);
            }
        }
    }
    assert!(matches!(
        tx.get_data_at_res(0, Res::new(3, 2)),
        Err(Error::Unsupported(_))
    ));
}

#[test]
fn float_reductions_average() {
    let f = quad(3, 1, vec![face(1, 1, [Z, Z, Z])], vec![1]);
    let mut tx = open(&f);
    let vals = |b: &[u8]| -> Vec<f32> {
        b.chunks_exact(4)
            .map(|c| f32::from_le_bytes([c[0], c[1], c[2], c[3]]))
            .collect()
    };
    let full = vals(&tx.get_data(0).unwrap());
    let r = vals(&tx.get_data_at_res(0, Res::new(0, 1)).unwrap());
    assert_eq!(r, vec![0.5 * (full[0] + full[1]), 0.5 * (full[2] + full[3])]);
    // a single texel is the face's constant value
    assert_eq!(
        tx.get_data_at_res(0, Res::new(0, 0)).unwrap(),
        constant_pixel(&f, 0)
    );
}

#[test]
fn unsupported_resolutions() {
    let mut tx = open(&quad_u8());
    let message = |r: Result<Vec<u8>, Error>| r.unwrap_err().message();
    assert_eq!(
        message(tx.get_data_at_res(0, Res::new(-1, 3))),
        "unsupported operation: reductions below 1 pixel are not supported"
    );
    assert_eq!(
        message(tx.get_data_at_res(0, Res::new(4, 3))),
        "unsupported operation: enlargements are not supported"
    );
    assert_eq!(
        message(tx.get_data(4)),
        "face id 4 out of range (file has 4 faces)"
    );
    let mut tri = open(&tri_u16());
    assert_eq!(
        message(tri.get_data_at_res(0, Res::new(5, 4))),
        "unsupported operation: anisotropic reductions are not supported for triangle meshes"
    );
    assert_eq!(
        tx.res_for_level(0, 4).unwrap_err().message(),
        "unsupported operation: reductions below 1 pixel are not supported"
    );
}

#[test]
fn image_larger_than_memory_is_refused() {
    // a constant face has an image of every resolution
    let f = quad_u8();
    let mut tx = open(&f);
    let huge = Res::new(31, 31);
    let refused = "unsupported operation: buffer too small for requested res";
    assert_eq!(tx.get_data_at_res(2, huge).unwrap_err().message(), refused);
    let shared = open_shared(&f, ptex::DEFAULT_CACHE_BUDGET);
    assert_eq!(shared.get_data_at_res(2, huge).unwrap_err().message(), refused);
}

#[test]
fn the_source_of_a_face_is_tested_before_the_size() {
    let f = quad_f32();
    let mut tx = open(&f);
    let shared = open_shared(&f, ptex::DEFAULT_CACHE_BUDGET);
    let huge = Res::new(31, 31);
    let missing = "face id 99 out of range (file has 2 faces)";
    assert_eq!(tx.get_data_at_res(99, huge).unwrap_err().message(), missing);
    assert_eq!(shared.get_data_at_res(99, huge).unwrap_err().message(), missing);
    assert!(matches!(
        shared.get_data_at_res(99, huge),
        Err(Error::FaceOutOfRange { .. })
    ));
    let larger = "unsupported operation: enlargements are not supported";
    assert_eq!(tx.get_data_at_res(0, huge).unwrap_err().message(), larger);
    assert_eq!(shared.get_data_at_res(0, huge).unwrap_err().message(), larger);
}

#[test]
fn a_block_is_read_before_its_size_is_tested() {
    let both = |bytes: &[u8]| {
        let mut tx = try_open(bytes).unwrap();
        let shared = SharedReader::new(stream(bytes), float_math as Math).unwrap();
        (tx.get_data(0).unwrap_err(), shared.get_data(0).unwrap_err())
    };
    // a constant block that is too short, and one that is not
    let short = both(&one_block(1, (31, 31), 1, &[0x34]));
    let corrupt = "corrupt ptex file: constant block shorter than a pixel";
    assert_eq!((short.0.message(), short.1.message()), (corrupt.into(), corrupt.into()));
    let whole = both(&one_block(1, (31, 31), 2, &[0x34, 0x12]));
    let refused = "unsupported operation: buffer too small for requested res";
    assert_eq!((whole.0.message(), whole.1.message()), (refused.into(), refused.into()));
    // a zipped block past the end of the file, and one that is there
    let gone = both(&one_block(1, (31, 31), (1 << 30) | 9, &[0; 4]));
    assert!(matches!(gone.0, Error::Io(_)) && matches!(gone.1, Error::Io(_)));
    let there = both(&one_block(1, (31, 31), (1 << 30) | 4, &[0; 4]));
    assert_eq!((there.0.message(), there.1.message()), (refused.into(), refused.into()));
    // a tiled block, whose directory is not read
    let tiled = both(&one_block(1, (31, 31), (3 << 30) | 4, &[0; 4]));
    assert_eq!((tiled.0.message(), tiled.1.message()), (refused.into(), refused.into()));
}

// ---- single texels ----

fn values(dt: DataType, pixel: &[u8]) -> Vec<u32> {
    match dt {
        DataType::UInt8 => pixel.iter().map(|&b| b as u32).collect(),
        DataType::UInt16 | DataType::Half => pixel
            .chunks_exact(2)
            .map(|c| u16::from_le_bytes([c[0], c[1]]) as u32)
            .collect(),
        DataType::Float => pixel
            .chunks_exact(4)
            .map(|c| u32::from_le_bytes([c[0], c[1], c[2], c[3]]))
            .collect(),
    }
}

#[test]
fn get_pixel_agrees_with_streamed_tiles() {
    for (name, f) in fixtures() {
        let mut tx = open(&f);
        let nchan = tx.num_channels();
        let psize = tx.pixel_size();
        for faceid in 0..tx.num_faces() {
            let res = tx.face_info(faceid).unwrap().res;
            let face = tx.get_data(faceid).unwrap();
            for (u, v) in [
                (0, 0),
                (res.u() - 1, res.v() - 1),
                (res.u() / 2, res.v() / 2),
            ] {
                let got = tx.get_pixel(faceid, u, v, 0, nchan).unwrap();
                let off = (v * res.u() + u) * psize;
                let expected = values(tx.data_type(), &face[off..off + psize]);
                assert_eq!(got, expected, "{name} face {faceid} texel ({u},{v})");
                assert_eq!(
                    tx.read_texel(faceid, res, u, v).unwrap(),
                    &face[off..off + psize]
                );
            }
        }
    }
}

#[test]
fn pixel_channels_are_clipped() {
    let mut tx = open(&quad_u8());
    let all = tx.get_pixel(0, 1, 2, 0, 4).unwrap();
    assert_eq!(all.len(), 4);
    assert_eq!(tx.get_pixel(0, 1, 2, 1, 2).unwrap(), &all[1..3]);
    assert_eq!(tx.get_pixel(0, 1, 2, 2, 9).unwrap(), &all[2..4]);
    assert_eq!(tx.get_pixel(0, 1, 2, 4, 1).unwrap(), Vec::<u32>::new());
    // nothing to return, so not even the face is looked at
    assert_eq!(tx.get_pixel(99, 1, 2, 0, 0).unwrap(), Vec::<u32>::new());
    assert!(matches!(
        tx.get_pixel(99, 0, 0, 0, 1),
        Err(Error::FaceOutOfRange { faceid: 99, nfaces: 4 })
    ));
    assert_eq!(
        tx.get_pixel(0, 8, 0, 0, 1).unwrap_err().message(),
        "unsupported operation: pixel coordinates out of range"
    );
}

// ---- premultiplication ----

#[test]
fn premultiplication_at_level_zero_alone() {
    let f = quad_u8();
    let bytes = build(&f);
    let mut plain = try_open(&bytes).unwrap();
    let mut multiplied =
        PtexReader::new_with_options(stream(&bytes), float_math as Math, true).unwrap();
    let want: Vec<u8> = plain
        .get_data(0)
        .unwrap()
        .chunks_exact(4)
        .flat_map(|p| {
            let a = 1.0f32 / 255.0 * p[3] as f32;
            [
                (p[0] as f32 * a) as u8,
                (p[1] as f32 * a) as u8,
                (p[2] as f32 * a) as u8,
                p[3],
            ]
        })
        .collect();
    assert_eq!(multiplied.get_data(0).unwrap(), want);
    let c = plain.constant_data(2).unwrap().to_vec();
    let a = 1.0f32 / 255.0 * c[3] as f32;
    assert_eq!(multiplied.constant_data(2).unwrap()[0], (c[0] as f32 * a) as u8);
    let res = plain.res_for_level(0, 1).unwrap();
    assert_eq!(
        multiplied.get_data_at_res(0, res).unwrap(),
        plain.get_data_at_res(0, res).unwrap()
    );
}

// ---- header and meta data ----

#[test]
fn header_fields() {
    let tx = open(&quad_u8());
    assert_eq!(tx.mesh_type(), MeshType::Quad);
    assert_eq!(tx.mesh_type().name(), "quad");
    assert_eq!(tx.data_type(), DataType::UInt8);
    assert_eq!(tx.data_type().name(), "uint8");
    assert_eq!(tx.alpha_channel(), 3);
    assert!(tx.has_alpha());
    assert_eq!(tx.num_channels(), 4);
    assert_eq!(tx.pixel_size(), 4);
    assert_eq!(tx.num_faces(), 4);
    assert_eq!(tx.num_levels(), 3);
    assert!(tx.has_mip_maps());
    assert_eq!(tx.minor_version(), 4);
    assert_eq!(tx.u_border_mode(), BorderMode::Black);
    assert_eq!(tx.v_border_mode(), BorderMode::Periodic);
    assert_eq!(tx.edge_filter_mode(), EdgeFilterMode::TangentVector);
    assert!(!tx.has_edits());
    let fi = tx.face_info(3).unwrap();
    assert_eq!(fi.adjedge(0), EdgeId::Bottom);
    assert_eq!(fi.adjedge(1), EdgeId::Right);
    assert_eq!(fi.adjedge(2), EdgeId::Top);
    assert_eq!(fi.adjedge(3), EdgeId::Left);
    assert_eq!(fi.adjface(0), 3);
    assert_eq!(fi.adjface(3), 0);
    assert_eq!(tx.face_info(0).unwrap().adjface(3), -3);
    assert_eq!(tx.face_infos().len(), 4);

    let tri = open(&tri_u16());
    assert_eq!(tri.mesh_type().name(), "triangle");
    assert_eq!(tri.u_border_mode().name(), "clamp");
    assert_eq!(tri.edge_filter_mode().name(), "none");
    assert!(!tri.has_alpha());
}

#[test]
fn edits_are_reported() {
    let mut f = quad_u8();
    put_u64(&mut f.ext, 24, 17);
    assert!(open(&f).has_edits());
}

#[test]
fn extended_header_of_any_length() {
    let mut f = quad_f16();
    f.ext = vec![2, 0];
    assert_eq!(open(&f).u_border_mode(), BorderMode::Periodic);
    assert_eq!(open(&f).v_border_mode(), BorderMode::Clamp);
    f.ext = vec![0u8; 64];
    put_u16(&mut f.ext, 4, 1);
    let mut tx = open(&f);
    assert_eq!(tx.v_border_mode(), BorderMode::Black);
    assert_eq!(tx.get_data(0).unwrap(), pixels(&f, 0, 0));
}

#[test]
fn meta_data_entries() {
    let mut tx = open(&quad_u8());
    let md = tx.metadata().unwrap();
    assert_eq!(md.len(), 7);
    assert!(!md.is_empty());
    assert_eq!(
        md.keys(),
        vec!["PtexFaceVertCounts", "bytes", "shorts", "ints", "floats", "doubles", "large"]
    );
    assert_eq!(md.get_string("PtexFaceVertCounts"), Some("hello"));
    assert_eq!(md.find("PtexFaceVertCounts").unwrap().len(), 6);
    assert_eq!(md.get_i8("bytes"), Some(vec![1, -1]));
    assert_eq!(md.get_i16("shorts"), Some(vec![2, -2]));
    assert_eq!(md.get_i32("ints"), Some(vec![3, -3]));
    assert_eq!(md.get_i32("shorts"), None);
    assert_eq!(md.get_string("nothing"), None);
    assert_eq!(md.entry(4).unwrap().data_type(), MetaDataType::Float);
    assert_eq!(md.entry(4).unwrap().raw_data(), &1.5f32.to_le_bytes());
    assert_eq!(md.entry(4).unwrap().len(), 1);
    assert_eq!(md.entry(5).unwrap().data_type().name(), "double");
    assert!(md.entry(7).is_none());
    // a large entry is a block of its own
    assert_eq!(md.get_i8("large"), Some(vec![7; 300]));
    assert_eq!(md.iter().len(), 7);
    for e in md.iter() {
        assert!(!e.is_empty());
    }
}

#[test]
fn keys_and_strings_that_are_not_utf8() {
    let mut f = quad_f16();
    f.meta = vec![3, b'a', 0xff, 0, 0];
    f.meta.extend_from_slice(&2u32.to_le_bytes());
    f.meta.extend_from_slice(&[0xfe, 0]);
    let mut tx = open(&f);
    let md = tx.metadata().unwrap();
    assert_eq!(md.keys(), vec!["a\u{fffd}"]);
    assert_eq!(md.get_string("a\u{fffd}"), None);
}

#[test]
fn broken_meta_data_is_refused() {
    let message = |meta: Vec<u8>| {
        let mut f = quad_f16();
        f.meta = meta;
        open(&f).metadata().unwrap_err().message()
    };
    let whole = meta_entry("key", 1, &[1, 2, 3]);
    assert_eq!(
        message(whole[..3].to_vec()),
        "corrupt ptex file: truncated meta data block"
    );
    assert_eq!(message(vec![0, 0]), "corrupt ptex file: truncated meta data block");
    assert_eq!(message(whole[..8].to_vec()), "corrupt ptex file: truncated block");
    assert_eq!(
        message(whole[..11].to_vec()),
        "corrupt ptex file: meta data entry overruns block"
    );
    assert_eq!(
        message(meta_entry("key", 6, &[])),
        "corrupt ptex file: invalid meta data type (6)"
    );
}

// ---- files that are not right ----

#[test]
fn headers_that_are_refused() {
    let good = build(&quad_u8());
    let message = |off: usize, v: u32| {
        let mut bytes = good.clone();
        put_u32(&mut bytes, off, v);
        match try_open(&bytes) {
            Err(e) => e.message(),
            Ok(_) => panic!("opened"),
        }
    };
    assert_eq!(message(0, 7), "not a ptex file");
    assert_eq!(message(4, 2), "unsupported ptex file version (2)");
    assert_eq!(message(8, 5), "invalid mesh type (5)");
    assert_eq!(message(12, 4000000000), "invalid data type (4000000000)");
    assert_eq!(message(40, 47), "corrupt ptex file: level info size mismatch");
    assert_eq!(
        message(24, 5),
        "corrupt ptex file: unzip size mismatch (expected 100, got 80)"
    );
    assert!(matches!(try_open(&good[..63]), Err(Error::Io(_))));
    assert!(try_open(&good[..63]).err().unwrap().message().starts_with("I/O error: "));
    let mut bytes = good.clone();
    put_u64(&mut bytes, 48, u64::MAX);
    assert_eq!(
        try_open(&bytes).err().unwrap().message(),
        "corrupt ptex file: block offset out of range"
    );
    let mut bytes = good.clone();
    bytes[104] = 0xff;
    assert!(try_open(&bytes)
        .err()
        .unwrap()
        .message()
        .starts_with("corrupt ptex file: unzip failed: "));
}

#[test]
fn a_face_past_the_end_of_the_file_is_an_io_error() {
    let f = quad_f32();
    let bytes = build(&f);
    let mut tx = try_open(&bytes[..bytes.len() - 20]).unwrap();
    assert_eq!(tx.get_data(0).unwrap(), pixels(&f, 0, 0));
    let res = tx.res_for_level(0, 2).unwrap();
    assert!(matches!(tx.get_data_at_res(0, res), Err(Error::Io(_))));
    // the layout needs no pixels
    assert!(tx.tile_layout(0, res).is_ok());
}

#[test]
fn large_faces_have_their_sizes_in_a_table() {
    // level 0 by hand: a face flagged large, whose size follows in a table,
    // and a second face behind it
    let f = quad(0, 1, vec![face(2, 2, [Enc::Tiled(1, 1), Z, Z]), face(1, 1, [Z, Z, Z])], vec![2]);
    let (h0, d0) = block(&f, &pixels(&f, 0, 0), 2, 2, Enc::Tiled(1, 1));
    let (h1, d1) = block(&f, &pixels(&f, 1, 0), 1, 1, Z);
    let mut head = Vec::new();
    head.extend_from_slice(&(h0 | 0x3fff_ffff).to_le_bytes());
    head.extend_from_slice(&h1.to_le_bytes());
    let head = zlib(&head);
    let mut all = head.clone();
    all.extend_from_slice(&(d0.len() as u64).to_le_bytes());
    all.extend_from_slice(&d0);
    all.extend_from_slice(&d1);
    let mut bytes = build(&f);
    let u32_at = |b: &[u8], o: usize| u32::from_le_bytes([b[o], b[o + 1], b[o + 2], b[o + 3]]);
    let info = 64 + (u32_at(&bytes, 32) + u32_at(&bytes, 36)) as usize;
    bytes.truncate(info + 16);
    put_u64(&mut bytes, 48, all.len() as u64);
    put_u64(&mut bytes, info, all.len() as u64);
    put_u32(&mut bytes, info + 8, head.len() as u32);
    bytes.extend_from_slice(&all);
    let mut tx = try_open(&bytes).unwrap();
    assert_eq!(tx.get_data(1).unwrap(), pixels(&f, 1, 0));
    assert_eq!(tx.get_data(0).unwrap(), pixels(&f, 0, 0));
}

#[test]
fn buffers_and_strides() {
    let f = quad_u8();
    let mut tx = open(&f);
    let res = tx.face_info(1).unwrap().res; // 16x4, 64 bytes a row
    let img = tx.get_data(1).unwrap();
    // the last row needs no padding
    let mut buf = vec![0x55u8; 70 * 3 + 64];
    tx.get_data_into(1, res, &mut buf, 70).unwrap();
    for v in 0..4 {
        assert_eq!(&buf[v * 70..v * 70 + 64], &img[v * 64..(v + 1) * 64]);
    }
    assert!(buf[64..70].iter().all(|&b| b == 0x55));
    let mut small = vec![0x55u8; 70 * 3 + 63];
    assert_eq!(
        tx.get_data_into(1, res, &mut small, 70).unwrap_err().message(),
        "unsupported operation: buffer too small for requested res"
    );
    assert!(small.iter().all(|&b| b == 0x55));
    assert!(tx.get_data_into(1, res, &mut buf, 63).is_err());
    assert!(tx.get_data_into(1, res, &mut buf, usize::MAX).is_err());
}

// ---- the shared reader ----

#[test]
fn handle_is_send_and_sync() {
    fn assert_send_sync<T: Send + Sync>() {}
    assert_send_sync::<SharedReader<Read, Math>>();
    assert_send_sync::<ptex::PixelData>();
    assert_send_sync::<ptex::CacheStats>();
}

#[test]
fn reader_is_send() {
    fn assert_send<T: Send>() {}
    assert_send::<PtexReader<Read, Math>>();
}

#[test]
fn header_and_metadata_match_the_plain_reader() {
    for (name, f) in fixtures() {
        let mut plain = open(&f);
        let shared = open_shared(&f, ptex::DEFAULT_CACHE_BUDGET);
        assert_eq!(shared.mesh_type(), plain.mesh_type());
        assert_eq!(shared.data_type(), plain.data_type());
        assert_eq!(shared.num_faces(), plain.num_faces());
        assert_eq!(shared.num_channels(), plain.num_channels());
        assert_eq!(shared.alpha_channel(), plain.alpha_channel());
        assert_eq!(shared.pixel_size(), plain.pixel_size());
        assert_eq!(shared.num_levels(), plain.num_levels());
        assert_eq!(shared.has_mip_maps(), plain.has_mip_maps());
        assert_eq!(shared.minor_version(), plain.minor_version());
        assert_eq!(shared.face_infos(), plain.face_infos());
        for f in 0..shared.num_faces() {
            assert_eq!(
                shared.constant_data(f).unwrap(),
                plain.constant_data(f).unwrap()
            );
        }
        let expected: Vec<(String, usize)> = plain
            .metadata()
            .unwrap()
            .iter()
            .iter()
            .map(|e| (e.key().to_string(), e.raw_data().len()))
            .collect();
        let got: Vec<(String, usize)> = shared
            .metadata()
            .unwrap()
            .iter()
            .iter()
            .map(|e| (e.key().to_string(), e.raw_data().len()))
            .collect();
        assert_eq!(got, expected, "{name}: metadata");
    }
}

#[test]
fn pixel_data_matches_the_plain_reader() {
    for (name, f) in fixtures() {
        let mut plain = open(&f);
        let shared = open_shared(&f, ptex::DEFAULT_CACHE_BUDGET);
        let nchan = shared.num_channels();
        for faceid in 0..shared.num_faces() {
            for level in 0..plain.face_num_levels(faceid).unwrap() {
                let res = plain.res_for_level(faceid, level).unwrap();
                let expected = plain.get_data_at_res(faceid, res).unwrap();
                assert!(
                    shared.get_data_at_res(faceid, res).unwrap().as_slice() == expected.as_slice(),
                    "{name} face {faceid} level {level}: get_data_at_res"
                );

                // and through the caller-buffer API, with a padded stride
                let psize = shared.pixel_size();
                let rowlen = res.u() * psize;
                let stride = rowlen + 8;
                let mut buf = vec![0u8; stride * res.v()];
                shared.get_data_into(faceid, res, &mut buf, stride).unwrap();
                for v in 0..res.v() {
                    assert_eq!(
                        &buf[v * stride..v * stride + rowlen],
                        &expected[v * rowlen..(v + 1) * rowlen],
                        "{name} face {faceid} level {level} row {v}"
                    );
                }

                // tile layouts and tiles agree
                let el = plain.tile_layout(faceid, res).unwrap();
                let sl = shared.tile_layout(faceid, res).unwrap();
                assert_eq!(sl, el, "{name} face {faceid} level {level}: layout");
                for tile in 0..sl.ntiles() {
                    assert_eq!(
                        shared.tile_info(faceid, res, tile).unwrap(),
                        plain.tile_info(faceid, res, tile).unwrap()
                    );
                    let want = plain.get_tile(faceid, res, tile).unwrap();
                    assert!(
                        shared.get_tile(faceid, res, tile).unwrap().as_slice() == want.as_slice(),
                        "{name} face {faceid} level {level} tile {tile}"
                    );
                    let mut buf = vec![0u8; want.len()];
                    shared.get_tile_into(faceid, res, tile, &mut buf, 0).unwrap();
                    assert!(buf == want, "{name} face {faceid} level {level} tile {tile}");
                }
            }

            let res = shared.face_info(faceid).unwrap().res;
            for (u, v) in [
                (0, 0),
                (res.u() - 1, res.v() - 1),
                (res.u() / 2, res.v() / 3),
            ] {
                assert_eq!(
                    shared.get_pixel(faceid, u, v, 0, nchan).unwrap(),
                    plain.get_pixel(faceid, u, v, 0, nchan).unwrap(),
                    "{name} face {faceid} texel ({u},{v})"
                );
            }
        }
    }
}

#[test]
fn premultiply_matches_the_plain_reader() {
    let bytes = build(&quad_u8());
    let mut plain =
        PtexReader::new_with_options(stream(&bytes), float_math as Math, true).unwrap();
    let shared = SharedReader::new_with_options(
        stream(&bytes),
        float_math as Math,
        CacheOptions {
            premultiply: true,
            ..CacheOptions::default()
        },
    )
    .unwrap();
    for faceid in 0..shared.num_faces() {
        let res = plain.face_info(faceid).unwrap().res;
        assert!(
            shared.get_data(faceid).unwrap().as_slice()
                == plain.get_data_at_res(faceid, res).unwrap().as_slice()
        );
    }
}

#[test]
fn tile_index_out_of_range() {
    let shared = open_shared(&quad_f32(), ptex::DEFAULT_CACHE_BUDGET);
    let res = shared.face_info(0).unwrap().res;
    assert!(matches!(
        shared.get_tile(0, res, 2),
        Err(Error::TileOutOfRange { tile: 2, ntiles: 2 })
    ));
    assert_eq!(
        shared.get_tile(0, res, 2).unwrap_err().message(),
        "tile 2 out of range (face has 2 tiles)"
    );
}

#[test]
fn results_are_exact_under_every_cache_budget() {
    for (name, f) in fixtures() {
        let mut plain = open(&f);
        let mut expected = Vec::new();
        for faceid in 0..plain.num_faces() {
            for level in 0..plain.face_num_levels(faceid).unwrap() {
                let res = plain.res_for_level(faceid, level).unwrap();
                expected.push((faceid, res, plain.get_data_at_res(faceid, res).unwrap()));
            }
        }

        for budget in [0usize, 1, 1024, 64 * 1024, usize::MAX] {
            let shared = open_shared(&f, budget);
            assert_eq!(shared.cache_budget(), budget);
            // read everything twice, so eviction and reuse both happen
            for _ in 0..2 {
                for (faceid, res, want) in &expected {
                    assert!(
                        shared.get_data_at_res(*faceid, *res).unwrap().as_slice()
                            == want.as_slice(),
                        "{name} face {faceid} at budget {budget}"
                    );
                }
            }
            let stats = shared.cache_stats();
            assert!(stats.bytes_resident <= stats.bytes_budget);
            if budget == 0 {
                assert_eq!(stats.entries, 0);
                assert!(stats.oversized > 0);
            }
        }
    }
}

#[test]
fn shrinking_the_budget_evicts_and_clearing_empties() {
    let f = quad_f32();
    let shared = open_shared(&f, ptex::DEFAULT_CACHE_BUDGET);
    for faceid in 0..shared.num_faces() {
        let res = shared.face_info(faceid).unwrap().res;
        let _ = shared.get_data_at_res(faceid, res).unwrap();
    }
    let before = shared.cache_stats();
    assert!(before.bytes_resident > 0);
    assert!(before.entries > 0);

    shared.set_cache_budget(1024);
    let shrunk = shared.cache_stats();
    assert!(shrunk.bytes_resident <= 1024);
    assert!(shrunk.evictions > 0);

    shared.set_cache_budget(ptex::DEFAULT_CACHE_BUDGET);
    let res = shared.face_info(0).unwrap().res;
    let again = shared.get_data_at_res(0, res).unwrap();
    let mut plain = open(&f);
    assert!(again.as_slice() == plain.get_data(0).unwrap());

    shared.clear_cache();
    assert_eq!(shared.cache_stats().bytes_resident, 0);
    assert_eq!(shared.cache_stats().entries, 0);
    // still correct after a cold cache
    assert!(shared.get_data_at_res(0, res).unwrap().as_slice() == plain.get_data(0).unwrap());
}

#[test]
fn hits_misses_and_charges() {
    let f = quad_tiled();
    let shared = open_shared(&f, ptex::DEFAULT_CACHE_BUDGET);
    let res = shared.face_info(0).unwrap().res;
    shared.get_data(0).unwrap();
    let cold = shared.cache_stats();
    // one tile directory and eight tiles of 16x16
    assert_eq!((cold.hits, cold.misses, cold.entries), (0, 9, 9));
    assert_eq!(cold.bytes_resident, 9 * 96 + 8 * 12 + 8 * 256);
    let handle = shared.clone();
    handle.get_data(0).unwrap();
    let warm = shared.cache_stats();
    assert_eq!((warm.hits, warm.misses, warm.evictions), (9, 9, 0));
    // the least recently used entry goes first
    let first = shared.get_tile(0, res, 0).unwrap();
    shared.set_cache_budget(2 * 96 + 8 * 12 + 256);
    let before = shared.cache_stats();
    assert_eq!((before.entries, before.evictions), (2, 7));
    assert_eq!(shared.get_tile(0, res, 0).unwrap().as_slice(), first.as_slice());
    assert_eq!(shared.cache_stats().misses, before.misses);
}

#[test]
fn a_texel_of_a_tiled_face_is_looked_up_as_its_tile_is() {
    let f = quad_tiled();
    let shared = open_shared(&f, ptex::DEFAULT_CACHE_BUDGET);
    let counts = || {
        let s = shared.cache_stats();
        (s.hits, s.misses)
    };
    // the directory three times, for the layout and for the tile, and the tile
    let texel = shared.get_pixel(0, 17, 3, 0, 1).unwrap();
    assert_eq!(texel, vec![pixels(&f, 0, 0)[3 * 64 + 17] as u32]);
    assert_eq!(counts(), (2, 2));
    shared.get_pixel(0, 17, 3, 0, 1).unwrap();
    assert_eq!(counts(), (6, 2));
    let res = shared.face_info(0).unwrap().res;
    shared.get_tile(0, res, 1).unwrap();
    assert_eq!(counts(), (9, 2));
    shared.tile_info(0, res, 1).unwrap();
    assert_eq!(counts(), (11, 2));
}

#[test]
fn the_budget_is_the_one_given_until_it_is_set() {
    let bytes = build(&quad_f32());
    let shared = SharedReader::new(stream(&bytes), float_math as Math).unwrap();
    assert_eq!(shared.cache_budget(), ptex::DEFAULT_CACHE_BUDGET);
    let shared = open_shared(&quad_f32(), 12345);
    assert_eq!(shared.cache_budget(), 12345);
    shared.get_data(0).unwrap();
    shared.clear_cache();
    assert_eq!(shared.cache_budget(), 12345);
    assert_eq!(shared.cache_stats().bytes_budget, 12345);
    shared.clone().set_cache_budget(7);
    assert_eq!(shared.cache_budget(), 7);
    assert_eq!(shared.cache_stats().bytes_budget, 7);
}

#[test]
fn a_kept_tile_directory_is_not_read_again() {
    let reads = Arc::new(AtomicUsize::new(0));
    let count = reads.clone();
    let inner = stream(&build(&quad_tiled()));
    let read: Read = Box::new(move |pos, len| {
        count.fetch_add(1, Ordering::SeqCst);
        inner(pos, len)
    });
    let mut tx = PtexReader::new(read, float_math as Math).unwrap();
    tx.set_tile_cache_capacity(1);
    let full = tx.res_for_level(0, 0).unwrap();
    let half = tx.res_for_level(0, 1).unwrap();
    tx.get_tile(0, full, 0).unwrap();
    tx.get_tile(0, half, 0).unwrap();
    // both levels are known now, and the directory of the second is kept
    let before = reads.load(Ordering::SeqCst);
    tx.tile_layout(0, half).unwrap();
    tx.tile_info(0, half, 1).unwrap();
    assert_eq!(reads.load(Ordering::SeqCst), before);
    tx.get_tile(0, half, 1).unwrap();
    assert_eq!(reads.load(Ordering::SeqCst), before + 1);
    // with room for one, the other takes its place
    tx.tile_layout(0, full).unwrap();
    let after = reads.load(Ordering::SeqCst);
    assert!(after > before + 1);
    tx.tile_layout(0, half).unwrap();
    assert!(reads.load(Ordering::SeqCst) > after);
    // with room for two, both stay
    tx.set_tile_cache_capacity(2);
    tx.tile_layout(0, full).unwrap();
    let after = reads.load(Ordering::SeqCst);
    tx.tile_layout(0, half).unwrap();
    tx.tile_layout(0, full).unwrap();
    assert_eq!(reads.load(Ordering::SeqCst), after);
}

#[test]
fn a_broken_tile_breaks_the_face_and_itself_alone() {
    let f = quad_tiled();
    let mut bytes = build(&f);
    let mut tx = try_open(&bytes).unwrap();
    let res = tx.face_info(0).unwrap().res;
    let at = tx.tile_info(0, res, 5).unwrap().file_offset.unwrap() as usize;
    bytes[at] = 0xff;
    let mut tx = try_open(&bytes).unwrap();
    for tile in 0..8 {
        assert_eq!(tx.get_tile(0, res, tile).is_ok(), tile != 5);
    }
    let mut buf = vec![0x55u8; 64 * 32 + 40];
    let e = tx.get_data_into(0, res, &mut buf, 0).unwrap_err().message();
    assert!(e.starts_with("corrupt ptex file: unzip failed: "), "{e}");
    // what lies behind the image is untouched
    assert!(buf[64 * 32..].iter().all(|&b| b == 0x55));
    // texels outside the broken tile can still be read
    assert!(tx.get_pixel(0, 0, 0, 0, 1).is_ok());
    assert!(tx.get_pixel(0, 16, 16, 0, 1).is_err());
}

#[test]
fn a_constant_face_is_solid_at_every_resolution() {
    let f = quad_u8();
    let mut tx = open(&f);
    let pixel = tx.constant_data(2).unwrap().to_vec();
    for res in [Res::new(2, 3), Res::new(1, 2), Res::new(0, 0), Res::new(5, 0)] {
        let img = tx.get_data_at_res(2, res).unwrap();
        assert_eq!(img.len(), res.size() * 4);
        assert!(img.chunks_exact(4).all(|p| p == pixel));
    }
}

#[test]
fn blocks_of_a_level_follow_each_other() {
    let f = quad_u8();
    let mut tx = open(&f);
    let info = |tx: &mut PtexReader<Read, Math>, face: usize| {
        let res = tx.face_info(face).unwrap().res;
        tx.tile_info(face, res, 0).unwrap()
    };
    let a = info(&mut tx, 0);
    let b = info(&mut tx, 1);
    let d = info(&mut tx, 3);
    assert_eq!(b.file_offset.unwrap(), a.file_offset.unwrap() + a.compressed_size);
    // the constant face between them has no data
    assert_eq!(d.file_offset.unwrap(), b.file_offset.unwrap() + b.compressed_size);
}

#[test]
fn fixture_u8_has_diffzipped_or_zipped_faces() {
    let f = quad_u8();
    let mut tx = open(&f);
    for face in [0, 1, 3] {
        let res = tx.face_info(face).unwrap().res;
        let layout = tx.tile_layout(face, res).unwrap();
        assert!(layout.is_stored && !layout.is_tiled && !layout.is_constant);
        assert_eq!(tx.get_data(face).unwrap(), pixels(&f, face, 0));
    }
}

#[test]
fn tile_directories_that_are_refused() {
    // a level of one tiled face, by hand
    let f = quad(0, 1, vec![face(2, 2, [Enc::Tiled(1, 1), Z, Z])], vec![1]);
    let with_block = |data: Vec<u8>| {
        let head = zlib(&((3u32 << 30) | data.len() as u32).to_le_bytes());
        let mut all = head.clone();
        all.extend_from_slice(&data);
        let mut bytes = build(&f);
        let at = |o: usize| u32::from_le_bytes(bytes[o..o + 4].try_into().unwrap());
        let info = 64 + (at(32) + at(36)) as usize;
        bytes.truncate(info + 16);
        put_u64(&mut bytes, 48, all.len() as u64);
        put_u64(&mut bytes, info, all.len() as u64);
        put_u32(&mut bytes, info + 8, head.len() as u32);
        bytes.extend_from_slice(&all);
        let mut tx = try_open(&bytes).unwrap();
        tx.tile_layout(0, Res::new(2, 2)).unwrap_err().message()
    };
    let dir = |tu: u8, tv: u8, headers: &[u32]| {
        let d = zlib(&headers.iter().flat_map(|h| h.to_le_bytes()).collect::<Vec<u8>>());
        let mut data = vec![tu, tv];
        data.extend_from_slice(&(d.len() as u32).to_le_bytes());
        data.extend_from_slice(&d);
        data
    };
    assert_eq!(
        with_block(dir(0xff, 1, &[0])),
        "corrupt ptex file: negative tile res"
    );
    assert_eq!(
        with_block(dir(3, 1, &[0])),
        "corrupt ptex file: tile res larger than face res"
    );
    assert_eq!(
        with_block(dir(1, 1, &[0; 3])),
        "corrupt ptex file: unzip size mismatch (expected 16, got 12)"
    );
    assert_eq!(
        with_block(dir(1, 1, &[0, 0x7fff_ffff, 0, 0])),
        "unsupported operation: large tile data blocks are not supported"
    );
    assert_eq!(
        with_block(dir(1, 1, &[0, 0, 3 << 30, 0])),
        "corrupt ptex file: nested tiled face data"
    );
}

/// A file of one face, whose level-0 block is given as it stands.
fn one_block(datatype: u32, res: (u8, u8), fdh: u32, block: &[u8]) -> Vec<u8> {
    let mut fi = vec![res.0, res.1, 0, 0];
    fi.extend_from_slice(&[0xff; 16]);
    let faceinfo = zlib(&fi);
    let constdata = zlib(&vec![0x11; esize(datatype)]);
    let head = zlib(&fdh.to_le_bytes());
    let mut levelinfo = Vec::new();
    levelinfo.extend_from_slice(&((head.len() + block.len()) as u64).to_le_bytes());
    levelinfo.extend_from_slice(&(head.len() as u32).to_le_bytes());
    levelinfo.extend_from_slice(&1u32.to_le_bytes());
    let mut h = vec![0u8; 64];
    h[0..4].copy_from_slice(b"Ptex");
    put_u32(&mut h, 4, 1);
    put_u32(&mut h, 8, 1);
    put_u32(&mut h, 12, datatype);
    put_u32(&mut h, 16, -1i32 as u32);
    put_u16(&mut h, 20, 1);
    put_u16(&mut h, 22, 1);
    put_u32(&mut h, 24, 1);
    put_u32(&mut h, 32, faceinfo.len() as u32);
    put_u32(&mut h, 36, constdata.len() as u32);
    put_u32(&mut h, 40, levelinfo.len() as u32);
    put_u64(&mut h, 48, (head.len() + block.len()) as u64);
    for part in [&faceinfo, &constdata, &levelinfo, &head] {
        h.extend_from_slice(part);
    }
    h.extend_from_slice(block);
    h
}

/// A tiled block of the given tiles.
fn tiled_block(tile: (u8, u8), tiles: &[(u32, Vec<u8>)]) -> Vec<u8> {
    let dir: Vec<u8> = tiles.iter().flat_map(|(h, _)| h.to_le_bytes()).collect();
    let dir = zlib(&dir);
    let mut block = vec![tile.0, tile.1];
    block.extend_from_slice(&(dir.len() as u32).to_le_bytes());
    block.extend_from_slice(&dir);
    for (_, data) in tiles {
        block.extend_from_slice(data);
    }
    block
}

#[test]
fn only_five_bits_of_a_log2_count() {
    // log2 40 is 256 texels, in one tile and in two
    let img: Vec<u8> = (0..256 * 256).map(|i| (i % 253) as u8).collect();
    let z = zlib(&img);
    let one = tiled_block((40, 40), &[((1 << 30) | z.len() as u32, z.clone())]);
    let bytes = one_block(0, (40, 40), (3 << 30) | one.len() as u32, &one);
    let mut tx = try_open(&bytes).unwrap();
    let res = Res::new(40, 40);
    let layout = tx.tile_layout(0, res).unwrap();
    assert!(layout.is_tiled);
    assert_eq!((layout.tile_res, layout.ntiles()), (res, 1));
    assert_eq!(tx.tile_info(0, res, 0).unwrap().origin, (0, 0));
    assert_eq!(tx.get_data(0).unwrap(), img);
    assert_eq!(tx.get_tile(0, res, 0).unwrap(), img);
    assert_eq!(tx.get_pixel(0, 3, 200, 0, 1).unwrap(), vec![img[200 * 256 + 3] as u32]);

    let two = tiled_block(
        (40, 39),
        &[
            ((1 << 30) | zlib(&img[..256 * 128]).len() as u32, zlib(&img[..256 * 128])),
            ((1 << 30) | zlib(&img[256 * 128..]).len() as u32, zlib(&img[256 * 128..])),
        ],
    );
    let bytes = one_block(0, (40, 40), (3 << 30) | two.len() as u32, &two);
    let mut tx = try_open(&bytes).unwrap();
    assert_eq!(tx.get_data(0).unwrap(), img);
    assert_eq!(tx.get_pixel(0, 3, 200, 0, 1).unwrap(), vec![img[200 * 256 + 3] as u32]);
    assert_eq!(tx.tile_info(0, res, 1).unwrap().origin, (0, 1 << 39));
    let read = SharedReader::new(stream(&bytes), float_math as Math).unwrap();
    assert_eq!(read.get_data(0).unwrap().as_slice(), img);
}

#[test]
fn tiles_larger_than_their_face_are_refused() {
    // log2 32 is a single texel, log2 31 a tile of 2^31
    let block = tiled_block((31, 2), &[(1 << 30, Vec::new()), (1 << 30, Vec::new())]);
    let bytes = one_block(0, (32, 2), (3 << 30) | block.len() as u32, &block);
    let mut tx = try_open(&bytes).unwrap();
    let layout = tx.tile_layout(0, Res::new(32, 2)).unwrap();
    assert_eq!((layout.ntilesu, layout.ntilesv), (2, 1));
    assert_eq!(
        tx.get_data(0).unwrap_err().message(),
        "corrupt ptex file: tile outside the face"
    );
    let shared = SharedReader::new(stream(&bytes), float_math as Math).unwrap();
    assert_eq!(
        shared.get_data(0).unwrap_err().message(),
        "corrupt ptex file: tile outside the face"
    );
}

#[test]
fn a_texel_of_a_huge_constant_block_can_be_read() {
    let bytes = one_block(1, (31, 31), 2, &[0x34, 0x12]);
    let mut tx = try_open(&bytes).unwrap();
    assert_eq!(tx.get_pixel(0, 7, 1 << 30, 0, 1).unwrap(), vec![0x1234]);
    let shared = SharedReader::new(stream(&bytes), float_math as Math).unwrap();
    assert_eq!(shared.get_pixel(0, 7, 1 << 30, 0, 1).unwrap(), vec![0x1234]);
    // the whole face is more than memory can hold
    assert!(matches!(tx.get_data(0), Err(Error::Unsupported(_))));
    assert!(matches!(shared.get_data(0), Err(Error::Unsupported(_))));
}

#[test]
fn floating_point_meta_data_as_bit_patterns() {
    let mut f = quad_f16();
    let mut floats = 1.5f32.to_le_bytes().to_vec();
    floats.extend_from_slice(&(-2.0f32).to_le_bytes());
    floats.push(9);
    f.meta = meta_entry("floats", 4, &floats);
    f.meta.extend(meta_entry("doubles", 5, &2.5f64.to_le_bytes()));
    let mut tx = open(&f);
    let md = tx.metadata().unwrap();
    assert_eq!(
        md.get_f32_bits("floats"),
        Some(vec![1.5f32.to_bits(), (-2.0f32).to_bits()])
    );
    assert_eq!(md.entry(0).unwrap().len(), 2);
    assert_eq!(md.get_f64_bits("doubles"), Some(vec![2.5f64.to_bits()]));
    assert_eq!(md.entry(1).unwrap().len(), 1);
    assert_eq!(md.get_f64_bits("floats"), None);
    assert_eq!(md.get_f32_bits("nothing"), None);
}

#[test]
fn the_error_of_the_stream_is_handed_on() {
    let read: Read = Box::new(|_, _| Err(std::io::Error::from(std::io::ErrorKind::TimedOut)));
    match PtexReader::new(read, float_math as Math) {
        Err(Error::Io(e)) => assert_eq!(e.kind(), std::io::ErrorKind::TimedOut),
        _ => panic!("expected an I/O error"),
    }
}

#[test]
fn reading_keeps_the_budget() {
    let f = quad_f32();
    let shared = open_shared(&f, 5000);
    for level in 0..8 {
        let res = shared.res_for_level(0, level).unwrap();
        shared.get_data_at_res(0, res).unwrap();
        let s = shared.cache_stats();
        assert_eq!(s.bytes_budget, 5000);
        assert!(s.bytes_resident <= 5000);
    }
}
