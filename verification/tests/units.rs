use ptex::zlib::check_unzipped;
use ptex::utils::{decode_difference, gen_rfaceids, interleave, reduce};
use ptex::{face_flags, DataType, FaceInfo, Res};

#[test]
fn res_basics() {
    let r = Res::new(3, 2);
    assert_eq!(r.u(), 8);
    assert_eq!(r.v(), 4);
    assert_eq!(r.size(), 32);
    assert_eq!(Res::from_val(r.val()), r);
    assert_eq!(r.swappeduv(), Res::new(2, 3));
    assert_eq!(Res::new(4, 3).ntiles(Res::new(2, 2)), 8);
}

#[test]
fn face_info_flags() {
    let mut fi = FaceInfo::default();
    assert!(!fi.is_constant());
    fi.flags = face_flags::CONSTANT | face_flags::SUBFACE;
    assert!(fi.is_constant());
    assert!(fi.is_subface());
    assert!(!fi.is_neighborhood_constant());
}

#[test]
fn decode_difference_u8() {
    let mut data = vec![10u8, 5, 250, 10];
    decode_difference(&mut data, DataType::UInt8);
    assert_eq!(data, vec![10, 15, 9, 19]);
}

#[test]
fn decode_difference_u16() {
    let mut data = Vec::new();
    for v in [1000u16, 500, 65000] {
        data.extend_from_slice(&v.to_le_bytes());
    }
    decode_difference(&mut data, DataType::UInt16);
    let vals: Vec<u16> = data
        .chunks_exact(2)
        .map(|c| u16::from_le_bytes([c[0], c[1]]))
        .collect();
    assert_eq!(vals, vec![1000, 1500, 964]); // 1500 + 65000 wraps
}

#[test]
fn interleave_planar() {
    // 2x2, 2 channels of u8: planes [1,2,3,4] and [5,6,7,8]
    let src = [1u8, 2, 3, 4, 5, 6, 7, 8];
    let mut dst = [0u8; 8];
    interleave(&src, 2, 2, &mut dst, 4, DataType::UInt8, 2);
    assert_eq!(dst, [1, 5, 2, 6, 3, 7, 4, 8]);
}

#[test]
fn reduce_2x2_u8() {
    // 2x2 single channel -> 1x1
    let src = [10u8, 20, 30, 41];
    let mut dst = [0u8; 1];
    reduce(&src, 2, 2, 2, &mut dst, 1, DataType::UInt8, 1);
    assert_eq!(dst[0], (10 + 20 + 30 + 41) / 4);
}

#[test]
fn rfaceids_sorted_by_min_res() {
    let mk = |ul: i8, vl: i8, constant: bool| FaceInfo {
        res: Res::new(ul, vl),
        flags: if constant { face_flags::CONSTANT } else { 0 },
        ..Default::default()
    };
    let faces = vec![
        mk(1, 1, false),
        mk(4, 4, false),
        mk(3, 5, false),
        mk(8, 8, true),
    ];
    let r = gen_rfaceids(&faces);
    // order by min dim desc: face1 (4), face2 (3), then the two faces of
    // detail 1 in the order of their ids: face0, face3 (constant)
    assert_eq!(r[1], 0);
    assert_eq!(r[2], 1);
    assert_eq!(r[0], 2);
    assert_eq!(r[3], 3);
}

fn half_to_float(h: u16) -> f32 {
    f32::from_bits(ptex::half_to_float_bits(h))
}

fn float_to_half(f: f32) -> u16 {
    ptex::float_to_half_bits(f.to_bits(), (f.abs() * 1.677_721_6e7 + 0.5) as u16)
}

#[test]
fn half_roundtrip() {
    for &f in &[0.0f32, 1.0, -1.0, 0.5, 2.0, 65504.0, 6.1e-5, 3.375] {
        let h = float_to_half(f);
        let g = half_to_float(h);
        assert!((f - g).abs() <= f.abs() * 1e-3 + 1e-7, "{f} -> {g}");
    }
    assert_eq!(half_to_float(float_to_half(f32::INFINITY)), f32::INFINITY);
    assert!(half_to_float(float_to_half(f32::NAN)).is_nan());
    // exact values
    assert_eq!(half_to_float(0x3c00), 1.0);
    assert_eq!(half_to_float(0xc000), -2.0);
    assert_eq!(float_to_half(1.0), 0x3c00);
}

#[test]
fn halves_of_every_kind() {
    // the smallest subnormal, and the largest
    assert_eq!(half_to_float(0x0001), 1.0 / 16_777_216.0);
    assert_eq!(half_to_float(0x83ff), -1023.0 / 16_777_216.0);
    assert_eq!(half_to_float(0x8000).to_bits(), 0x8000_0000);
    assert_eq!(half_to_float(0x7bff), 65504.0);
    assert_eq!(float_to_half(70000.0), 0x7c00);
    assert_eq!(float_to_half(-70000.0), 0xfc00);
    assert_eq!(float_to_half(-0.0), 0);
    assert_eq!(float_to_half(-1.0 / 16_777_216.0), 0x8001);
    for h in 0..=0xffffu16 {
        if h & 0x7c00 != 0 {
            assert_eq!(ptex::float_to_half_bits(ptex::half_to_float_bits(h), 0), h);
        }
    }
}

#[test]
fn packed_resolutions() {
    let mut r = Res::new(-1, 5);
    assert_eq!(r.val(), 0x05ff);
    assert_eq!(Res::from_val(0x05ff), r);
    assert_eq!(r.u(), 1 << 31);
    r.clamp(Res::new(3, 3));
    assert_eq!(r, Res::new(-1, 3));
    assert!(Res::new(0, 0).is_one());
    assert_eq!(Res::new(4, 3).ntilesu(Res::new(2, 2)), 4);
    assert_eq!(Res::new(4, 3).ntilesv(Res::new(2, 2)), 2);
}

#[test]
fn interleave_elements_of_two_bytes_into_padded_rows() {
    let src = [1u8, 2, 3, 4, 5, 6, 7, 8];
    let mut dst = [9u8; 12];
    interleave(&src, 1, 2, &mut dst, 6, DataType::UInt16, 2);
    assert_eq!(dst, [1, 2, 5, 6, 9, 9, 3, 4, 7, 8, 9, 9]);
}

#[test]
fn rows_and_fills() {
    let mut dst = [0u8; 7];
    ptex::utils::copy_rows(&[1, 2, 3, 4, 5, 6], 3, &mut dst, 4, 2, 2);
    assert_eq!(dst, [1, 2, 0, 0, 4, 5, 0]);
    let mut dst = [0u8; 9];
    ptex::utils::fill(&[7, 8], &mut dst, 5, 2, 2, 2);
    assert_eq!(dst, [7, 8, 7, 8, 0, 7, 8, 7, 8]);
    // the first row is filled even if there are no rows
    let mut dst = [0u8; 2];
    ptex::utils::fill(&[3], &mut dst, 2, 2, 0, 1);
    assert_eq!(dst, [3, 3]);
}

#[test]
fn reductions_in_one_direction() {
    let src = [10u8, 20, 30, 41];
    let mut dst = [0u8; 2];
    ptex::utils::reduce_u(&src, 2, 2, 2, &mut dst, 1, DataType::UInt8, 1);
    assert_eq!(dst, [15, 35]);
    ptex::utils::reduce_v(&src, 2, 2, 2, &mut dst, 2, DataType::UInt8, 1);
    assert_eq!(dst, [20, 30]);
    let mut one = [0u8; 1];
    ptex::utils::reduce_tri(&src, 2, 2, 2, &mut one, 1, DataType::UInt8, 1);
    assert_eq!(one, [(10 + 20 + 30 + 41) / 4]);
}

#[test]
fn alpha_scales_the_channels_before_it_or_all_others() {
    let math = |op: ptex::PixelOp| match op {
        ptex::PixelOp::Scale { value, alpha, .. } => value + alpha,
        _ => 0,
    };
    let mut data = [1u8, 2, 30, 4, 5, 6, 70, 8, 9];
    ptex::utils::multalpha(&mut data, 2, DataType::UInt8, 4, 2, &math);
    assert_eq!(data, [31, 32, 30, 4, 75, 76, 70, 8, 9]);
    let mut data = [10u8, 2, 3, 20, 5, 6];
    ptex::utils::multalpha(&mut data, 1, DataType::UInt8, 3, 0, &math);
    assert_eq!(data, [10, 12, 13, 20, 5, 6]);
}

#[test]
fn unzipped_sizes_are_checked() {
    assert_eq!(check_unzipped(Ok(vec![1, 2]), 2).unwrap(), vec![1, 2]);
    assert_eq!(
        check_unzipped(Ok(vec![1, 2]), 3).unwrap_err().message(),
        "corrupt ptex file: unzip size mismatch (expected 3, got 2)"
    );
    assert_eq!(
        check_unzipped(Err("broken".to_string()), 3).unwrap_err().message(),
        "corrupt ptex file: unzip failed: broken"
    );
}
