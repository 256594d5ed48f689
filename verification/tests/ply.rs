use wboit_demo::ply::{
    chunk_bounds_offset, coeffs_per_channel, header_end, parse_count_word, parse_header,
    read_layout, rest_name_bytes, sh_degree_for_channel, sh_degree_for_rest, sh_slots, unpack_11_10_11,
    unpack_2_10_10_10, unpack_8_8_8_8, Encoding, Field, PlyError, RawScalar, Scalar,
};

fn header(lines: &[&str]) -> Vec<u8> {
    let mut s = String::from("ply\n");
    for l in lines {
        s.push_str(l);
        s.push('\n');
    }
    s.push_str("end_header\n");
    s.into_bytes()
}

const UNCOMPRESSED: &[&str] = &[
    "format binary_little_endian 1.0",
    "element vertex 2",
    "property float x",
    "property float y",
    "property float z",
    "property float scale_0",
    "property float scale_1",
    "property float scale_2",
    "property float rot_0",
    "property float rot_1",
    "property float rot_2",
    "property float rot_3",
    "property float opacity",
    "property float f_dc_0",
    "property float f_dc_1",
    "property float f_dc_2",
];

#[test]
fn scalar_names_and_sizes() {
    assert_eq!(Scalar::from_name(b"float"), Some(Scalar::F32));
    assert_eq!(Scalar::from_name(b"float64"), Some(Scalar::F64));
    assert_eq!(Scalar::from_name(b"uchar"), Some(Scalar::U8));
    assert_eq!(Scalar::from_name(b"char"), Some(Scalar::I8));
    assert_eq!(Scalar::from_name(b"uint16"), Some(Scalar::U16));
    assert_eq!(Scalar::from_name(b"short"), Some(Scalar::I16));
    assert_eq!(Scalar::from_name(b"uint"), Some(Scalar::U32));
    assert_eq!(Scalar::from_name(b"int32"), Some(Scalar::I32));
    assert_eq!(Scalar::from_name(b"half"), None);
    assert_eq!(Scalar::F64.size(), 8);
    assert_eq!(Scalar::I16.size(), 2);
    assert_eq!(Scalar::U8.size(), 1);
    assert_eq!(Scalar::F32.size(), 4);
}

#[test]
fn scalars_read_little_endian() {
    let b = [0x78, 0x56, 0x34, 0x12, 0xff, 0xff, 0xff, 0xff];
    assert_eq!(Scalar::U32.read_u32(&b), 0x1234_5678);
    assert_eq!(Scalar::U16.read_u32(&b), 0x5678);
    assert_eq!(Scalar::I8.read_u32(&b), 0x78);
    assert_eq!(Scalar::F64.read_u32(&b), 0);
    assert_eq!(Scalar::F32.read_raw(&1.5f32.to_le_bytes()), RawScalar::F32Bits(1.5f32.to_bits()));
    assert_eq!(Scalar::F64.read_raw(&(-2.25f64).to_le_bytes()), RawScalar::F64Bits((-2.25f64).to_bits()));
    assert_eq!(Scalar::I8.read_raw(&[0xfe]), RawScalar::Int(-2));
    assert_eq!(Scalar::U8.read_raw(&[0xfe]), RawScalar::Int(254));
    assert_eq!(Scalar::I16.read_raw(&[0x00, 0x80]), RawScalar::Int(-32768));
    assert_eq!(Scalar::U16.read_raw(&[0x00, 0x80]), RawScalar::Int(32768));
    assert_eq!(Scalar::I32.read_raw(&[0xff, 0xff, 0xff, 0xff]), RawScalar::Int(-1));
    assert_eq!(Scalar::U32.read_raw(&[0xff, 0xff, 0xff, 0xff]), RawScalar::Int(4294967295));
}

#[test]
fn counts_parse_like_rust() {
    assert_eq!(parse_count_word(b"42"), Some(42));
    assert_eq!(parse_count_word(b"+7"), Some(7));
    assert_eq!(parse_count_word(b"+"), None);
    assert_eq!(parse_count_word(b"-1"), None);
    assert_eq!(parse_count_word(b"12a"), None);
    assert_eq!(parse_count_word(b""), None);
    assert_eq!(parse_count_word(b"99999999999999999999999"), None);
}

#[test]
fn header_end_points_past_the_newline() {
    let h = header(&["format binary_little_endian 1.0"]);
    assert_eq!(header_end(&h), Some(h.len()));
    let mut with_body = h.clone();
    with_body.extend_from_slice(&[1, 2, 3]);
    assert_eq!(header_end(&with_body), Some(h.len()));
    assert_eq!(header_end(b"ply\nformat ascii 1.0\n"), None);
    assert_eq!(header_end(b"end_header"), Some(11));
}

#[test]
fn header_lays_out_elements_back_to_back() {
    let h = header(&[
        "format binary_little_endian 1.0",
        "comment made by hand",
        "element chunk 3",
        "property float min_x",
        "property uchar flag",
        "element vertex 10",
        "  property   double   x  ",
        "property short y",
    ]);
    let els = parse_header(&h).unwrap();
    assert_eq!(els.len(), 2);
    assert_eq!(els[0].name, b"chunk".to_vec());
    assert_eq!(els[0].count, 3);
    assert_eq!(els[0].stride, 5);
    assert_eq!(els[0].start, 0);
    assert_eq!(els[0].props[1].name, b"flag".to_vec());
    assert_eq!(els[0].props[1].offset, 4);
    assert_eq!(els[1].name, b"vertex".to_vec());
    assert_eq!(els[1].stride, 10);
    assert_eq!(els[1].start, 15);
    assert_eq!(els[1].props[0].ty, Scalar::F64);
    assert_eq!(els[1].props[1].offset, 8);
    assert!(els[1].has(b"y"));
    assert!(!els[1].has(b"z"));
    assert_eq!(els[1].prop(b"y").unwrap().ty, Scalar::I16);
    let body: Vec<u8> = (0..115u8).collect();
    assert_eq!(els[1].row(&body, 2), &body[35..45]);
}

#[test]
fn header_errors() {
    let h = header(&["format ascii 1.0"]);
    let e = parse_header(&h).unwrap_err();
    match e {
        PlyError::UnsupportedFormat { start, end } => assert_eq!(&h[start..end], b"ascii"),
        other => panic!("{other:?}"),
    }
    assert_eq!(parse_header(&header(&["element vertex 2"])).unwrap_err(), PlyError::MissingFormat);
    assert_eq!(
        parse_header(&header(&["format binary_little_endian 1.0", "element vertex many"])).unwrap_err(),
        PlyError::BadElementCount
    );
    assert_eq!(
        parse_header(&header(&["format binary_little_endian 1.0", "element vertex 1", "property list uchar int idx"])).unwrap_err(),
        PlyError::ListProperty
    );
    assert_eq!(
        parse_header(&header(&["format binary_little_endian 1.0", "property float x"])).unwrap_err(),
        PlyError::PropertyBeforeElement
    );
    let h = header(&["format binary_little_endian 1.0", "element vertex 1", "property half x"]);
    match parse_header(&h).unwrap_err() {
        PlyError::UnknownPropertyType { start, end } => assert_eq!(&h[start..end], b"half"),
        other => panic!("{other:?}"),
    }
    assert_eq!(
        parse_header(&header(&[
            "format binary_little_endian 1.0",
            "element a 18446744073709551615",
            "property double x",
        ]))
        .unwrap_err(),
        PlyError::LayoutOverflow
    );
}

#[test]
fn element_count_may_be_omitted() {
    let els = parse_header(&header(&["format binary_little_endian 1.0", "element vertex"])).unwrap();
    assert_eq!(els[0].count, 0);
}

#[test]
fn rest_names_count_up_in_decimal() {
    assert_eq!(rest_name_bytes(0), b"f_rest_0".to_vec());
    assert_eq!(rest_name_bytes(44), b"f_rest_44".to_vec());
    assert_eq!(rest_name_bytes(105), b"f_rest_105".to_vec());
}

#[test]
fn sh_degree_tables() {
    assert_eq!(sh_degree_for_rest(45), 3);
    assert_eq!(sh_degree_for_rest(24), 2);
    assert_eq!(sh_degree_for_rest(9), 1);
    assert_eq!(sh_degree_for_rest(10), 0);
    assert_eq!(coeffs_per_channel(3), 15);
    assert_eq!(coeffs_per_channel(2), 8);
    assert_eq!(coeffs_per_channel(1), 3);
    assert_eq!(coeffs_per_channel(0), 0);
    assert_eq!(sh_degree_for_channel(15), 3);
    assert_eq!(sh_degree_for_channel(8), 2);
    assert_eq!(sh_degree_for_channel(3), 1);
    assert_eq!(sh_degree_for_channel(4), 0);
}

#[test]
fn uncompressed_layout_resolves_every_property() {
    let mut lines: Vec<String> = UNCOMPRESSED.iter().map(|s| s.to_string()).collect();
    for k in 0..9 {
        lines.push(format!("property float f_rest_{k}"));
    }
    lines.push("property float f_rest_10".to_string());
    let refs: Vec<&str> = lines.iter().map(|s| s.as_str()).collect();
    let mut raw = header(&refs);
    let body_at = raw.len();
    raw.extend(std::iter::repeat(0u8).take(2 * 24 * 4));
    let layout = read_layout(&raw).unwrap();
    assert_eq!(layout.body_at, body_at);
    assert_eq!(layout.vertex, 0);
    match layout.encoding {
        Encoding::Uncompressed(u) => {
            assert_eq!(u.base, (0..14).collect::<Vec<usize>>());
            assert_eq!(u.rest, (14..23).collect::<Vec<usize>>());
            assert_eq!(u.sh_degree, 1);
            assert_eq!(u.coeffs_per_channel, 3);
        }
        Encoding::Compressed(_) => panic!("expected an uncompressed layout"),
    }
}

#[test]
fn layout_errors() {
    assert_eq!(read_layout(b"ply\nformat binary_little_endian 1.0\n").unwrap_err(), PlyError::NoEndHeader);
    let raw = header(&["format binary_little_endian 1.0", "element face 0"]);
    assert_eq!(read_layout(&raw).unwrap_err(), PlyError::NoVertexElement);
    let raw = header(UNCOMPRESSED);
    assert_eq!(read_layout(&raw).unwrap_err(), PlyError::Truncated { have: 0, need: 112 });
    let mut raw = header(&UNCOMPRESSED[..11]);
    raw.extend(std::iter::repeat(0u8).take(2 * 9 * 4));
    assert_eq!(read_layout(&raw).unwrap_err(), PlyError::MissingProperty(Field::Rot3));
    let mut raw = header(&["format binary_little_endian 1.0", "element vertex 1", "property uint packed_position"]);
    raw.extend_from_slice(&[0; 4]);
    assert_eq!(read_layout(&raw).unwrap_err(), PlyError::NoChunkElement);
    let mut raw = header(&[
        "format binary_little_endian 1.0",
        "element chunk 1",
        "property float min_x",
        "element vertex 1",
        "property uint packed_position",
        "property uint packed_rotation",
        "property uint packed_color",
    ]);
    raw.extend_from_slice(&[0; 16]);
    assert_eq!(read_layout(&raw).unwrap_err(), PlyError::MissingProperty(Field::PackedScale));
}

#[test]
fn compressed_layout_resolves_chunks_and_bands() {
    let mut lines = vec![
        "format binary_little_endian 1.0".to_string(),
        "element chunk 1".to_string(),
        "property float min_x".to_string(),
        "property float max_b".to_string(),
        "property float min_r".to_string(),
        "element vertex 2".to_string(),
        "property uint packed_position".to_string(),
        "property uint packed_rotation".to_string(),
        "property uint packed_scale".to_string(),
        "property uint packed_color".to_string(),
        "element sh 2".to_string(),
    ];
    for k in 0..24 {
        lines.push(format!("property uchar f_rest_{k}"));
    }
    let refs: Vec<&str> = lines.iter().map(|s| s.as_str()).collect();
    let mut raw = header(&refs);
    raw.extend(std::iter::repeat(0u8).take(12 + 32 + 48));
    let layout = read_layout(&raw).unwrap();
    assert_eq!(layout.vertex, 1);
    match layout.encoding {
        Encoding::Compressed(c) => {
            assert_eq!(c.chunk, 0);
            assert_eq!(c.bounds.len(), 18);
            assert_eq!(c.bounds[0], Some(0));
            assert_eq!(c.bounds[1], None);
            assert_eq!(c.bounds[12], Some(2));
            assert_eq!(c.bounds[17], Some(1));
            assert!(c.has_color_bounds);
            assert_eq!(
                (c.packed_position, c.packed_rotation, c.packed_scale, c.packed_color),
                (0, 1, 2, 3)
            );
            let sh = c.sh.unwrap();
            assert_eq!(sh.element, 2);
            assert_eq!(sh.rest.len(), 24);
            assert_eq!(sh.per_channel, 8);
            assert_eq!(sh.degree, 2);
            assert!(sh.used);
        }
        Encoding::Uncompressed(_) => panic!("expected a compressed layout"),
    }
}

#[test]
fn packed_fields_unpack_most_significant_first() {
    let v = (0x5a5u32 << 21) | (0x2c3 << 11) | 0x12f;
    assert_eq!(unpack_11_10_11(v), (0x5a5, 0x2c3, 0x12f));
    let r = (2u32 << 30) | (0x3ff << 20) | (0x001 << 10) | 0x200;
    assert_eq!(unpack_2_10_10_10(r), (2, 0x3ff, 0x001, 0x200));
    assert_eq!(unpack_8_8_8_8(0x1122_3344), (0x11, 0x22, 0x33, 0x44));
}

#[test]
fn chunk_offsets_saturate_at_the_last_chunk() {
    assert_eq!(chunk_bounds_offset(0, 3), 0);
    assert_eq!(chunk_bounds_offset(255, 3), 0);
    assert_eq!(chunk_bounds_offset(256, 3), 18);
    assert_eq!(chunk_bounds_offset(10_000, 3), 36);
    assert_eq!(chunk_bounds_offset(10_000, 0), 0);
}

#[test]
fn higher_bands_fill_channel_major_slots() {
    let rest: Vec<usize> = (10..19).collect();
    let slots = sh_slots(&rest, 3);
    assert_eq!(slots.len(), 45);
    for c in 0..3 {
        for k in 0..15 {
            let want = if k < 3 { Some(10 + c * 3 + k) } else { None };
            assert_eq!(slots[c * 15 + k], want);
        }
    }
    let full: Vec<usize> = (0..45).collect();
    let slots = sh_slots(&full, 15);
    assert_eq!(slots, (0..45).map(Some).collect::<Vec<_>>());
    assert_eq!(sh_slots(&[], 0), vec![None; 45]);
}

#[test]
fn header_words_split_on_unicode_whitespace() {
    let text = "ply\nformat\u{a0}binary_little_endian 1.0\nelement\u{3000}vertex\u{2003}3\n\
                property float\u{85}x\u{205f}\nproperty\tuchar\u{1680}red\u{2029}\nend_header\n";
    let els = parse_header(text.as_bytes()).unwrap();
    assert_eq!(els.len(), 1);
    assert_eq!(els[0].name, b"vertex".to_vec());
    assert_eq!(els[0].count, 3);
    assert_eq!(els[0].props.len(), 2);
    assert_eq!(els[0].props[0].name, b"x".to_vec());
    assert_eq!(els[0].props[1].name, b"red".to_vec());
    assert_eq!(els[0].stride, 5);
    // A character that is not whitespace stays inside the word.
    let text = "ply\nformat binary_little_endian 1.0\nelement vertex\u{2060}2 1\nend_header\n";
    let els = parse_header(text.as_bytes()).unwrap();
    assert_eq!(els[0].name, "vertex\u{2060}2".as_bytes().to_vec());
    assert_eq!(els[0].count, 1);
}

#[test]
fn invalid_utf8_in_a_header_word_is_just_a_different_word() {
    let mut text = b"ply\nformat binary_little_endian 1.0\nelement vert\xffex 2\nproperty float \xe2\x80x\nend_header\n".to_vec();
    let els = parse_header(&text).unwrap();
    assert_eq!(els[0].name, b"vert\xffex".to_vec());
    assert_eq!(els[0].props[0].name, b"\xe2\x80x".to_vec());
    text.extend_from_slice(&[0u8; 8]);
    assert_eq!(read_layout(&text).unwrap_err(), PlyError::NoVertexElement);
}

fn compressed_header(chunks: usize, sh_rows: Option<usize>) -> Vec<u8> {
    let mut lines: Vec<String> = vec![
        "format binary_little_endian 1.0".into(),
        format!("element chunk {chunks}"),
        "element vertex 1".into(),
        "property uint packed_position".into(),
        "property uint packed_rotation".into(),
        "property uint packed_scale".into(),
        "property uint packed_color".into(),
    ];
    if let Some(n) = sh_rows {
        lines.push(format!("element sh {n}"));
        for k in 0..9 {
            lines.push(format!("property uchar f_rest_{k}"));
        }
    }
    let refs: Vec<&str> = lines.iter().map(|s| s.as_str()).collect();
    header(&refs)
}

#[test]
fn cut_off_band_rows_are_reported() {
    // The vertex row is complete; the row of higher bands is missing.
    let mut raw = compressed_header(0, Some(1));
    raw.extend_from_slice(&[0u8; 16]);
    assert_eq!(read_layout(&raw).unwrap_err(), PlyError::NoChunkRows);
    let mut raw = compressed_header(1, Some(1));
    raw.extend_from_slice(&[0u8; 16]);
    assert_eq!(read_layout(&raw).unwrap_err(), PlyError::Truncated { have: 16, need: 25 });
    raw.extend_from_slice(&[0u8; 9]);
    assert!(read_layout(&raw).is_ok());
}

#[test]
fn cut_off_chunk_rows_are_reported() {
    let mut lines = vec![
        "format binary_little_endian 1.0",
        "element vertex 1",
        "property uint packed_position",
        "property uint packed_rotation",
        "property uint packed_scale",
        "property uint packed_color",
        "element chunk 1",
        "property float min_x",
    ];
    let mut raw = header(&lines);
    raw.extend_from_slice(&[0u8; 18]);
    assert_eq!(read_layout(&raw).unwrap_err(), PlyError::Truncated { have: 18, need: 20 });
    raw.extend_from_slice(&[0u8; 2]);
    assert!(read_layout(&raw).is_ok());
    // Bands that are not decoded (too few rows) need no rows in the body.
    lines.push("element sh 0");
    lines.push("property uchar f_rest_0");
    lines.push("property uchar f_rest_1");
    lines.push("property uchar f_rest_2");
    let mut raw = header(&lines);
    raw.extend_from_slice(&[0u8; 20]);
    assert!(read_layout(&raw).is_ok());
}

#[test]
fn a_header_without_a_final_line_feed_is_refused() {
    let raw = b"ply\nformat binary_little_endian 1.0\nelement vertex 1\nproperty float x\nend_header";
    assert_eq!(read_layout(raw).unwrap_err(), PlyError::UnterminatedHeader);
}

#[test]
fn refusals_have_readable_messages() {
    let raw = b"ply\nformat ascii 1.0\nend_header\n";
    let e = read_layout(raw).unwrap_err();
    assert_eq!(e, PlyError::UnsupportedFormat { start: 11, end: 16 });
    assert_eq!(
        e.message(raw),
        b"unsupported PLY format `ascii` (only binary_little_endian is supported)".to_vec()
    );
    assert_eq!(
        PlyError::Truncated { have: 16, need: 125 }.message(b""),
        b"truncated file: body has 16 bytes, header describes 125".to_vec()
    );
    assert_eq!(
        PlyError::MissingProperty(Field::PackedScale).message(b""),
        b"missing `packed_scale`".to_vec()
    );
    assert_eq!(
        PlyError::MissingProperty(Field::Opacity).message(b""),
        b"missing required property `opacity`".to_vec()
    );
    assert_eq!(PlyError::NoEndHeader.message(b""), b"no `end_header` found".to_vec());
    assert_eq!(
        PlyError::UnknownPropertyType { start: 0, end: 4 }.message(b"half"),
        b"unknown property type `half`".to_vec()
    );
    assert_eq!(
        PlyError::UnterminatedHeader.message(b""),
        b"truncated file: the `end_header` line is not terminated".to_vec()
    );
}
