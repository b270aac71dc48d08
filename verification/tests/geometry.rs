//! More WKB → WKT cases: byte orders, nested members, collections, messages.

use haygeobr::wkb::wkb_to_wkt;

fn coord_text(bits: u64) -> String {
    format!("{}", f64::from_bits(bits))
}

fn header(le: bool, geom_type: u32) -> Vec<u8> {
    let mut buf = vec![if le { 1u8 } else { 0u8 }];
    if le {
        buf.extend_from_slice(&geom_type.to_le_bytes());
    } else {
        buf.extend_from_slice(&geom_type.to_be_bytes());
    }
    buf
}

fn count(le: bool, n: u32) -> Vec<u8> {
    if le { n.to_le_bytes().to_vec() } else { n.to_be_bytes().to_vec() }
}

fn coord(le: bool, v: f64) -> Vec<u8> {
    if le { v.to_le_bytes().to_vec() } else { v.to_be_bytes().to_vec() }
}

fn point(le: bool, x: f64, y: f64) -> Vec<u8> {
    let mut buf = header(le, 1);
    buf.extend(coord(le, x));
    buf.extend(coord(le, y));
    buf
}

fn linestring(le: bool, pts: &[(f64, f64)]) -> Vec<u8> {
    let mut buf = header(le, 2);
    buf.extend(count(le, pts.len() as u32));
    for &(x, y) in pts {
        buf.extend(coord(le, x));
        buf.extend(coord(le, y));
    }
    buf
}

#[test]
fn big_endian_linestring_matches_little_endian() {
    let pts = [(1.5, -2.25), (3.0, 4.0)];
    let le = wkb_to_wkt(&linestring(true, &pts), &coord_text).unwrap();
    let be = wkb_to_wkt(&linestring(false, &pts), &coord_text).unwrap();
    assert_eq!(le, "LINESTRING (1.5 -2.25, 3 4)");
    assert_eq!(le, be);
}

#[test]
fn any_byte_order_other_than_one_is_big_endian() {
    let mut buf = point(false, 1.0, 2.0);
    buf[0] = 7;
    assert_eq!(wkb_to_wkt(&buf, &coord_text).unwrap(), "POINT (1 2)");
}

#[test]
fn multipoint_members_keep_their_own_byte_order() {
    let mut buf = header(true, 4);
    buf.extend(count(true, 2));
    buf.extend(point(false, 1.0, 2.0));
    buf.extend(point(true, 3.0, 4.0));
    assert_eq!(wkb_to_wkt(&buf, &coord_text).unwrap(), "MULTIPOINT ((1 2), (3 4))");
}

#[test]
fn multipoint_member_of_another_type_is_written_in_full() {
    let mut buf = header(true, 4);
    buf.extend(count(true, 1));
    buf.extend(linestring(true, &[(0.0, 0.0), (1.0, 1.0)]));
    assert_eq!(
        wkb_to_wkt(&buf, &coord_text).unwrap(),
        "MULTIPOINT ((LINESTRING (0 0, 1 1)))"
    );
}

#[test]
fn multilinestring() {
    let mut buf = header(true, 5);
    buf.extend(count(true, 2));
    buf.extend(linestring(true, &[(0.0, 0.0), (1.0, 1.0)]));
    buf.extend(linestring(false, &[(2.0, 2.0)]));
    assert_eq!(
        wkb_to_wkt(&buf, &coord_text).unwrap(),
        "MULTILINESTRING ((0 0, 1 1), (2 2))"
    );
}

#[test]
fn geometry_collection() {
    let mut buf = header(true, 7);
    buf.extend(count(true, 2));
    buf.extend(point(true, 1.0, 2.0));
    buf.extend(linestring(true, &[(0.0, 0.0), (1.0, 1.0)]));
    assert_eq!(
        wkb_to_wkt(&buf, &coord_text).unwrap(),
        "GEOMETRYCOLLECTION (POINT (1 2), LINESTRING (0 0, 1 1))"
    );
}

#[test]
fn empty_collections() {
    let mut buf = header(true, 7);
    buf.extend(count(true, 0));
    assert_eq!(wkb_to_wkt(&buf, &coord_text).unwrap(), "GEOMETRYCOLLECTION ()");
    let buf = linestring(false, &[]);
    assert_eq!(wkb_to_wkt(&buf, &coord_text).unwrap(), "LINESTRING ()");
}

#[test]
fn trailing_bytes_are_ignored() {
    let mut buf = point(true, 1.0, 2.0);
    buf.extend_from_slice(&[9, 9, 9]);
    assert_eq!(wkb_to_wkt(&buf, &coord_text).unwrap(), "POINT (1 2)");
}

#[test]
fn error_messages() {
    assert_eq!(wkb_to_wkt(&[], &coord_text).unwrap_err(), "unexpected end of WKB");
    let mut buf = header(true, 99);
    buf.extend(count(true, 0));
    assert_eq!(
        wkb_to_wkt(&buf, &coord_text).unwrap_err(),
        "unsupported geometry type: 99"
    );
    let buf = header(false, 1001);
    assert_eq!(
        wkb_to_wkt(&buf, &coord_text).unwrap_err(),
        "unsupported geometry type: 1001"
    );
}

#[test]
fn a_count_larger_than_the_buffer_is_refused() {
    let mut buf = header(true, 2);
    buf.extend(count(true, u32::MAX));
    buf.extend(coord(true, 1.0));
    assert_eq!(wkb_to_wkt(&buf, &coord_text).unwrap_err(), "unexpected end of WKB");
}

#[test]
fn nested_errors_are_reported() {
    let mut buf = header(true, 6);
    buf.extend(count(true, 1));
    buf.extend(header(true, 42));
    assert_eq!(
        wkb_to_wkt(&buf, &coord_text).unwrap_err(),
        "unsupported geometry type: 42"
    );
}

#[test]
fn the_formatter_gives_each_coordinate_its_text() {
    let buf = point(true, 1.0, 2.0);
    let bits = |b: u64| format!("<{:x}>", b);
    assert_eq!(
        wkb_to_wkt(&buf, &bits).unwrap(),
        format!("POINT (<{:x}> <{:x}>)", 1.0f64.to_bits(), 2.0f64.to_bits())
    );
}

fn mixed_collection() -> Vec<u8> {
    let mut buf = header(false, 7);
    buf.extend(count(false, 3));
    buf.extend(point(true, 1.0, 2.0));
    buf.extend(linestring(false, &[(0.5, 0.25), (3.0, -4.0)]));
    let mut inner = header(true, 4);
    inner.extend(count(true, 1));
    inner.extend(point(false, 7.0, 8.0));
    buf.extend(inner);
    buf
}

#[test]
fn every_cut_of_a_mixed_order_geometry_is_refused() {
    let buf = mixed_collection();
    let whole = wkb_to_wkt(&buf, &coord_text).unwrap();
    assert_eq!(
        whole,
        "GEOMETRYCOLLECTION (POINT (1 2), LINESTRING (0.5 0.25, 3 -4), MULTIPOINT ((7 8)))"
    );
    for k in 0..buf.len() {
        assert_eq!(wkb_to_wkt(&buf[..k], &coord_text).unwrap_err(), "unexpected end of WKB");
    }
    let mut longer = buf.clone();
    longer.extend_from_slice(&[0, 1, 2, 3, 4, 5, 6, 7, 8, 9]);
    assert_eq!(wkb_to_wkt(&longer, &coord_text).unwrap(), whole);
}

#[test]
fn text_opens_with_the_keyword_and_closes_with_a_parenthesis() {
    let cases: Vec<(Vec<u8>, &str)> = vec![
        (point(false, 1.0, 2.0), "POINT ("),
        (linestring(true, &[(1.0, 2.0)]), "LINESTRING ("),
        (mixed_collection(), "GEOMETRYCOLLECTION ("),
    ];
    for (buf, keyword) in cases {
        let s = wkb_to_wkt(&buf, &coord_text).unwrap();
        assert!(s.starts_with(keyword));
        assert!(s.ends_with(')'));
    }
}
