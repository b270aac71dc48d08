//! The WKB writing of a geometry, and the law that the reader gives back
//! what was written, in either byte order.

use vstd::prelude::*;

use crate::wkb::{
    combine4, combine8, coords_at, fill, formats_deterministically, formatted_by, is_wkt_of,
    lemma_wkt_determined, read_body, read_geometry, read_list, read_rings, read_wkb, tokens,
    type_code, word32, word64, Geometry, WkbError,
};

verus! {

/// The four bytes of `n`, least significant first.
pub open spec fn u32_le_bytes(n: u32) -> Seq<u8> {
    seq![(n & 0xff) as u8, ((n >> 8) & 0xff) as u8, ((n >> 16) & 0xff) as u8, ((n >> 24) & 0xff) as u8]
}

/// The four bytes of `n` in the given byte order.
pub open spec fn u32_bytes(n: u32, le: bool) -> Seq<u8> {
    let b = u32_le_bytes(n);
    if le {
        b
    } else {
        seq![b[3], b[2], b[1], b[0]]
    }
}

/// The eight bytes of `v`, least significant first.
pub open spec fn u64_le_bytes(v: u64) -> Seq<u8> {
    seq![
        (v & 0xff) as u8,
        ((v >> 8) & 0xff) as u8,
        ((v >> 16) & 0xff) as u8,
        ((v >> 24) & 0xff) as u8,
        ((v >> 32) & 0xff) as u8,
        ((v >> 40) & 0xff) as u8,
        ((v >> 48) & 0xff) as u8,
        ((v >> 56) & 0xff) as u8,
    ]
}

/// The eight bytes of `v` in the given byte order.
pub open spec fn u64_bytes(v: u64, le: bool) -> Seq<u8> {
    let b = u64_le_bytes(v);
    if le {
        b
    } else {
        seq![b[7], b[6], b[5], b[4], b[3], b[2], b[1], b[0]]
    }
}

/// The byte-order byte (1 for little-endian, 0 for big-endian) and the type code.
pub open spec fn header_bytes(t: u32, le: bool) -> Seq<u8> {
    seq![if le { 1u8 } else { 0u8 }] + u32_bytes(t, le)
}

pub open spec fn pair_bytes(c: (u64, u64), le: bool) -> Seq<u8> {
    u64_bytes(c.0, le) + u64_bytes(c.1, le)
}

pub open spec fn coords_bytes(cs: Seq<(u64, u64)>, le: bool) -> Seq<u8>
    decreases cs.len(),
{
    if cs.len() == 0 {
        seq![]
    } else {
        coords_bytes(cs.subrange(0, cs.len() - 1), le) + pair_bytes(cs.last(), le)
    }
}

pub open spec fn rings_bytes(rs: Seq<Seq<(u64, u64)>>, le: bool) -> Seq<u8>
    decreases rs.len(),
{
    if rs.len() == 0 {
        seq![]
    } else {
        rings_bytes(rs.subrange(0, rs.len() - 1), le) + u32_bytes(rs.last().len() as u32, le)
            + coords_bytes(rs.last(), le)
    }
}

/// The WKB of a geometry, every part in the same byte order.
pub open spec fn encode(g: Geometry, le: bool) -> Seq<u8>
    decreases g, 1int,
{
    header_bytes(type_code(g), le) + body_bytes(g, le)
}

/// The WKB of a geometry after its header.
pub open spec fn body_bytes(g: Geometry, le: bool) -> Seq<u8>
    decreases g, 0int,
{
    match g {
        Geometry::Point(x, y) => pair_bytes((x, y), le),
        Geometry::LineString(cs) => u32_bytes(cs.len() as u32, le) + coords_bytes(cs, le),
        Geometry::Polygon(rs) => u32_bytes(rs.len() as u32, le) + rings_bytes(rs, le),
        Geometry::MultiPoint(gs) => u32_bytes(gs.len() as u32, le) + list_bytes(gs, le),
        Geometry::MultiLineString(gs) => u32_bytes(gs.len() as u32, le) + list_bytes(gs, le),
        Geometry::MultiPolygon(gs) => u32_bytes(gs.len() as u32, le) + list_bytes(gs, le),
        Geometry::GeometryCollection(gs) => u32_bytes(gs.len() as u32, le) + list_bytes(gs, le),
    }
}

/// The WKB of the geometries, one after the other.
pub open spec fn list_bytes(gs: Seq<Geometry>, le: bool) -> Seq<u8>
    decreases gs, 0int,
{
    if gs.len() == 0 {
        seq![]
    } else {
        list_bytes(gs.subrange(0, gs.len() - 1), le) + encode(gs.last(), le)
    }
}

/// Whether every count of the geometry fits in the 32 bits that WKB gives it.
pub open spec fn well_formed(g: Geometry) -> bool
    decreases g, 1int,
{
    match g {
        Geometry::Point(..) => true,
        Geometry::LineString(cs) => cs.len() <= u32::MAX,
        Geometry::Polygon(rs) => rs.len() <= u32::MAX && forall|i: int|
            0 <= i < rs.len() ==> #[trigger] rs[i].len() <= u32::MAX,
        Geometry::MultiPoint(gs) => gs.len() <= u32::MAX && all_well_formed(gs),
        Geometry::MultiLineString(gs) => gs.len() <= u32::MAX && all_well_formed(gs),
        Geometry::MultiPolygon(gs) => gs.len() <= u32::MAX && all_well_formed(gs),
        Geometry::GeometryCollection(gs) => gs.len() <= u32::MAX && all_well_formed(gs),
    }
}

pub open spec fn all_well_formed(gs: Seq<Geometry>) -> bool
    decreases gs, 0int,
{
    if gs.len() == 0 {
        true
    } else {
        all_well_formed(gs.subrange(0, gs.len() - 1)) && well_formed(gs.last())
    }
}

// ---------------------------------------------------------------------------
// Words
// ---------------------------------------------------------------------------

proof fn lemma_combine4(n: u32)
    ensures
        combine4((n & 0xff) as u8, ((n >> 8) & 0xff) as u8, ((n >> 16) & 0xff) as u8, ((n >> 24)
            & 0xff) as u8) == n,
{
    assert(combine4((n & 0xff) as u8, ((n >> 8) & 0xff) as u8, ((n >> 16) & 0xff) as u8, ((n
        >> 24) & 0xff) as u8) == n) by (bit_vector);
}

proof fn lemma_combine8(v: u64)
    ensures
        combine8(
            (v & 0xff) as u8,
            ((v >> 8) & 0xff) as u8,
            ((v >> 16) & 0xff) as u8,
            ((v >> 24) & 0xff) as u8,
            ((v >> 32) & 0xff) as u8,
            ((v >> 40) & 0xff) as u8,
            ((v >> 48) & 0xff) as u8,
            ((v >> 56) & 0xff) as u8,
        ) == v,
{
    assert(combine8(
        (v & 0xff) as u8,
        ((v >> 8) & 0xff) as u8,
        ((v >> 16) & 0xff) as u8,
        ((v >> 24) & 0xff) as u8,
        ((v >> 32) & 0xff) as u8,
        ((v >> 40) & 0xff) as u8,
        ((v >> 48) & 0xff) as u8,
        ((v >> 56) & 0xff) as u8,
    ) == v) by (bit_vector);
}

/// Whether `bytes` stands in `data` from `at` on.
pub open spec fn occurs_at(data: Seq<u8>, at: int, bytes: Seq<u8>) -> bool {
    0 <= at && at + bytes.len() <= data.len() && data.subrange(at, at + bytes.len()) == bytes
}

proof fn lemma_occurs_split(data: Seq<u8>, at: int, a: Seq<u8>, b: Seq<u8>)
    requires
        occurs_at(data, at, a + b),
    ensures
        occurs_at(data, at, a),
        occurs_at(data, at + a.len(), b),
{
    let whole = data.subrange(at, at + (a + b).len());
    assert(whole == a + b);
    assert(data.subrange(at, at + a.len()) =~= whole.subrange(0, a.len() as int));
    assert(whole.subrange(0, a.len() as int) =~= a);
    assert(data.subrange(at + a.len(), at + a.len() + b.len()) =~= whole.subrange(
        a.len() as int,
        whole.len() as int,
    ));
    assert(whole.subrange(a.len() as int, whole.len() as int) =~= b);
}

proof fn lemma_word32(data: Seq<u8>, at: int, n: u32, le: bool)
    requires
        occurs_at(data, at, u32_bytes(n, le)),
    ensures
        word32(data, at, le) == n,
{
    let b = u32_bytes(n, le);
    assert(forall|k: int| 0 <= k < 4 ==> data[at + k] == #[trigger] b[k]) by {
        assert forall|k: int| 0 <= k < 4 implies data[at + k] == #[trigger] b[k] by {
            assert(data.subrange(at, at + 4)[k] == data[at + k]);
        }
    }
    assert(data[at] == b[0] && data[at + 1] == b[1] && data[at + 2] == b[2] && data[at + 3] == b[3]);
    lemma_combine4(n);
}

proof fn lemma_word64(data: Seq<u8>, at: int, v: u64, le: bool)
    requires
        occurs_at(data, at, u64_bytes(v, le)),
    ensures
        word64(data, at, le) == v,
{
    let b = u64_bytes(v, le);
    assert forall|k: int| 0 <= k < 8 implies data[at + k] == #[trigger] b[k] by {
        assert(data.subrange(at, at + 8)[k] == data[at + k]);
    }
    assert(data[at] == b[0] && data[at + 1] == b[1] && data[at + 2] == b[2] && data[at + 3] == b[3]);
    assert(data[at + 4] == b[4] && data[at + 5] == b[5] && data[at + 6] == b[6] && data[at + 7]
        == b[7]);
    lemma_combine8(v);
}

// ---------------------------------------------------------------------------
// Reading back
// ---------------------------------------------------------------------------

proof fn lemma_read_coords(data: Seq<u8>, p: int, cs: Seq<(u64, u64)>, le: bool)
    requires
        occurs_at(data, p, coords_bytes(cs, le)),
    ensures
        coords_bytes(cs, le).len() == 16 * cs.len(),
        coords_at(data, p, le, cs.len()) == cs,
    decreases cs.len(),
{
    if cs.len() > 0 {
        let init = cs.subrange(0, cs.len() - 1);
        let c = cs.last();
        lemma_occurs_split(data, p, coords_bytes(init, le), pair_bytes(c, le));
        lemma_read_coords(data, p, init, le);
        let at = p + 16 * init.len();
        lemma_occurs_split(data, at, u64_bytes(c.0, le), u64_bytes(c.1, le));
        lemma_word64(data, at, c.0, le);
        lemma_word64(data, at + 8, c.1, le);
        let got = coords_at(data, p, le, cs.len());
        assert forall|i: int| 0 <= i < cs.len() implies #[trigger] got[i] == cs[i] by {
            if i < init.len() {
                assert(coords_at(data, p, le, init.len())[i] == init[i]);
            }
        }
        assert(got =~= cs);
    } else {
        assert(coords_at(data, p, le, 0) =~= cs);
    }
}

proof fn lemma_read_rings(data: Seq<u8>, p: int, rs: Seq<Seq<(u64, u64)>>, le: bool)
    requires
        occurs_at(data, p, rings_bytes(rs, le)),
        forall|i: int| 0 <= i < rs.len() ==> #[trigger] rs[i].len() <= u32::MAX,
    ensures
        read_rings(data, p, le, rs.len()) == Ok::<_, WkbError>((rs, p + rings_bytes(rs, le).len())),
    decreases rs.len(),
{
    if rs.len() > 0 {
        let init = rs.subrange(0, rs.len() - 1);
        let r = rs.last();
        let head = rings_bytes(init, le) + u32_bytes(r.len() as u32, le);
        assert(rings_bytes(rs, le) == head + coords_bytes(r, le));
        lemma_occurs_split(data, p, head, coords_bytes(r, le));
        lemma_occurs_split(data, p, rings_bytes(init, le), u32_bytes(r.len() as u32, le));
        assert forall|i: int| 0 <= i < init.len() implies #[trigger] init[i].len() <= u32::MAX by {
            assert(init[i] == rs[i]);
        }
        lemma_read_rings(data, p, init, le);
        let at = p + rings_bytes(init, le).len();
        lemma_word32(data, at, r.len() as u32, le);
        assert(rs[rs.len() - 1].len() <= u32::MAX);
        lemma_read_coords(data, at + 4, r, le);
        assert(init.push(r) =~= rs);
    } else {
        assert(rs =~= seq![]);
    }
}

proof fn lemma_read_geometry(data: Seq<u8>, p: int, g: Geometry, le: bool)
    requires
        occurs_at(data, p, encode(g, le)),
        well_formed(g),
    ensures
        read_geometry(data, p) == Ok::<_, WkbError>((g, p + encode(g, le).len())),
    decreases g, 2int,
{
    let t = type_code(g);
    lemma_occurs_split(data, p, header_bytes(t, le), body_bytes(g, le));
    lemma_occurs_split(data, p, seq![if le { 1u8 } else { 0u8 }], u32_bytes(t, le));
    assert(data[p] == data.subrange(p, p + 1)[0]);
    assert((data[p] == 1) == le);
    lemma_word32(data, p + 1, t, le);
    lemma_read_body(data, p + 5, g, le);
}

#[verifier::rlimit(40)]
proof fn lemma_read_body(data: Seq<u8>, p: int, g: Geometry, le: bool)
    requires
        occurs_at(data, p, body_bytes(g, le)),
        well_formed(g),
    ensures
        read_body(data, p, le, type_code(g)) == Ok::<_, WkbError>((g, p + body_bytes(g, le).len())),
    decreases g, 1int,
{
    match g {
        Geometry::Point(x, y) => {
            lemma_body_point(data, p, x, y, le);
        },
        Geometry::LineString(cs) => {
            lemma_body_linestring(data, p, cs, le);
        },
        Geometry::Polygon(rs) => {
            lemma_body_polygon(data, p, rs, le);
        },
        Geometry::MultiPoint(gs) => {
            lemma_read_members(data, p, gs, le, 4);
        },
        Geometry::MultiLineString(gs) => {
            lemma_read_members(data, p, gs, le, 5);
        },
        Geometry::MultiPolygon(gs) => {
            lemma_read_members(data, p, gs, le, 6);
        },
        Geometry::GeometryCollection(gs) => {
            lemma_read_members(data, p, gs, le, 7);
        },
    }
}

proof fn lemma_body_point(data: Seq<u8>, p: int, x: u64, y: u64, le: bool)
    requires
        occurs_at(data, p, u64_bytes(x, le) + u64_bytes(y, le)),
    ensures
        read_body(data, p, le, 1) == Ok::<_, WkbError>((Geometry::Point(x, y), p + 16)),
{
    lemma_occurs_split(data, p, u64_bytes(x, le), u64_bytes(y, le));
    lemma_word64(data, p, x, le);
    lemma_word64(data, p + 8, y, le);
}

proof fn lemma_body_linestring(data: Seq<u8>, p: int, cs: Seq<(u64, u64)>, le: bool)
    requires
        occurs_at(data, p, u32_bytes(cs.len() as u32, le) + coords_bytes(cs, le)),
        cs.len() <= u32::MAX,
    ensures
        read_body(data, p, le, 2) == Ok::<_, WkbError>(
            (Geometry::LineString(cs), p + 4 + coords_bytes(cs, le).len()),
        ),
{
    lemma_occurs_split(data, p, u32_bytes(cs.len() as u32, le), coords_bytes(cs, le));
    lemma_word32(data, p, cs.len() as u32, le);
    lemma_read_coords(data, p + 4, cs, le);
}

proof fn lemma_body_polygon(data: Seq<u8>, p: int, rs: Seq<Seq<(u64, u64)>>, le: bool)
    requires
        occurs_at(data, p, u32_bytes(rs.len() as u32, le) + rings_bytes(rs, le)),
        rs.len() <= u32::MAX,
        forall|i: int| 0 <= i < rs.len() ==> #[trigger] rs[i].len() <= u32::MAX,
    ensures
        read_body(data, p, le, 3) == Ok::<_, WkbError>(
            (Geometry::Polygon(rs), p + 4 + rings_bytes(rs, le).len()),
        ),
{
    lemma_occurs_split(data, p, u32_bytes(rs.len() as u32, le), rings_bytes(rs, le));
    lemma_word32(data, p, rs.len() as u32, le);
    lemma_read_rings(data, p + 4, rs, le);
}

proof fn lemma_read_members(data: Seq<u8>, p: int, gs: Seq<Geometry>, le: bool, t: u32)
    requires
        occurs_at(data, p, u32_bytes(gs.len() as u32, le) + list_bytes(gs, le)),
        gs.len() <= u32::MAX,
        all_well_formed(gs),
        4 <= t <= 7,
    ensures
        read_body(data, p, le, t) == Ok::<_, WkbError>(
            (
                if t == 4 {
                    Geometry::MultiPoint(gs)
                } else if t == 5 {
                    Geometry::MultiLineString(gs)
                } else if t == 6 {
                    Geometry::MultiPolygon(gs)
                } else {
                    Geometry::GeometryCollection(gs)
                },
                p + 4 + list_bytes(gs, le).len(),
            ),
        ),
    decreases gs, 1int,
{
    lemma_occurs_split(data, p, u32_bytes(gs.len() as u32, le), list_bytes(gs, le));
    lemma_word32(data, p, gs.len() as u32, le);
    lemma_read_list(data, p + 4, gs, le);
}

proof fn lemma_read_list(data: Seq<u8>, p: int, gs: Seq<Geometry>, le: bool)
    requires
        occurs_at(data, p, list_bytes(gs, le)),
        all_well_formed(gs),
    ensures
        read_list(data, p, gs.len()) == Ok::<_, WkbError>((gs, p + list_bytes(gs, le).len())),
    decreases gs, 0int,
{
    if gs.len() > 0 {
        let init = gs.subrange(0, gs.len() - 1);
        let g = gs.last();
        lemma_occurs_split(data, p, list_bytes(init, le), encode(g, le));
        lemma_read_list(data, p, init, le);
        lemma_read_geometry(data, p + list_bytes(init, le).len(), g, le);
        assert(init.push(g) =~= gs);
    } else {
        assert(gs =~= seq![]);
    }
}

/// Every well-formed geometry, written as WKB in either byte order and
/// followed by any bytes, reads back as itself, and the reading stops where
/// its WKB ends.
pub proof fn lemma_wkb_roundtrip(g: Geometry, le: bool, rest: Seq<u8>)
    requires
        well_formed(g),
    ensures
        read_wkb(encode(g, le) + rest) == Ok::<_, WkbError>((g, encode(g, le).len() as int)),
{
    let data = encode(g, le) + rest;
    assert(data.subrange(0, encode(g, le).len() as int) =~= encode(g, le));
    lemma_read_geometry(data, 0, g, le);
}

/// The byte order in which a geometry is written does not change what is read:
/// both encodings read as the same geometry, and so convert to the same WKT.
pub proof fn lemma_byte_order_irrelevant(g: Geometry)
    requires
        well_formed(g),
    ensures
        read_wkb(encode(g, true)) matches Ok((a, _)) && read_wkb(encode(g, false)) matches Ok(
            (b, _),
        ) && a == b && tokens(a) == tokens(b),
{
    lemma_wkb_roundtrip(g, true, seq![]);
    lemma_wkb_roundtrip(g, false, seq![]);
    assert(encode(g, true) + seq![] =~= encode(g, true));
    assert(encode(g, false) + seq![] =~= encode(g, false));
}

/// Written in either byte order, a geometry converts to the same WKT, given a
/// formatter whose text is determined by the bit pattern.
pub proof fn lemma_byte_order_same_text<F: Fn(u64) -> String>(
    g: Geometry,
    little: Seq<char>,
    big: Seq<char>,
    format_coord: F,
)
    requires
        well_formed(g),
        formats_deterministically(format_coord),
        is_wkt_of(encode(g, true), little, format_coord),
        is_wkt_of(encode(g, false), big, format_coord),
    ensures
        little == big,
{
    lemma_byte_order_irrelevant(g);
    let toks = tokens(read_wkb(encode(g, false))->Ok_0.0);
    let texts = choose|texts: Seq<String>|
        formatted_by(toks, texts, format_coord) && #[trigger] fill(toks, texts) == big;
    assert(formatted_by(toks, texts, format_coord) && fill(toks, texts) == big);
    assert(is_wkt_of(encode(g, true), big, format_coord));
    lemma_wkt_determined(encode(g, true), little, big, format_coord);
}

} // verus!
