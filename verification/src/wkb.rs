//! Minimal WKB (Well-Known Binary) to WKT (Well-Known Text) converter.
//!
//! Supports the geometry types used by geobr: Point, MultiPoint, LineString,
//! MultiLineString, Polygon, MultiPolygon, GeometryCollection.
//! Handles both little-endian and big-endian byte order.
//!
//! Coordinates are carried as the bit patterns of IEEE-754 doubles; the text
//! of each coordinate is supplied by the caller's formatter.

use vstd::prelude::*;

use crate::text::{decimal, decimal_chars, push_chars, push_str, string_of_chars};

verus! {

// ---------------------------------------------------------------------------
// Model
// ---------------------------------------------------------------------------

/// A geometry as WKB describes it; each coordinate is the bit pattern of a double.
pub enum Geometry {
    Point(u64, u64),
    LineString(Seq<(u64, u64)>),
    Polygon(Seq<Seq<(u64, u64)>>),
    MultiPoint(Seq<Geometry>),
    MultiLineString(Seq<Geometry>),
    MultiPolygon(Seq<Geometry>),
    GeometryCollection(Seq<Geometry>),
}

/// Why a WKB buffer was refused.
#[derive(Clone, Copy, PartialEq, Eq, Structural)]
pub enum WkbError {
    /// The buffer ended in the middle of a geometry.
    UnexpectedEnd,
    /// The geometry type code is none of 1 to 7.
    UnsupportedType(u32),
}

impl WkbError {
    /// The message that the converter reports for this error.
    pub open spec fn message(self) -> Seq<char> {
        match self {
            WkbError::UnexpectedEnd => "unexpected end of WKB"@,
            WkbError::UnsupportedType(t) => "unsupported geometry type: "@ + decimal(t as nat),
        }
    }
}

/// The WKB type code of a geometry.
pub open spec fn type_code(g: Geometry) -> u32 {
    match g {
        Geometry::Point(..) => 1,
        Geometry::LineString(..) => 2,
        Geometry::Polygon(..) => 3,
        Geometry::MultiPoint(..) => 4,
        Geometry::MultiLineString(..) => 5,
        Geometry::MultiPolygon(..) => 6,
        Geometry::GeometryCollection(..) => 7,
    }
}

// ---------------------------------------------------------------------------
// Decoding: bytes to geometry
// ---------------------------------------------------------------------------

/// Four bytes as an unsigned integer, least significant first.
pub open spec fn combine4(b0: u8, b1: u8, b2: u8, b3: u8) -> u32 {
    (b0 + b1 * 0x100 + b2 * 0x1_0000 + b3 * 0x100_0000) as u32
}

/// Eight bytes as an unsigned integer, least significant first.
pub open spec fn combine8(b0: u8, b1: u8, b2: u8, b3: u8, b4: u8, b5: u8, b6: u8, b7: u8) -> u64 {
    (b0 + b1 * 0x100 + b2 * 0x1_0000 + b3 * 0x100_0000 + b4 * 0x1_0000_0000 + b5
        * 0x100_0000_0000 + b6 * 0x1_0000_0000_0000 + b7 * 0x100_0000_0000_0000) as u64
}

/// The 32-bit word at `at`, in the given byte order.
pub open spec fn word32(data: Seq<u8>, at: int, le: bool) -> u32 {
    if le {
        combine4(data[at], data[at + 1], data[at + 2], data[at + 3])
    } else {
        combine4(data[at + 3], data[at + 2], data[at + 1], data[at])
    }
}

/// The 64-bit word at `at`, in the given byte order.
pub open spec fn word64(data: Seq<u8>, at: int, le: bool) -> u64 {
    if le {
        combine8(
            data[at],
            data[at + 1],
            data[at + 2],
            data[at + 3],
            data[at + 4],
            data[at + 5],
            data[at + 6],
            data[at + 7],
        )
    } else {
        combine8(
            data[at + 7],
            data[at + 6],
            data[at + 5],
            data[at + 4],
            data[at + 3],
            data[at + 2],
            data[at + 1],
            data[at],
        )
    }
}

/// The `n` coordinate pairs stored from `start` on, 16 bytes each.
pub open spec fn coords_at(data: Seq<u8>, start: int, le: bool, n: nat) -> Seq<(u64, u64)> {
    Seq::new(n, |i: int| (word64(data, start + 16 * i, le), word64(data, start + 16 * i + 8, le)))
}

/// Reads `n` coordinate pairs at `pos`.
pub open spec fn read_coords(data: Seq<u8>, pos: int, le: bool, n: nat) -> Result<
    (Seq<(u64, u64)>, int),
    WkbError,
> {
    if pos + 16 * n <= data.len() {
        Ok((coords_at(data, pos, le, n), pos + 16 * n))
    } else {
        Err(WkbError::UnexpectedEnd)
    }
}

/// Reads `n` rings at `pos`: each a point count followed by its points.
pub open spec fn read_rings(data: Seq<u8>, pos: int, le: bool, n: nat) -> Result<
    (Seq<Seq<(u64, u64)>>, int),
    WkbError,
>
    decreases n,
{
    if n == 0 {
        Ok((seq![], pos))
    } else {
        match read_rings(data, pos, le, (n - 1) as nat) {
            Err(e) => Err(e),
            Ok((rings, p)) => if 0 <= p && p + 4 <= data.len() {
                match read_coords(data, p + 4, le, word32(data, p, le) as nat) {
                    Err(e) => Err(e),
                    Ok((ring, q)) => Ok((rings.push(ring), q)),
                }
            } else {
                Err(WkbError::UnexpectedEnd)
            },
        }
    }
}

/// Reads one geometry at `pos`: a byte-order byte (1 for little-endian, any
/// other value for big-endian), a 32-bit type code, then the body.
/// On success, gives the geometry and the position just after it.
pub open spec fn read_geometry(data: Seq<u8>, pos: int) -> Result<(Geometry, int), WkbError>
    decreases data.len() - pos, 1int, 0int,
{
    if pos < 0 || pos + 5 > data.len() {
        Err(WkbError::UnexpectedEnd)
    } else {
        let le = data[pos] == 1;
        let t = word32(data, pos + 1, le);
        if 1 <= t && t <= 7 {
            read_body(data, pos + 5, le, t)
        } else {
            Err(WkbError::UnsupportedType(t))
        }
    }
}

/// Reads the body of a geometry of type `t` at `pos`.
pub open spec fn read_body(data: Seq<u8>, pos: int, le: bool, t: u32) -> Result<
    (Geometry, int),
    WkbError,
>
    decreases data.len() - pos, 0int, 0int,
{
    if pos < 0 {
        Err(WkbError::UnexpectedEnd)
    } else if t == 1 {
        if pos + 16 <= data.len() {
            Ok((Geometry::Point(word64(data, pos, le), word64(data, pos + 8, le)), pos + 16))
        } else {
            Err(WkbError::UnexpectedEnd)
        }
    } else if pos + 4 > data.len() {
        Err(WkbError::UnexpectedEnd)
    } else {
        let n = word32(data, pos, le) as nat;
        if t == 2 {
            match read_coords(data, pos + 4, le, n) {
                Err(e) => Err(e),
                Ok((cs, q)) => Ok((Geometry::LineString(cs), q)),
            }
        } else if t == 3 {
            match read_rings(data, pos + 4, le, n) {
                Err(e) => Err(e),
                Ok((rs, q)) => Ok((Geometry::Polygon(rs), q)),
            }
        } else {
            match read_list(data, pos + 4, n) {
                Err(e) => Err(e),
                Ok((gs, q)) => Ok(
                    (
                        if t == 4 {
                            Geometry::MultiPoint(gs)
                        } else if t == 5 {
                            Geometry::MultiLineString(gs)
                        } else if t == 6 {
                            Geometry::MultiPolygon(gs)
                        } else {
                            Geometry::GeometryCollection(gs)
                        },
                        q,
                    ),
                ),
            }
        }
    }
}

/// Reads `n` geometries one after the other from `pos`, each with its own byte order.
pub open spec fn read_list(data: Seq<u8>, pos: int, n: nat) -> Result<(Seq<Geometry>, int), WkbError>
    decreases data.len() - pos, 2int, n,
{
    if n == 0 {
        Ok((seq![], pos))
    } else {
        match read_list(data, pos, (n - 1) as nat) {
            Err(e) => Err(e),
            Ok((gs, p)) => if pos <= p && p <= data.len() {
                match read_geometry(data, p) {
                    Err(e) => Err(e),
                    Ok((g, q)) => Ok((gs.push(g), q)),
                }
            } else {
                Err(WkbError::UnexpectedEnd)
            },
        }
    }
}

/// The geometry that a whole WKB buffer starts with.
pub open spec fn read_wkb(data: Seq<u8>) -> Result<(Geometry, int), WkbError> {
    read_geometry(data, 0)
}

// ---------------------------------------------------------------------------
// Rendering: geometry to WKT pieces
// ---------------------------------------------------------------------------

/// A piece of WKT: literal text, or the place of one coordinate.
pub enum Tok {
    Text(Seq<char>),
    Coord(u64),
}

/// The opening of the WKT of a geometry with type code `t`.
pub open spec fn header(t: u32) -> Seq<char> {
    if t == 1 {
        "POINT ("@
    } else if t == 2 {
        "LINESTRING ("@
    } else if t == 3 {
        "POLYGON ("@
    } else if t == 4 {
        "MULTIPOINT ("@
    } else if t == 5 {
        "MULTILINESTRING ("@
    } else if t == 6 {
        "MULTIPOLYGON ("@
    } else {
        "GEOMETRYCOLLECTION ("@
    }
}

pub open spec fn text(s: Seq<char>) -> Seq<Tok> {
    seq![Tok::Text(s)]
}

/// `x y`
pub open spec fn pair_toks(c: (u64, u64)) -> Seq<Tok> {
    seq![Tok::Coord(c.0), Tok::Text(" "@), Tok::Coord(c.1)]
}

/// The pairs, separated by `, `.
pub open spec fn coord_list(cs: Seq<(u64, u64)>) -> Seq<Tok>
    decreases cs.len(),
{
    if cs.len() == 0 {
        seq![]
    } else if cs.len() == 1 {
        pair_toks(cs[0])
    } else {
        coord_list(cs.subrange(0, cs.len() - 1)) + text(", "@) + pair_toks(cs.last())
    }
}

/// `(x y, ...)`
pub open spec fn ring_toks(cs: Seq<(u64, u64)>) -> Seq<Tok> {
    text("("@) + coord_list(cs) + text(")"@)
}

/// The rings, separated by `, `.
pub open spec fn ring_list(rs: Seq<Seq<(u64, u64)>>) -> Seq<Tok>
    decreases rs.len(),
{
    if rs.len() == 0 {
        seq![]
    } else if rs.len() == 1 {
        ring_toks(rs[0])
    } else {
        ring_list(rs.subrange(0, rs.len() - 1)) + text(", "@) + ring_toks(rs.last())
    }
}

/// The WKT of a geometry: its opening, its body, and `)`.
pub open spec fn tokens(g: Geometry) -> Seq<Tok>
    decreases g, 2int,
{
    text(header(type_code(g))) + body(g) + text(")"@)
}

/// What stands between the parentheses of a geometry's WKT.
pub open spec fn body(g: Geometry) -> Seq<Tok>
    decreases g, 1int,
{
    match g {
        Geometry::Point(x, y) => pair_toks((x, y)),
        Geometry::LineString(cs) => coord_list(cs),
        Geometry::Polygon(rs) => ring_list(rs),
        Geometry::MultiPoint(gs) => members(gs, 1),
        Geometry::MultiLineString(gs) => members(gs, 2),
        Geometry::MultiPolygon(gs) => members(gs, 3),
        Geometry::GeometryCollection(gs) => collection(gs),
    }
}

/// A member of a multi-geometry whose members are expected to have type `k`:
/// `(body)` when it has that type, `(full WKT)` otherwise.
pub open spec fn member(g: Geometry, k: u32) -> Seq<Tok>
    decreases g, 3int,
{
    text("("@) + (if type_code(g) == k {
        body(g)
    } else {
        tokens(g)
    }) + text(")"@)
}

/// The members, separated by `, `.
pub open spec fn members(gs: Seq<Geometry>, k: u32) -> Seq<Tok>
    decreases gs, 0int,
{
    if gs.len() == 0 {
        seq![]
    } else if gs.len() == 1 {
        member(gs[0], k)
    } else {
        members(gs.subrange(0, gs.len() - 1), k) + text(", "@) + member(gs.last(), k)
    }
}

/// The full WKT of each geometry, separated by `, `.
pub open spec fn collection(gs: Seq<Geometry>) -> Seq<Tok>
    decreases gs, 0int,
{
    if gs.len() == 0 {
        seq![]
    } else if gs.len() == 1 {
        tokens(gs[0])
    } else {
        collection(gs.subrange(0, gs.len() - 1)) + text(", "@) + tokens(gs.last())
    }
}

/// The text of the pieces, with `texts[k]` in place of the `k`-th piece when it is a coordinate.
pub open spec fn fill(toks: Seq<Tok>, texts: Seq<String>) -> Seq<char>
    decreases toks.len(),
{
    if toks.len() == 0 {
        seq![]
    } else {
        fill(toks.subrange(0, toks.len() - 1), texts.subrange(0, toks.len() - 1)) + match toks.last() {
            Tok::Text(s) => s,
            Tok::Coord(_) => texts[toks.len() - 1]@,
        }
    }
}

/// `texts[k]` is a possible result of `format_coord` on the `k`-th piece whenever it is a coordinate.
pub open spec fn formatted_by<F: Fn(u64) -> String>(
    toks: Seq<Tok>,
    texts: Seq<String>,
    format_coord: F,
) -> bool {
    &&& texts.len() == toks.len()
    &&& forall|k: int|
        0 <= k < toks.len() ==> (#[trigger] toks[k] matches Tok::Coord(b) ==> call_ensures(
            format_coord,
            (b,),
            texts[k],
        ))
}

/// Whether `text` is a WKT of the geometry that `wkb` starts with, as
/// [`wkb_to_wkt`] writes it with `format_coord`.
pub open spec fn is_wkt_of<F: Fn(u64) -> String>(wkb: Seq<u8>, text: Seq<char>, format_coord: F) -> bool {
    read_wkb(wkb) matches Ok((g, _)) && exists|texts: Seq<String>|
        formatted_by(tokens(g), texts, format_coord) && #[trigger] fill(tokens(g), texts) == text
}

/// Whether every result of `format_coord` on a bit pattern has the same text.
pub open spec fn formats_deterministically<F: Fn(u64) -> String>(format_coord: F) -> bool {
    forall|b: u64, x: String, y: String|
        #[trigger] call_ensures(format_coord, (b,), x) && #[trigger] call_ensures(
            format_coord,
            (b,),
            y,
        ) ==> x@ == y@
}

/// The coordinates among the pieces, in order.
pub open spec fn coords_in(toks: Seq<Tok>) -> Seq<u64>
    decreases toks.len(),
{
    if toks.len() == 0 {
        seq![]
    } else {
        coords_in(toks.subrange(0, toks.len() - 1)) + match toks.last() {
            Tok::Coord(b) => seq![b],
            Tok::Text(_) => seq![],
        }
    }
}

/// The coordinates of the pairs, each `x` before its `y`.
pub open spec fn pair_values(cs: Seq<(u64, u64)>) -> Seq<u64>
    decreases cs.len(),
{
    if cs.len() == 0 {
        seq![]
    } else {
        pair_values(cs.subrange(0, cs.len() - 1)) + seq![cs.last().0, cs.last().1]
    }
}

/// The coordinates of the rings, ring after ring.
pub open spec fn ring_values(rs: Seq<Seq<(u64, u64)>>) -> Seq<u64>
    decreases rs.len(),
{
    if rs.len() == 0 {
        seq![]
    } else {
        ring_values(rs.subrange(0, rs.len() - 1)) + pair_values(rs.last())
    }
}

/// Every coordinate that a geometry holds, in the order in which WKB stores them.
pub open spec fn geometry_values(g: Geometry) -> Seq<u64>
    decreases g, 1int,
{
    match g {
        Geometry::Point(x, y) => seq![x, y],
        Geometry::LineString(cs) => pair_values(cs),
        Geometry::Polygon(rs) => ring_values(rs),
        Geometry::MultiPoint(gs) => list_values(gs),
        Geometry::MultiLineString(gs) => list_values(gs),
        Geometry::MultiPolygon(gs) => list_values(gs),
        Geometry::GeometryCollection(gs) => list_values(gs),
    }
}

/// The coordinates of the geometries, one after the other.
pub open spec fn list_values(gs: Seq<Geometry>) -> Seq<u64>
    decreases gs, 0int,
{
    if gs.len() == 0 {
        seq![]
    } else if gs.len() == 1 {
        geometry_values(gs[0])
    } else {
        list_values(gs.subrange(0, gs.len() - 1)) + geometry_values(gs.last())
    }
}

// ---------------------------------------------------------------------------
// Executable converter
// ---------------------------------------------------------------------------

/// A piece of WKT output.
pub enum WktPiece {
    Text(&'static str),
    Coord(u64),
}

impl View for WktPiece {
    type V = Tok;

    open spec fn view(&self) -> Tok {
        match self {
            WktPiece::Text(s) => Tok::Text(s@),
            WktPiece::Coord(b) => Tok::Coord(*b),
        }
    }
}

pub open spec fn toks_of(v: Seq<WktPiece>) -> Seq<Tok> {
    v.map_values(|p: WktPiece| p@)
}

proof fn lemma_toks_of_push(v: Seq<WktPiece>, p: WktPiece)
    ensures
        toks_of(v.push(p)) == toks_of(v).push(p@),
{
    assert(toks_of(v.push(p)) =~= toks_of(v).push(p@));
}

fn push_piece(out: &mut Vec<WktPiece>, p: WktPiece)
    ensures
        toks_of(final(out)@) == toks_of(old(out)@) + seq![p@],
{
    let ghost before = out@;
    out.push(p);
    proof {
        lemma_toks_of_push(before, p);
        assert(toks_of(before).push(p@) =~= toks_of(before) + seq![p@]);
    }
}

fn push_text(out: &mut Vec<WktPiece>, s: &'static str)
    ensures
        toks_of(final(out)@) == toks_of(old(out)@) + text(s@),
{
    push_piece(out, WktPiece::Text(s));
}

fn header_text(t: u32) -> (s: &'static str)
    ensures
        s@ == header(t),
{
    if t == 1 {
        "POINT ("
    } else if t == 2 {
        "LINESTRING ("
    } else if t == 3 {
        "POLYGON ("
    } else if t == 4 {
        "MULTIPOINT ("
    } else if t == 5 {
        "MULTILINESTRING ("
    } else if t == 6 {
        "MULTIPOLYGON ("
    } else {
        "GEOMETRYCOLLECTION ("
    }
}

fn combine4_exec(b0: u8, b1: u8, b2: u8, b3: u8) -> (r: u32)
    ensures
        r == combine4(b0, b1, b2, b3),
{
    b0 as u32 + b1 as u32 * 0x100 + b2 as u32 * 0x1_0000 + b3 as u32 * 0x100_0000
}

fn combine8_exec(b0: u8, b1: u8, b2: u8, b3: u8, b4: u8, b5: u8, b6: u8, b7: u8) -> (r: u64)
    ensures
        r == combine8(b0, b1, b2, b3, b4, b5, b6, b7),
{
    b0 as u64 + b1 as u64 * 0x100 + b2 as u64 * 0x1_0000 + b3 as u64 * 0x100_0000 + b4 as u64
        * 0x1_0000_0000 + b5 as u64 * 0x100_0000_0000 + b6 as u64 * 0x1_0000_0000_0000 + b7 as u64
        * 0x100_0000_0000_0000
}

/// A cursor over a WKB buffer.
struct WkbReader<'a> {
    data: &'a [u8],
    pos: usize,
}

impl<'a> WkbReader<'a> {
    fn new(data: &'a [u8]) -> (r: Self)
        ensures
            r.data@ == data@,
            r.pos == 0,
    {
        WkbReader { data, pos: 0 }
    }

    /// The number of bytes not read yet.
    fn remaining(&self) -> (r: usize)
        ensures
            r == if self.pos <= self.data@.len() {
                self.data@.len() - self.pos
            } else {
                0
            },
    {
        if self.pos <= self.data.len() {
            self.data.len() - self.pos
        } else {
            0
        }
    }

    fn read_u8(&mut self) -> (r: Result<u8, WkbError>)
        requires
            old(self).pos <= old(self).data@.len(),
        ensures
            final(self).data == old(self).data,
            old(self).pos + 1 <= old(self).data@.len() ==> r == Ok::<u8, WkbError>(
                old(self).data@[old(self).pos as int],
            ) && final(self).pos == old(self).pos + 1,
            old(self).pos + 1 > old(self).data@.len() ==> r == Err::<u8, WkbError>(
                WkbError::UnexpectedEnd,
            ) && final(self).pos == old(self).pos,
    {
        if self.remaining() < 1 {
            return Err(WkbError::UnexpectedEnd);
        }
        let v = self.data[self.pos];
        self.pos = self.pos + 1;
        Ok(v)
    }

    fn read_u32(&mut self, le: bool) -> (r: Result<u32, WkbError>)
        requires
            old(self).pos <= old(self).data@.len(),
        ensures
            final(self).data == old(self).data,
            old(self).pos + 4 <= old(self).data@.len() ==> r == Ok::<u32, WkbError>(
                word32(old(self).data@, old(self).pos as int, le),
            ) && final(self).pos == old(self).pos + 4,
            old(self).pos + 4 > old(self).data@.len() ==> r == Err::<u32, WkbError>(
                WkbError::UnexpectedEnd,
            ) && final(self).pos == old(self).pos,
    {
        if self.remaining() < 4 {
            return Err(WkbError::UnexpectedEnd);
        }
        let p = self.pos;
        let d = self.data;
        let v = if le {
            combine4_exec(d[p], d[p + 1], d[p + 2], d[p + 3])
        } else {
            combine4_exec(d[p + 3], d[p + 2], d[p + 1], d[p])
        };
        self.pos = p + 4;
        Ok(v)
    }

    /// Reads a double and gives its bit pattern.
    fn read_double_bits(&mut self, le: bool) -> (r: Result<u64, WkbError>)
        requires
            old(self).pos <= old(self).data@.len(),
        ensures
            final(self).data == old(self).data,
            old(self).pos + 8 <= old(self).data@.len() ==> r == Ok::<u64, WkbError>(
                word64(old(self).data@, old(self).pos as int, le),
            ) && final(self).pos == old(self).pos + 8,
            old(self).pos + 8 > old(self).data@.len() ==> r == Err::<u64, WkbError>(
                WkbError::UnexpectedEnd,
            ) && final(self).pos == old(self).pos,
    {
        if self.remaining() < 8 {
            return Err(WkbError::UnexpectedEnd);
        }
        let p = self.pos;
        let d = self.data;
        assert(p + 8 <= d@.len());
        let v = if le {
            combine8_exec(d[p], d[p + 1], d[p + 2], d[p + 3], d[p + 4], d[p + 5], d[p + 6], d[p + 7])
        } else {
            combine8_exec(d[p + 7], d[p + 6], d[p + 5], d[p + 4], d[p + 3], d[p + 2], d[p + 1], d[p])
        };
        self.pos = p + 8;
        Ok(v)
    }
}

/// A body read as type `t` gives a geometry of type `t`.
proof fn lemma_body_type(data: Seq<u8>, pos: int, le: bool, t: u32)
    requires
        1 <= t <= 7,
    ensures
        read_body(data, pos, le, t) matches Ok((g, _)) ==> type_code(g) == t,
{
}

proof fn lemma_rings_len(data: Seq<u8>, pos: int, le: bool, n: nat)
    ensures
        read_rings(data, pos, le, n) matches Ok((rs, p)) ==> rs.len() == n && pos <= p,
    decreases n,
{
    if n > 0 {
        lemma_rings_len(data, pos, le, (n - 1) as nat);
    }
}

proof fn lemma_rings_err(data: Seq<u8>, pos: int, le: bool, i: nat, n: nat)
    requires
        i <= n,
        read_rings(data, pos, le, i) is Err,
    ensures
        read_rings(data, pos, le, n) == read_rings(data, pos, le, i),
    decreases n,
{
    if n > i {
        lemma_rings_err(data, pos, le, i, (n - 1) as nat);
    }
}

proof fn lemma_list_len(data: Seq<u8>, pos: int, n: nat)
    ensures
        read_list(data, pos, n) matches Ok((gs, p)) ==> gs.len() == n,
    decreases n,
{
    if n > 0 {
        lemma_list_len(data, pos, (n - 1) as nat);
    }
}

proof fn lemma_list_err(data: Seq<u8>, pos: int, i: nat, n: nat)
    requires
        i <= n,
        read_list(data, pos, i) is Err,
    ensures
        read_list(data, pos, n) == read_list(data, pos, i),
    decreases n,
{
    if n > i {
        lemma_list_err(data, pos, i, (n - 1) as nat);
    }
}

impl<'a> WkbReader<'a> {
    /// Reads `n` coordinate pairs and writes them as `x y, x y, ...`.
    fn read_coord_list(&mut self, le: bool, n: u32, out: &mut Vec<WktPiece>) -> (r: Result<
        (),
        WkbError,
    >)
        requires
            old(self).pos <= old(self).data@.len(),
        ensures
            final(self).data == old(self).data,
            old(self).pos <= final(self).pos <= final(self).data@.len(),
            match read_coords(old(self).data@, old(self).pos as int, le, n as nat) {
                Ok((cs, q)) => r is Ok && final(self).pos == q && toks_of(final(out)@) == toks_of(
                    old(out)@,
                ) + coord_list(cs),
                Err(e) => r == Err::<(), WkbError>(e),
            },
    {
        let ghost data = self.data@;
        let ghost start = self.pos as int;
        let ghost base = toks_of(out@);
        let mut i: u32 = 0;
        while i < n
            invariant
                self.data@ == data,
                self.data == old(self).data,
                old(self).pos <= self.pos,
                start == old(self).pos,
                i <= n,
                self.pos == start + 16 * i,
                start <= self.pos <= data.len(),
                toks_of(out@) == base + coord_list(coords_at(data, start, le, i as nat)),
            decreases n - i,
        {
            let x = self.read_double_bits(le)?;
            let y = self.read_double_bits(le)?;
            let ghost prev = coords_at(data, start, le, i as nat);
            let ghost next = coords_at(data, start, le, (i + 1) as nat);
            assert(next.subrange(0, i as int) =~= prev);
            assert(next.last() == (x, y));
            if i > 0 {
                push_text(out, ", ");
            }
            push_piece(out, WktPiece::Coord(x));
            push_text(out, " ");
            push_piece(out, WktPiece::Coord(y));
            assert(toks_of(out@) =~= base + coord_list(next));
            i = i + 1;
        }
        Ok(())
    }

    /// The body of a point: `x y`.
    fn read_point(&mut self, le: bool, out: &mut Vec<WktPiece>) -> (r: Result<(), WkbError>)
        requires
            old(self).pos <= old(self).data@.len(),
        ensures
            final(self).data == old(self).data,
            old(self).pos <= final(self).pos <= final(self).data@.len(),
            match read_body(old(self).data@, old(self).pos as int, le, 1) {
                Ok((g, q)) => r is Ok && final(self).pos == q && toks_of(final(out)@) == toks_of(
                    old(out)@,
                ) + body(g),
                Err(e) => r == Err::<(), WkbError>(e),
            },
    {
        let x = self.read_double_bits(le)?;
        let y = self.read_double_bits(le)?;
        push_piece(out, WktPiece::Coord(x));
        push_text(out, " ");
        push_piece(out, WktPiece::Coord(y));
        assert(toks_of(out@) =~= toks_of(old(out)@) + pair_toks((x, y)));
        Ok(())
    }

    /// The body of a line string: a point count, then the points.
    fn read_linestring(&mut self, le: bool, out: &mut Vec<WktPiece>) -> (r: Result<
        (),
        WkbError,
    >)
        requires
            old(self).pos <= old(self).data@.len(),
        ensures
            final(self).data == old(self).data,
            old(self).pos <= final(self).pos <= final(self).data@.len(),
            match read_body(old(self).data@, old(self).pos as int, le, 2) {
                Ok((g, q)) => r is Ok && final(self).pos == q && toks_of(final(out)@) == toks_of(
                    old(out)@,
                ) + body(g),
                Err(e) => r == Err::<(), WkbError>(e),
            },
    {
        let n = self.read_u32(le)?;
        self.read_coord_list(le, n, out)
    }

    /// The body of a polygon: a ring count, then the rings.
    fn read_polygon(&mut self, le: bool, out: &mut Vec<WktPiece>) -> (r: Result<(), WkbError>)
        requires
            old(self).pos <= old(self).data@.len(),
        ensures
            final(self).data == old(self).data,
            old(self).pos <= final(self).pos <= final(self).data@.len(),
            match read_body(old(self).data@, old(self).pos as int, le, 3) {
                Ok((g, q)) => r is Ok && final(self).pos == q && toks_of(final(out)@) == toks_of(
                    old(out)@,
                ) + body(g),
                Err(e) => r == Err::<(), WkbError>(e),
            },
    {
        let ghost data = self.data@;
        let n_rings = self.read_u32(le)?;
        let ghost start = self.pos as int;
        let ghost base = toks_of(out@);
        let mut i: u32 = 0;
        while i < n_rings
            invariant
                self.data@ == data,
                self.data == old(self).data,
                old(self).pos <= self.pos,
                start == old(self).pos + 4,
                old(self).pos + 4 <= data.len(),
                n_rings == word32(data, old(self).pos as int, le),
                i <= n_rings,
                start <= self.pos <= data.len(),
                read_rings(data, start, le, i as nat) matches Ok((rs, p)) && p == self.pos
                    && toks_of(out@) == base + ring_list(rs),
            decreases n_rings - i,
        {
            let ghost rs = read_rings(data, start, le, i as nat)->Ok_0.0;
            let ghost p0 = self.pos as int;
            let n_pts = match self.read_u32(le) {
                Ok(v) => v,
                Err(e) => {
                    proof {
                        lemma_rings_err(data, start, le, (i + 1) as nat, n_rings as nat);
                    }
                    return Err(e);
                },
            };
            if i > 0 {
                push_text(out, ", ");
            }
            push_text(out, "(");
            match self.read_coord_list(le, n_pts, out) {
                Ok(()) => {},
                Err(e) => {
                    proof {
                        lemma_rings_err(data, start, le, (i + 1) as nat, n_rings as nat);
                    }
                    return Err(e);
                },
            }
            push_text(out, ")");
            proof {
                let ring = coords_at(data, p0 + 4, le, n_pts as nat);
                let next = read_rings(data, start, le, (i + 1) as nat)->Ok_0.0;
                lemma_rings_len(data, start, le, i as nat);
                assert(next == rs.push(ring));
                assert(next.subrange(0, i as int) =~= rs);
                assert(toks_of(out@) =~= base + ring_list(next));
            }
            i = i + 1;
        }
        Ok(())
    }
}

impl<'a> WkbReader<'a> {
    /// The members of a multi-geometry whose members are expected to have
    /// type `kind`: a count, then the members, each a full geometry with its
    /// own byte order.
    fn read_members(&mut self, le: bool, kind: u32, out: &mut Vec<WktPiece>) -> (r: Result<
        (),
        WkbError,
    >)
        requires
            old(self).pos <= old(self).data@.len(),
            4 <= kind <= 6,
        ensures
            final(self).data == old(self).data,
            old(self).pos <= final(self).pos <= final(self).data@.len(),
            match read_body(old(self).data@, old(self).pos as int, le, kind) {
                Ok((g, q)) => r is Ok && final(self).pos == q && toks_of(final(out)@) == toks_of(
                    old(out)@,
                ) + body(g),
                Err(e) => r == Err::<(), WkbError>(e),
            },
        decreases old(self).data@.len() - old(self).pos, 4int,
    {
        let ghost data = self.data@;
        let n = self.read_u32(le)?;
        let ghost start = self.pos as int;
        let ghost base = toks_of(out@);
        let mut i: u32 = 0;
        while i < n
            invariant
                self.data@ == data,
                self.data == old(self).data,
                old(self).pos <= self.pos,
                start == old(self).pos + 4,
                old(self).pos + 4 <= data.len(),
                n == word32(data, old(self).pos as int, le),
                4 <= kind <= 6,
                i <= n,
                start <= self.pos <= data.len(),
                read_list(data, start, i as nat) matches Ok((gs, p)) && p == self.pos
                    && toks_of(out@) == base + members(gs, (kind - 3) as u32),
            decreases n - i,
        {
            let ghost gs = read_list(data, start, i as nat)->Ok_0.0;
            let ghost p0 = self.pos as int;
            if i > 0 {
                push_text(out, ", ");
            }
            match self.read_member(kind - 3, out) {
                Ok(()) => {},
                Err(e) => {
                    proof {
                        lemma_list_err(data, start, (i + 1) as nat, n as nat);
                    }
                    return Err(e);
                },
            }
            proof {
                let g = read_geometry(data, p0)->Ok_0.0;
                let next = read_list(data, start, (i + 1) as nat)->Ok_0.0;
                lemma_list_len(data, start, i as nat);
                assert(next == gs.push(g));
                assert(next.subrange(0, i as int) =~= gs);
                assert(toks_of(out@) =~= base + members(next, (kind - 3) as u32));
            }
            i = i + 1;
        }
        Ok(())
    }

    /// The body of a multipoint.
    fn read_multipoint(&mut self, le: bool, out: &mut Vec<WktPiece>) -> (r: Result<
        (),
        WkbError,
    >)
        requires
            old(self).pos <= old(self).data@.len(),
        ensures
            final(self).data == old(self).data,
            old(self).pos <= final(self).pos <= final(self).data@.len(),
            match read_body(old(self).data@, old(self).pos as int, le, 4) {
                Ok((g, q)) => r is Ok && final(self).pos == q && toks_of(final(out)@) == toks_of(
                    old(out)@,
                ) + body(g),
                Err(e) => r == Err::<(), WkbError>(e),
            },
        decreases old(self).data@.len() - old(self).pos, 5int,
    {
        self.read_members(le, 4, out)
    }

    /// The body of a multilinestring.
    fn read_multilinestring(&mut self, le: bool, out: &mut Vec<WktPiece>) -> (r: Result<
        (),
        WkbError,
    >)
        requires
            old(self).pos <= old(self).data@.len(),
        ensures
            final(self).data == old(self).data,
            old(self).pos <= final(self).pos <= final(self).data@.len(),
            match read_body(old(self).data@, old(self).pos as int, le, 5) {
                Ok((g, q)) => r is Ok && final(self).pos == q && toks_of(final(out)@) == toks_of(
                    old(out)@,
                ) + body(g),
                Err(e) => r == Err::<(), WkbError>(e),
            },
        decreases old(self).data@.len() - old(self).pos, 5int,
    {
        self.read_members(le, 5, out)
    }

    /// The body of a multipolygon.
    fn read_multipolygon(&mut self, le: bool, out: &mut Vec<WktPiece>) -> (r: Result<
        (),
        WkbError,
    >)
        requires
            old(self).pos <= old(self).data@.len(),
        ensures
            final(self).data == old(self).data,
            old(self).pos <= final(self).pos <= final(self).data@.len(),
            match read_body(old(self).data@, old(self).pos as int, le, 6) {
                Ok((g, q)) => r is Ok && final(self).pos == q && toks_of(final(out)@) == toks_of(
                    old(out)@,
                ) + body(g),
                Err(e) => r == Err::<(), WkbError>(e),
            },
        decreases old(self).data@.len() - old(self).pos, 5int,
    {
        self.read_members(le, 6, out)
    }

    /// The body of a geometry collection: a count, then the geometries in
    /// full, separated by `, `.
    fn read_geometry_collection(&mut self, le: bool, out: &mut Vec<WktPiece>) -> (r: Result<
        (),
        WkbError,
    >)
        requires
            old(self).pos <= old(self).data@.len(),
        ensures
            final(self).data == old(self).data,
            old(self).pos <= final(self).pos <= final(self).data@.len(),
            match read_body(old(self).data@, old(self).pos as int, le, 7) {
                Ok((g, q)) => r is Ok && final(self).pos == q && toks_of(final(out)@) == toks_of(
                    old(out)@,
                ) + body(g),
                Err(e) => r == Err::<(), WkbError>(e),
            },
        decreases old(self).data@.len() - old(self).pos, 5int,
    {
        let ghost data = self.data@;
        let n = self.read_u32(le)?;
        let ghost start = self.pos as int;
        let ghost base = toks_of(out@);
        let mut i: u32 = 0;
        while i < n
            invariant
                self.data@ == data,
                self.data == old(self).data,
                old(self).pos <= self.pos,
                start == old(self).pos + 4,
                old(self).pos + 4 <= data.len(),
                n == word32(data, old(self).pos as int, le),
                i <= n,
                start <= self.pos <= data.len(),
                read_list(data, start, i as nat) matches Ok((gs, p)) && p == self.pos
                    && toks_of(out@) == base + collection(gs),
            decreases n - i,
        {
            let ghost gs = read_list(data, start, i as nat)->Ok_0.0;
            let ghost p0 = self.pos as int;
            if i > 0 {
                push_text(out, ", ");
            }
            match self.read_geometry(out) {
                Ok(()) => {},
                Err(e) => {
                    proof {
                        lemma_list_err(data, start, (i + 1) as nat, n as nat);
                    }
                    return Err(e);
                },
            }
            proof {
                let g = read_geometry(data, p0)->Ok_0.0;
                let next = read_list(data, start, (i + 1) as nat)->Ok_0.0;
                lemma_list_len(data, start, i as nat);
                assert(next == gs.push(g));
                assert(next.subrange(0, i as int) =~= gs);
                assert(toks_of(out@) =~= base + collection(next));
            }
            i = i + 1;
        }
        Ok(())
    }

    /// The body of a geometry of type `t`.
    fn read_body(&mut self, le: bool, t: u32, out: &mut Vec<WktPiece>) -> (r: Result<
        (),
        WkbError,
    >)
        requires
            old(self).pos <= old(self).data@.len(),
            1 <= t <= 7,
        ensures
            final(self).data == old(self).data,
            old(self).pos <= final(self).pos <= final(self).data@.len(),
            match read_body(old(self).data@, old(self).pos as int, le, t) {
                Ok((g, q)) => r is Ok && final(self).pos == q && toks_of(final(out)@) == toks_of(
                    old(out)@,
                ) + body(g),
                Err(e) => r == Err::<(), WkbError>(e),
            },
        decreases old(self).data@.len() - old(self).pos, 6int,
    {
        if t == 1 {
            self.read_point(le, out)
        } else if t == 2 {
            self.read_linestring(le, out)
        } else if t == 3 {
            self.read_polygon(le, out)
        } else if t == 4 {
            self.read_multipoint(le, out)
        } else if t == 5 {
            self.read_multilinestring(le, out)
        } else if t == 6 {
            self.read_multipolygon(le, out)
        } else {
            self.read_geometry_collection(le, out)
        }
    }

    /// Reads the byte order and type code of a geometry.
    fn read_header(&mut self) -> (r: Result<(bool, u32), WkbError>)
        requires
            old(self).pos <= old(self).data@.len(),
        ensures
            final(self).data == old(self).data,
            old(self).pos <= final(self).pos <= final(self).data@.len(),
            old(self).pos + 5 <= old(self).data@.len() ==> {
                let le = old(self).data@[old(self).pos as int] == 1;
                &&& r == Ok::<(bool, u32), WkbError>(
                    (le, word32(old(self).data@, old(self).pos + 1, le)),
                )
                &&& final(self).pos == old(self).pos + 5
            },
            old(self).pos + 5 > old(self).data@.len() ==> r == Err::<(bool, u32), WkbError>(
                WkbError::UnexpectedEnd,
            ),
    {
        let byte_order = self.read_u8()?;
        let le = byte_order == 1;
        let geom_type = self.read_u32(le)?;
        Ok((le, geom_type))
    }

    /// A member of a multi-geometry: `(body)` when its type is `kind`,
    /// `(full WKT)` otherwise.
    fn read_member(&mut self, kind: u32, out: &mut Vec<WktPiece>) -> (r: Result<(), WkbError>)
        requires
            old(self).pos <= old(self).data@.len(),
        ensures
            final(self).data == old(self).data,
            old(self).pos <= final(self).pos <= final(self).data@.len(),
            match read_geometry(old(self).data@, old(self).pos as int) {
                Ok((g, q)) => r is Ok && final(self).pos == q && toks_of(final(out)@) == toks_of(
                    old(out)@,
                ) + member(g, kind),
                Err(e) => r == Err::<(), WkbError>(e),
            },
        decreases old(self).data@.len() - old(self).pos, 3int,
    {
        let ghost data = self.data@;
        let ghost p0 = self.pos as int;
        let ghost base = toks_of(out@);
        let (le, t) = self.read_header()?;
        if t < 1 || t > 7 {
            return Err(WkbError::UnsupportedType(t));
        }
        proof {
            lemma_body_type(data, p0 + 5, le, t);
        }
        push_text(out, "(");
        if t == kind {
            self.read_body(le, t, out)?;
        } else {
            push_text(out, header_text(t));
            self.read_body(le, t, out)?;
            push_text(out, ")");
        }
        push_text(out, ")");
        proof {
            let g = read_body(data, p0 + 5, le, t)->Ok_0.0;
            assert(toks_of(out@) =~= base + member(g, kind));
        }
        Ok(())
    }

    /// A full geometry: byte order, type code, then `TYPE (body)`.
    fn read_geometry(&mut self, out: &mut Vec<WktPiece>) -> (r: Result<(), WkbError>)
        requires
            old(self).pos <= old(self).data@.len(),
        ensures
            final(self).data == old(self).data,
            old(self).pos <= final(self).pos <= final(self).data@.len(),
            match read_geometry(old(self).data@, old(self).pos as int) {
                Ok((g, q)) => r is Ok && final(self).pos == q && toks_of(final(out)@) == toks_of(
                    old(out)@,
                ) + tokens(g),
                Err(e) => r == Err::<(), WkbError>(e),
            },
        decreases old(self).data@.len() - old(self).pos, 3int,
    {
        let ghost data = self.data@;
        let ghost p0 = self.pos as int;
        let ghost base = toks_of(out@);
        let (le, geom_type) = self.read_header()?;
        if geom_type < 1 || geom_type > 7 {
            return Err(WkbError::UnsupportedType(geom_type));
        }
        proof {
            lemma_body_type(data, p0 + 5, le, geom_type);
        }
        push_text(out, header_text(geom_type));
        self.read_body(le, geom_type, out)?;
        push_text(out, ")");
        proof {
            let g = read_body(data, p0 + 5, le, geom_type)->Ok_0.0;
            assert(toks_of(out@) =~= base + tokens(g));
        }
        Ok(())
    }
}

/// The message of `e`.
fn error_message(e: WkbError) -> (m: String)
    ensures
        m@ == e.message(),
{
    let mut v: Vec<char> = Vec::new();
    match e {
        WkbError::UnexpectedEnd => {
            push_str(&mut v, "unexpected end of WKB");
        },
        WkbError::UnsupportedType(t) => {
            push_str(&mut v, "unsupported geometry type: ");
            let digits = decimal_chars(t);
            push_chars(&mut v, digits.as_slice());
        },
    }
    string_of_chars(v.as_slice())
}

/// Writes the pieces as text, asking `format_coord` for the text of each coordinate.
pub fn render_wkt<F: Fn(u64) -> String>(pieces: &Vec<WktPiece>, format_coord: &F) -> (s: String)
    requires
        forall|b: u64| call_requires(*format_coord, (b,)),
    ensures
        exists|texts: Seq<String>|
            formatted_by(toks_of(pieces@), texts, *format_coord) && #[trigger] fill(
                toks_of(pieces@),
                texts,
            ) == s@,
{
    let ghost toks = toks_of(pieces@);
    let mut s = String::new();
    let ghost mut texts: Seq<String> = seq![];
    let mut i: usize = 0;
    while i < pieces.len()
        invariant
            toks == toks_of(pieces@),
            forall|b: u64| call_requires(*format_coord, (b,)),
            i <= pieces.len(),
            texts.len() == i,
            forall|k: int|
                0 <= k < i ==> (#[trigger] toks[k] matches Tok::Coord(b) ==> call_ensures(
                    *format_coord,
                    (b,),
                    texts[k],
                )),
            s@ == fill(toks.subrange(0, i as int), texts),
        decreases pieces.len() - i,
    {
        let ghost prev = texts;
        match &pieces[i] {
            WktPiece::Text(t) => {
                s.append(t);
                proof {
                    texts = texts.push(arbitrary());
                }
            },
            WktPiece::Coord(b) => {
                let c = format_coord(*b);
                s.append(c.as_str());
                proof {
                    texts = texts.push(c);
                }
            },
        }
        proof {
            let cur = toks.subrange(0, i + 1);
            assert(cur.subrange(0, i as int) =~= toks.subrange(0, i as int));
            assert(texts.subrange(0, i as int) =~= prev);
        }
        i = i + 1;
    }
    assert(toks.subrange(0, toks.len() as int) =~= toks);
    assert(formatted_by(toks, texts, *format_coord));
    s
}

/// Converts a WKB buffer to WKT, with `format_coord` giving the text of each
/// coordinate from the bit pattern of its double.
///
/// Fails with `unexpected end of WKB` when the buffer ends inside the
/// geometry, and with `unsupported geometry type: N` when a type code is none
/// of 1 to 7. Bytes after the geometry are ignored.
pub fn wkb_to_wkt<F: Fn(u64) -> String>(wkb: &[u8], format_coord: &F) -> (r: Result<String, String>)
    requires
        forall|b: u64| call_requires(*format_coord, (b,)),
    ensures
        match read_wkb(wkb@) {
            Ok((g, _)) => r matches Ok(s) && is_wkt_of(wkb@, s@, *format_coord) && 1 <= word32(
                wkb@,
                1,
                wkb@[0] == 1,
            ) <= 7 && type_code(g) == word32(wkb@, 1, wkb@[0] == 1) && header(
                type_code(g),
            ).is_prefix_of(s@) && ")"@.is_suffix_of(s@),
            Err(e) => r matches Err(m) && m@ == e.message(),
        },
{
    let mut reader = WkbReader::new(wkb);
    let mut pieces: Vec<WktPiece> = Vec::new();
    match reader.read_geometry(&mut pieces) {
        Ok(()) => {
            let ghost g = read_wkb(wkb@)->Ok_0.0;
            assert(toks_of(pieces@) =~= tokens(g));
            let s = render_wkt(&pieces, format_coord);
            proof {
                let texts = choose|texts: Seq<String>|
                    formatted_by(tokens(g), texts, *format_coord) && #[trigger] fill(
                        tokens(g),
                        texts,
                    ) == s@;
                lemma_wkt_framing(g, texts);
                lemma_body_type(wkb@, 5, wkb@[0] == 1, word32(wkb@, 1, wkb@[0] == 1));
            }
            Ok(s)
        },
        Err(e) => Err(error_message(e)),
    }
}

// ---------------------------------------------------------------------------
// Laws
// ---------------------------------------------------------------------------

/// A buffer shorter than a geometry header is refused as ending too early.
pub proof fn lemma_short_buffer_refused(data: Seq<u8>)
    requires
        data.len() < 5,
    ensures
        read_wkb(data) == Err::<(Geometry, int), WkbError>(WkbError::UnexpectedEnd),
{
}

/// A type code other than 1 to 7 is refused, whatever follows it.
pub proof fn lemma_unknown_type_refused(data: Seq<u8>)
    requires
        data.len() >= 5,
        !(1 <= word32(data, 1, data[0] == 1) <= 7),
    ensures
        read_wkb(data) == Err::<(Geometry, int), WkbError>(
            WkbError::UnsupportedType(word32(data, 1, data[0] == 1)),
        ),
{
}

proof fn lemma_fill_append(a: Seq<Tok>, b: Seq<Tok>, texts: Seq<String>)
    requires
        texts.len() == a.len() + b.len(),
    ensures
        fill(a + b, texts) == fill(a, texts.subrange(0, a.len() as int)) + fill(
            b,
            texts.subrange(a.len() as int, texts.len() as int),
        ),
    decreases b.len(),
{
    let rest = texts.subrange(a.len() as int, texts.len() as int);
    if b.len() == 0 {
        assert(a + b =~= a);
        assert(texts.subrange(0, a.len() as int) =~= texts);
    } else {
        let init = b.subrange(0, b.len() - 1);
        let n = (a + b).len() as int;
        let t2 = texts.subrange(0, n - 1);
        assert((a + b).subrange(0, n - 1) =~= a + init);
        lemma_fill_append(a, init, t2);
        assert(t2.subrange(0, a.len() as int) =~= texts.subrange(0, a.len() as int));
        assert(t2.subrange(a.len() as int, t2.len() as int) =~= rest.subrange(0, b.len() - 1));
        assert(rest[b.len() - 1] == texts[n - 1]);
    }
}

/// The WKT of a geometry opens with the keyword of its type and `(`, and closes with `)`.
pub proof fn lemma_wkt_framing(g: Geometry, texts: Seq<String>)
    requires
        texts.len() == tokens(g).len(),
    ensures
        header(type_code(g)).is_prefix_of(fill(tokens(g), texts)),
        ")"@.is_suffix_of(fill(tokens(g), texts)),
{
    let h = text(header(type_code(g)));
    let b = body(g);
    let c = text(")"@);
    assert(tokens(g) == h + b + c);
    lemma_fill_append(h + b, c, texts);
    lemma_fill_append(h, b, texts.subrange(0, (h + b).len() as int));
    reveal_with_fuel(fill, 2);
    let w = fill(tokens(g), texts);
    let fh = fill(h, texts.subrange(0, (h + b).len() as int).subrange(0, 1));
    assert(h.subrange(0, 0) =~= Seq::<Tok>::empty());
    assert(fh =~= header(type_code(g)));
    let fc = fill(c, texts.subrange((h + b).len() as int, texts.len() as int));
    assert(c.subrange(0, 0) =~= Seq::<Tok>::empty());
    assert(fc =~= ")"@);
    assert(w.subrange(0, header(type_code(g)).len() as int) =~= header(type_code(g)));
    assert(w.subrange(w.len() - ")"@.len(), w.len() as int) =~= ")"@);
}

proof fn lemma_fill_congruent(toks: Seq<Tok>, t1: Seq<String>, t2: Seq<String>)
    requires
        t1.len() == toks.len(),
        t2.len() == toks.len(),
        forall|k: int| 0 <= k < toks.len() && #[trigger] toks[k] is Coord ==> t1[k]@ == t2[k]@,
    ensures
        fill(toks, t1) == fill(toks, t2),
    decreases toks.len(),
{
    if toks.len() > 0 {
        let n = toks.len() - 1;
        let init = toks.subrange(0, n);
        assert forall|k: int| 0 <= k < init.len() && #[trigger] init[k] is Coord implies t1.subrange(0, n)[k]@
            == t2.subrange(0, n)[k]@ by {
            assert(init[k] == toks[k]);
        }
        lemma_fill_congruent(init, t1.subrange(0, n), t2.subrange(0, n));
    }
}

/// With a formatter whose text is determined by the bit pattern, a WKB buffer
/// has a single WKT: the converter's result is a function of the bytes.
pub proof fn lemma_wkt_determined<F: Fn(u64) -> String>(
    wkb: Seq<u8>,
    s1: Seq<char>,
    s2: Seq<char>,
    format_coord: F,
)
    requires
        formats_deterministically(format_coord),
        is_wkt_of(wkb, s1, format_coord),
        is_wkt_of(wkb, s2, format_coord),
    ensures
        s1 == s2,
{
    let g = read_wkb(wkb)->Ok_0.0;
    let toks = tokens(g);
    let t1 = choose|texts: Seq<String>|
        formatted_by(toks, texts, format_coord) && #[trigger] fill(toks, texts) == s1;
    let t2 = choose|texts: Seq<String>|
        formatted_by(toks, texts, format_coord) && #[trigger] fill(toks, texts) == s2;
    assert forall|k: int| 0 <= k < toks.len() && #[trigger] toks[k] is Coord implies t1[k]@ == t2[k]@ by {
        let b = toks[k]->Coord_0;
        assert(call_ensures(format_coord, (b,), t1[k]));
        assert(call_ensures(format_coord, (b,), t2[k]));
    }
    lemma_fill_congruent(toks, t1, t2);
}

proof fn lemma_coords_in_append(a: Seq<Tok>, b: Seq<Tok>)
    ensures
        coords_in(a + b) == coords_in(a) + coords_in(b),
    decreases b.len(),
{
    if b.len() == 0 {
        assert(a + b =~= a);
        assert(coords_in(a) + coords_in(b) =~= coords_in(a));
    } else {
        let init = b.subrange(0, b.len() - 1);
        assert((a + b).subrange(0, (a + b).len() - 1) =~= a + init);
        lemma_coords_in_append(a, init);
        assert(coords_in(a + b) =~= coords_in(a) + coords_in(b));
    }
}

proof fn lemma_coords_in_one(t: Tok)
    ensures
        coords_in(seq![t]) == match t {
            Tok::Coord(b) => seq![b],
            Tok::Text(_) => Seq::<u64>::empty(),
        },
{
    let one = seq![t];
    assert(one.subrange(0, 0) =~= Seq::<Tok>::empty());
    assert(coords_in(Seq::<Tok>::empty()) == Seq::<u64>::empty());
    assert(coords_in(one) == coords_in(one.subrange(0, 0)) + match t {
        Tok::Coord(b) => seq![b],
        Tok::Text(_) => Seq::<u64>::empty(),
    });
    assert(coords_in(one) =~= match t {
        Tok::Coord(b) => seq![b],
        Tok::Text(_) => Seq::<u64>::empty(),
    });
}

proof fn lemma_coords_in_text(s: Seq<char>)
    ensures
        coords_in(text(s)) == Seq::<u64>::empty(),
{
    lemma_coords_in_one(Tok::Text(s));
}

proof fn lemma_coords_in_pair(c: (u64, u64))
    ensures
        coords_in(pair_toks(c)) == seq![c.0, c.1],
{
    let t = pair_toks(c);
    assert(t =~= seq![Tok::Coord(c.0)] + text(" "@) + seq![Tok::Coord(c.1)]);
    lemma_coords_in_append(seq![Tok::Coord(c.0)] + text(" "@), seq![Tok::Coord(c.1)]);
    lemma_coords_in_append(seq![Tok::Coord(c.0)], text(" "@));
    lemma_coords_in_text(" "@);
    lemma_coords_in_one(Tok::Coord(c.0));
    lemma_coords_in_one(Tok::Coord(c.1));
    assert(coords_in(pair_toks(c)) =~= seq![c.0, c.1]);
}

proof fn lemma_pair_values_one(c: (u64, u64))
    ensures
        pair_values(seq![c]) == seq![c.0, c.1],
{
    let one = seq![c];
    assert(one.subrange(0, 0) =~= Seq::<(u64, u64)>::empty());
    assert(pair_values(Seq::<(u64, u64)>::empty()) == Seq::<u64>::empty());
    assert(pair_values(one) =~= seq![c.0, c.1]);
}

proof fn lemma_coord_list_values(cs: Seq<(u64, u64)>)
    ensures
        coords_in(coord_list(cs)) == pair_values(cs),
    decreases cs.len(),
{
    if cs.len() == 0 {
    } else if cs.len() == 1 {
        lemma_coords_in_pair(cs[0]);
        assert(cs =~= seq![cs[0]]);
        lemma_pair_values_one(cs[0]);
    } else {
        let init = cs.subrange(0, cs.len() - 1);
        lemma_coord_list_values(init);
        lemma_coords_in_append(coord_list(init) + text(", "@), pair_toks(cs.last()));
        lemma_coords_in_append(coord_list(init), text(", "@));
        lemma_coords_in_text(", "@);
        lemma_coords_in_pair(cs.last());
        assert(coords_in(coord_list(cs)) =~= pair_values(cs));
    }
}

proof fn lemma_ring_values(cs: Seq<(u64, u64)>)
    ensures
        coords_in(ring_toks(cs)) == pair_values(cs),
{
    lemma_coords_in_append(text("("@) + coord_list(cs), text(")"@));
    lemma_coords_in_append(text("("@), coord_list(cs));
    lemma_coords_in_text("("@);
    lemma_coords_in_text(")"@);
    lemma_coord_list_values(cs);
    assert(coords_in(ring_toks(cs)) =~= pair_values(cs));
}

proof fn lemma_ring_list_values(rs: Seq<Seq<(u64, u64)>>)
    ensures
        coords_in(ring_list(rs)) == ring_values(rs),
    decreases rs.len(),
{
    if rs.len() == 0 {
    } else if rs.len() == 1 {
        lemma_ring_values(rs[0]);
        assert(rs.subrange(0, 0) =~= Seq::<Seq<(u64, u64)>>::empty());
        assert(ring_values(Seq::<Seq<(u64, u64)>>::empty()) == Seq::<u64>::empty());
        assert(ring_values(rs) =~= pair_values(rs[0]));
    } else {
        let init = rs.subrange(0, rs.len() - 1);
        lemma_ring_list_values(init);
        lemma_coords_in_append(ring_list(init) + text(", "@), ring_toks(rs.last()));
        lemma_coords_in_append(ring_list(init), text(", "@));
        lemma_coords_in_text(", "@);
        lemma_ring_values(rs.last());
        assert(coords_in(ring_list(rs)) =~= ring_values(rs));
    }
}

proof fn lemma_tokens_values(g: Geometry)
    ensures
        coords_in(tokens(g)) == geometry_values(g),
    decreases g, 2int,
{
    let h = text(header(type_code(g)));
    lemma_coords_in_append(h + body(g), text(")"@));
    lemma_coords_in_append(h, body(g));
    lemma_coords_in_text(header(type_code(g)));
    lemma_coords_in_text(")"@);
    lemma_body_values(g);
    assert(coords_in(tokens(g)) =~= geometry_values(g));
}

proof fn lemma_body_values(g: Geometry)
    ensures
        coords_in(body(g)) == geometry_values(g),
    decreases g, 1int,
{
    match g {
        Geometry::Point(x, y) => {
            lemma_coords_in_pair((x, y));
        },
        Geometry::LineString(cs) => {
            lemma_coord_list_values(cs);
        },
        Geometry::Polygon(rs) => {
            lemma_ring_list_values(rs);
        },
        Geometry::MultiPoint(gs) => {
            lemma_members_values(gs, 1);
        },
        Geometry::MultiLineString(gs) => {
            lemma_members_values(gs, 2);
        },
        Geometry::MultiPolygon(gs) => {
            lemma_members_values(gs, 3);
        },
        Geometry::GeometryCollection(gs) => {
            lemma_collection_values(gs);
        },
    }
}

proof fn lemma_member_values(g: Geometry, k: u32)
    ensures
        coords_in(member(g, k)) == geometry_values(g),
    decreases g, 3int,
{
    let inner = if type_code(g) == k {
        body(g)
    } else {
        tokens(g)
    };
    lemma_coords_in_append(text("("@) + inner, text(")"@));
    lemma_coords_in_append(text("("@), inner);
    lemma_coords_in_text("("@);
    lemma_coords_in_text(")"@);
    if type_code(g) == k {
        lemma_body_values(g);
    } else {
        lemma_tokens_values(g);
    }
    assert(coords_in(member(g, k)) =~= geometry_values(g));
}

proof fn lemma_members_values(gs: Seq<Geometry>, k: u32)
    ensures
        coords_in(members(gs, k)) == list_values(gs),
    decreases gs, 0int,
{
    if gs.len() == 0 {
    } else if gs.len() == 1 {
        lemma_member_values(gs[0], k);
    } else {
        let init = gs.subrange(0, gs.len() - 1);
        lemma_members_values(init, k);
        lemma_coords_in_append(members(init, k) + text(", "@), member(gs.last(), k));
        lemma_coords_in_append(members(init, k), text(", "@));
        lemma_coords_in_text(", "@);
        lemma_member_values(gs.last(), k);
        assert(coords_in(members(gs, k)) =~= list_values(gs));
    }
}

proof fn lemma_collection_values(gs: Seq<Geometry>)
    ensures
        coords_in(collection(gs)) == list_values(gs),
    decreases gs, 0int,
{
    if gs.len() == 0 {
    } else if gs.len() == 1 {
        lemma_tokens_values(gs[0]);
    } else {
        let init = gs.subrange(0, gs.len() - 1);
        lemma_collection_values(init);
        lemma_coords_in_append(collection(init) + text(", "@), tokens(gs.last()));
        lemma_coords_in_append(collection(init), text(", "@));
        lemma_coords_in_text(", "@);
        lemma_tokens_values(gs.last());
        assert(coords_in(collection(gs)) =~= list_values(gs));
    }
}

/// The WKT of a geometry holds every coordinate of the geometry, in the order
/// in which WKB stores them, and no other: each ring of each polygon and each
/// member of each multi-geometry or collection is written, none dropped,
/// repeated or moved.
pub proof fn lemma_wkt_coordinates(g: Geometry)
    ensures
        coords_in(tokens(g)) == geometry_values(g),
{
    lemma_tokens_values(g);
}

/// In a multi-geometry, a member of the expected type is written as its own
/// WKT without the keyword, and a member of another type as its whole WKT;
/// either way within parentheses.
pub proof fn lemma_member_text(g: Geometry, k: u32)
    ensures
        member(g, k) == text("("@) + (if type_code(g) == k {
            tokens(g).subrange(1, tokens(g).len() - 1)
        } else {
            tokens(g)
        }) + text(")"@),
{
    let t = tokens(g);
    assert(t.subrange(1, t.len() - 1) =~= body(g));
}

/// The WKT of a geometry with nothing inside is its keyword with `(` and `)`.
pub proof fn lemma_wkt_empty()
    ensures
        tokens(Geometry::LineString(seq![])) == text("LINESTRING ("@) + text(")"@),
        tokens(Geometry::Polygon(seq![])) == text("POLYGON ("@) + text(")"@),
        tokens(Geometry::MultiPoint(seq![])) == text("MULTIPOINT ("@) + text(")"@),
        tokens(Geometry::MultiLineString(seq![])) == text("MULTILINESTRING ("@) + text(")"@),
        tokens(Geometry::MultiPolygon(seq![])) == text("MULTIPOLYGON ("@) + text(")"@),
        tokens(Geometry::GeometryCollection(seq![])) == text("GEOMETRYCOLLECTION ("@) + text(
            ")"@,
        ),
{
    assert(tokens(Geometry::LineString(seq![])) =~= text("LINESTRING ("@) + text(")"@));
    assert(tokens(Geometry::Polygon(seq![])) =~= text("POLYGON ("@) + text(")"@));
    assert(tokens(Geometry::MultiPoint(seq![])) =~= text("MULTIPOINT ("@) + text(")"@));
    assert(tokens(Geometry::MultiLineString(seq![])) =~= text("MULTILINESTRING ("@) + text(")"@));
    assert(tokens(Geometry::MultiPolygon(seq![])) =~= text("MULTIPOLYGON ("@) + text(")"@));
    assert(tokens(Geometry::GeometryCollection(seq![])) =~= text("GEOMETRYCOLLECTION ("@) + text(
        ")"@,
    ));
}

/// The WKT of a point is its two coordinates, apart by a space, in `POINT (..)`;
/// with one item, a line string, polygon, multi-geometry or collection holds
/// that item's text alone between its keyword and `)`.
pub proof fn lemma_wkt_single(x: u64, y: u64, c: (u64, u64), r: Seq<(u64, u64)>, g: Geometry)
    ensures
        tokens(Geometry::Point(x, y)) == text("POINT ("@) + seq![
            Tok::Coord(x),
            Tok::Text(" "@),
            Tok::Coord(y),
        ] + text(")"@),
        tokens(Geometry::LineString(seq![c])) == text("LINESTRING ("@) + pair_toks(c) + text(
            ")"@,
        ),
        tokens(Geometry::Polygon(seq![r])) == text("POLYGON ("@) + text("("@) + coord_list(r)
            + text(")"@) + text(")"@),
        tokens(Geometry::MultiPoint(seq![g])) == text("MULTIPOINT ("@) + member(g, 1) + text(
            ")"@,
        ),
        tokens(Geometry::MultiLineString(seq![g])) == text("MULTILINESTRING ("@) + member(g, 2)
            + text(")"@),
        tokens(Geometry::MultiPolygon(seq![g])) == text("MULTIPOLYGON ("@) + member(g, 3) + text(
            ")"@,
        ),
        tokens(Geometry::GeometryCollection(seq![g])) == text("GEOMETRYCOLLECTION ("@) + tokens(g)
            + text(")"@),
{
    assert(tokens(Geometry::Point(x, y)) =~= text("POINT ("@) + seq![
        Tok::Coord(x),
        Tok::Text(" "@),
        Tok::Coord(y),
    ] + text(")"@));
    assert(seq![g][0] == g);
    assert(tokens(Geometry::Polygon(seq![r])) =~= text("POLYGON ("@) + text("("@) + coord_list(r)
        + text(")"@) + text(")"@));
}

proof fn lemma_drop_close(h: Seq<Tok>, b: Seq<Tok>)
    ensures
        (h + b + text(")"@)).drop_last() == h + b,
{
    assert((h + b + text(")"@)).drop_last() =~= h + b);
}

/// Adding an item to a non-empty line string, polygon, multi-geometry or
/// collection writes `, ` and the item's text before the closing `)`, and
/// leaves the text before it as it was.
pub proof fn lemma_wkt_append(
    cs: Seq<(u64, u64)>,
    c: (u64, u64),
    rs: Seq<Seq<(u64, u64)>>,
    r: Seq<(u64, u64)>,
    gs: Seq<Geometry>,
    g: Geometry,
)
    ensures
        cs.len() > 0 ==> tokens(Geometry::LineString(cs.push(c))) == tokens(
            Geometry::LineString(cs),
        ).drop_last() + text(", "@) + pair_toks(c) + text(")"@),
        rs.len() > 0 ==> tokens(Geometry::Polygon(rs.push(r))) == tokens(
            Geometry::Polygon(rs),
        ).drop_last() + text(", "@) + text("("@) + coord_list(r) + text(")"@) + text(")"@),
        gs.len() > 0 ==> tokens(Geometry::MultiPoint(gs.push(g))) == tokens(
            Geometry::MultiPoint(gs),
        ).drop_last() + text(", "@) + member(g, 1) + text(")"@),
        gs.len() > 0 ==> tokens(Geometry::MultiLineString(gs.push(g))) == tokens(
            Geometry::MultiLineString(gs),
        ).drop_last() + text(", "@) + member(g, 2) + text(")"@),
        gs.len() > 0 ==> tokens(Geometry::MultiPolygon(gs.push(g))) == tokens(
            Geometry::MultiPolygon(gs),
        ).drop_last() + text(", "@) + member(g, 3) + text(")"@),
        gs.len() > 0 ==> tokens(Geometry::GeometryCollection(gs.push(g))) == tokens(
            Geometry::GeometryCollection(gs),
        ).drop_last() + text(", "@) + tokens(g) + text(")"@),
{
    assert(cs.push(c).subrange(0, cs.len() as int) =~= cs);
    assert(rs.push(r).subrange(0, rs.len() as int) =~= rs);
    assert(gs.push(g).subrange(0, gs.len() as int) =~= gs);
    if cs.len() > 0 {
        lemma_drop_close(text("LINESTRING ("@), coord_list(cs));
        assert(tokens(Geometry::LineString(cs.push(c))) =~= tokens(
            Geometry::LineString(cs),
        ).drop_last() + text(", "@) + pair_toks(c) + text(")"@));
    }
    if rs.len() > 0 {
        lemma_drop_close(text("POLYGON ("@), ring_list(rs));
        assert(tokens(Geometry::Polygon(rs.push(r))) =~= tokens(
            Geometry::Polygon(rs),
        ).drop_last() + text(", "@) + text("("@) + coord_list(r) + text(")"@) + text(")"@));
    }
    if gs.len() > 0 {
        lemma_drop_close(text("MULTIPOINT ("@), members(gs, 1));
        lemma_drop_close(text("MULTILINESTRING ("@), members(gs, 2));
        lemma_drop_close(text("MULTIPOLYGON ("@), members(gs, 3));
        lemma_drop_close(text("GEOMETRYCOLLECTION ("@), collection(gs));
        assert(tokens(Geometry::MultiPoint(gs.push(g))) =~= tokens(
            Geometry::MultiPoint(gs),
        ).drop_last() + text(", "@) + member(g, 1) + text(")"@));
        assert(tokens(Geometry::MultiLineString(gs.push(g))) =~= tokens(
            Geometry::MultiLineString(gs),
        ).drop_last() + text(", "@) + member(g, 2) + text(")"@));
        assert(tokens(Geometry::MultiPolygon(gs.push(g))) =~= tokens(
            Geometry::MultiPolygon(gs),
        ).drop_last() + text(", "@) + member(g, 3) + text(")"@));
        assert(tokens(Geometry::GeometryCollection(gs.push(g))) =~= tokens(
            Geometry::GeometryCollection(gs),
        ).drop_last() + text(", "@) + tokens(g) + text(")"@));
    }
}

} // verus!
