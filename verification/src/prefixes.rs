//! How reading a WKB buffer depends on its bytes: a geometry is read from the
//! bytes that it spans and from no others, so a cut buffer ends too early and
//! bytes after the geometry change nothing.

use vstd::prelude::*;

use crate::wkb::{
    coords_at, read_body, read_coords, read_geometry, read_list, read_rings, read_wkb, word32,
    word64, Geometry, WkbError,
};

verus! {

/// `other` holds the bytes of `data` below `end`, as far as it reaches.
pub open spec fn agree_below(data: Seq<u8>, other: Seq<u8>, end: int) -> bool {
    forall|i: int| 0 <= i < end && i < other.len() ==> other[i] == data[i]
}

/// What a read on `other` gives when the same read on `data` ended at `end`
/// with `value`: the same, if `other` reaches `end`; else the end of input.
pub open spec fn cut_outcome<T>(value: T, end: int, other: Seq<u8>) -> Result<(T, int), WkbError> {
    if end <= other.len() {
        Ok((value, end))
    } else {
        Err(WkbError::UnexpectedEnd)
    }
}

proof fn lemma_word32_agree(d1: Seq<u8>, d2: Seq<u8>, at: int, le: bool)
    requires
        0 <= at,
        at + 4 <= d1.len(),
        at + 4 <= d2.len(),
        forall|i: int| at <= i < at + 4 ==> d2[i] == d1[i],
    ensures
        word32(d2, at, le) == word32(d1, at, le),
{
    assert(d2[at] == d1[at] && d2[at + 1] == d1[at + 1] && d2[at + 2] == d1[at + 2] && d2[at + 3]
        == d1[at + 3]);
}

proof fn lemma_word64_agree(d1: Seq<u8>, d2: Seq<u8>, at: int, le: bool)
    requires
        0 <= at,
        at + 8 <= d1.len(),
        at + 8 <= d2.len(),
        forall|i: int| at <= i < at + 8 ==> d2[i] == d1[i],
    ensures
        word64(d2, at, le) == word64(d1, at, le),
{
    assert(d2[at] == d1[at] && d2[at + 1] == d1[at + 1] && d2[at + 2] == d1[at + 2] && d2[at + 3]
        == d1[at + 3]);
    assert(d2[at + 4] == d1[at + 4] && d2[at + 5] == d1[at + 5] && d2[at + 6] == d1[at + 6] && d2[at
        + 7] == d1[at + 7]);
}

proof fn lemma_coords_prefix(d1: Seq<u8>, d2: Seq<u8>, pos: int, le: bool, n: nat)
    requires
        read_coords(d1, pos, le, n) matches Ok((cs, q)) && agree_below(d1, d2, q),
        0 <= pos,
    ensures
        read_coords(d1, pos, le, n) matches Ok((cs, q)) && pos <= q && read_coords(d2, pos, le, n)
            == cut_outcome(cs, q, d2),
{
    let q = pos + 16 * n;
    if q <= d2.len() {
        assert forall|i: int| 0 <= i < n implies #[trigger] coords_at(d2, pos, le, n)[i]
            == coords_at(d1, pos, le, n)[i] by {
            assert(pos + 16 * i + 16 <= q) by (nonlinear_arith)
                requires
                    0 <= i < n,
                    q == pos + 16 * n,
            ;
            lemma_word64_agree(d1, d2, pos + 16 * i, le);
            lemma_word64_agree(d1, d2, pos + 16 * i + 8, le);
        }
        assert(coords_at(d2, pos, le, n) =~= coords_at(d1, pos, le, n));
    }
}

proof fn lemma_rings_prefix(d1: Seq<u8>, d2: Seq<u8>, pos: int, le: bool, n: nat)
    requires
        read_rings(d1, pos, le, n) matches Ok((rs, q)) && agree_below(d1, d2, q),
        0 <= pos <= d2.len(),
    ensures
        read_rings(d1, pos, le, n) matches Ok((rs, q)) && pos <= q && read_rings(d2, pos, le, n)
            == cut_outcome(rs, q, d2),
    decreases n,
{
    if n > 0 {
        let m = (n - 1) as nat;
        let (rings, p) = read_rings(d1, pos, le, m)->Ok_0;
        let c = word32(d1, p, le) as nat;
        let (ring, q) = read_coords(d1, p + 4, le, c)->Ok_0;
        assert(agree_below(d1, d2, p));
        lemma_rings_prefix(d1, d2, pos, le, m);
        if p + 4 <= d2.len() {
            lemma_word32_agree(d1, d2, p, le);
            lemma_coords_prefix(d1, d2, p + 4, le, c);
        }
    }
}

proof fn lemma_geometry_prefix(d1: Seq<u8>, d2: Seq<u8>, pos: int)
    requires
        read_geometry(d1, pos) matches Ok((g, q)) && agree_below(d1, d2, q),
    ensures
        read_geometry(d1, pos) matches Ok((g, q)) && 0 <= pos && pos + 5 <= q && read_geometry(
            d2,
            pos,
        ) == cut_outcome(g, q, d2),
    decreases d1.len() - pos, 1int, 0int,
{
    let le = d1[pos] == 1;
    let t = word32(d1, pos + 1, le);
    lemma_body_prefix(d1, d2, pos + 5, le, t);
    if pos + 5 <= d2.len() {
        assert(d2[pos] == d1[pos]);
        lemma_word32_agree(d1, d2, pos + 1, le);
    }
}

proof fn lemma_body_prefix(d1: Seq<u8>, d2: Seq<u8>, pos: int, le: bool, t: u32)
    requires
        read_body(d1, pos, le, t) matches Ok((g, q)) && agree_below(d1, d2, q),
        1 <= t <= 7,
    ensures
        read_body(d1, pos, le, t) matches Ok((g, q)) && 0 <= pos <= q && read_body(d2, pos, le, t)
            == cut_outcome(g, q, d2),
    decreases d1.len() - pos, 0int, 0int,
{
    if t == 1 {
        if pos + 16 <= d2.len() {
            lemma_word64_agree(d1, d2, pos, le);
            lemma_word64_agree(d1, d2, pos + 8, le);
        }
    } else {
        let n = word32(d1, pos, le) as nat;
        let other = if pos + 4 <= d2.len() {
            d2
        } else {
            d1
        };
        if t == 2 {
            lemma_coords_prefix(d1, other, pos + 4, le, n);
        } else if t == 3 {
            lemma_rings_prefix(d1, other, pos + 4, le, n);
        } else {
            lemma_list_prefix(d1, other, pos + 4, n);
        }
        if pos + 4 <= d2.len() {
            lemma_word32_agree(d1, d2, pos, le);
        }
    }
}

proof fn lemma_list_prefix(d1: Seq<u8>, d2: Seq<u8>, pos: int, n: nat)
    requires
        read_list(d1, pos, n) matches Ok((gs, q)) && agree_below(d1, d2, q),
        0 <= pos <= d1.len(),
        pos <= d2.len(),
    ensures
        read_list(d1, pos, n) matches Ok((gs, q)) && pos <= q && read_list(d2, pos, n)
            == cut_outcome(gs, q, d2),
    decreases d1.len() - pos, 2int, n,
{
    if n > 0 {
        let m = (n - 1) as nat;
        let (gs, p) = read_list(d1, pos, m)->Ok_0;
        lemma_geometry_prefix(d1, d2, p);
        assert(agree_below(d1, d2, p));
        lemma_list_prefix(d1, d2, pos, m);
    }
}

/// Every proper prefix of the bytes that a WKB geometry spans is refused as
/// ending too early: in particular, every cut of a buffer that holds exactly
/// one geometry.
pub proof fn lemma_truncated_wkb_refused(data: Seq<u8>, k: int)
    requires
        read_wkb(data) matches Ok((g, n)) && 0 <= k < n,
    ensures
        read_wkb(data.subrange(0, k)) == Err::<(Geometry, int), WkbError>(WkbError::UnexpectedEnd),
{
    lemma_geometry_prefix(data, data, 0);
    let q = read_wkb(data)->Ok_0.1;
    assert(agree_below(data, data.subrange(0, k), q));
    lemma_geometry_prefix(data, data.subrange(0, k), 0);
}

/// Bytes after a WKB geometry do not change what is read.
pub proof fn lemma_trailing_bytes_ignored(data: Seq<u8>, extra: Seq<u8>)
    requires
        read_wkb(data) is Ok,
    ensures
        read_wkb(data + extra) == read_wkb(data),
{
    lemma_geometry_prefix(data, data, 0);
    let q = read_wkb(data)->Ok_0.1;
    assert(agree_below(data, data + extra, q));
    lemma_geometry_prefix(data, data + extra, 0);
}

} // verus!
