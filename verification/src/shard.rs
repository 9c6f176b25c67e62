//! The repository metadata shard format.
//!
//! A shard document is a little-endian, length-prefixed binary record
//! list: a `u32` record count, then per record the package id, name,
//! version, checksum (each a `u32`-length-prefixed byte string), the
//! size as two `u32` halves, the binary name, and the origin as a tag
//! byte followed by its strings. The parser accepts exactly the
//! canonical encodings: whatever it returns, re-encoding it yields the
//! input bytes, so a stored shard is byte-identical to the fetched
//! document.

use vstd::prelude::*;

use crate::bytes::copy_vec;
use crate::db::{rec_views, Origin, OriginView, PackageRecord, RecView};
use crate::errors::SoarError;

verus! {

/// Little-endian bytes of a `u32`.
pub open spec fn le32(n: u32) -> Seq<u8> {
    seq![
        (n & 0xff) as u8,
        ((n >> 8) & 0xff) as u8,
        ((n >> 16) & 0xff) as u8,
        ((n >> 24) & 0xff) as u8,
    ]
}

/// Little-endian bytes of a `u64`, as two `u32` halves.
pub open spec fn le64(n: u64) -> Seq<u8> {
    le32((n & 0xffffffff) as u32) + le32((n >> 32) as u32)
}

/// A length-prefixed byte string.
pub open spec fn enc_str(s: Seq<u8>) -> Seq<u8> {
    le32(s.len() as u32) + s
}

/// An origin: a tag byte, then its strings.
pub open spec fn enc_origin(o: OriginView) -> Seq<u8> {
    match o {
        OriginView::Direct(u) => seq![0u8] + enc_str(u),
        OriginView::ReleaseHost(a, b) => seq![1u8] + enc_str(a) + enc_str(b),
        OriginView::Registry(r) => seq![2u8] + enc_str(r),
    }
}

/// One record's encoding. The repository name is not part of the
/// document; it is implied by which repository was fetched.
pub open spec fn enc_rec(r: RecView) -> Seq<u8> {
    enc_str(r.id) + enc_str(r.name) + enc_str(r.version) + enc_str(r.checksum) + le64(r.size)
        + enc_str(r.bin_name) + enc_origin(r.origin)
}

/// The concatenated record encodings.
pub open spec fn enc_recs(rs: Seq<RecView>) -> Seq<u8>
    decreases rs.len(),
{
    if rs.len() == 0 {
        Seq::<u8>::empty()
    } else {
        enc_recs(rs.drop_last()) + enc_rec(rs.last())
    }
}

/// The whole document.
pub open spec fn encode_shard(rs: Seq<RecView>) -> Seq<u8> {
    le32(rs.len() as u32) + enc_recs(rs)
}

/// A string fits its `u32` length prefix.
pub open spec fn str_fits(s: Seq<u8>) -> bool {
    s.len() < 0x1_0000_0000
}

/// Every field of the record fits its prefix.
pub open spec fn rec_fits(r: RecView) -> bool {
    &&& str_fits(r.id)
    &&& str_fits(r.name)
    &&& str_fits(r.version)
    &&& str_fits(r.checksum)
    &&& str_fits(r.bin_name)
    &&& match r.origin {
        OriginView::Direct(u) => str_fits(u),
        OriginView::ReleaseHost(a, b) => str_fits(a) && str_fits(b),
        OriginView::Registry(x) => str_fits(x),
    }
}

/// What a validated shard promises: ids unique, every record under the
/// fetched repository's name, every field within the format's bounds.
pub open spec fn shard_recs_ok(rs: Seq<RecView>, repo: Seq<u8>) -> bool {
    &&& rs.len() < 0x1_0000_0000
    &&& forall|i: int, j: int| 0 <= i < j < rs.len() ==> rs[i].id != rs[j].id
    &&& forall|i: int| 0 <= i < rs.len() ==> (#[trigger] rs[i]).repo == repo
    &&& forall|i: int| 0 <= i < rs.len() ==> rec_fits(#[trigger] rs[i])
}

/// Little-endian value of four bytes.
pub open spec fn le_val32(s: Seq<u8>) -> u32
    recommends
        s.len() == 4,
{
    s[0] as u32 | (s[1] as u32) << 8 | (s[2] as u32) << 16 | (s[3] as u32) << 24
}

/// Spec-level read of a `u32` at `pos`.
pub open spec fn dec_u32(b: Seq<u8>, pos: int) -> Option<(u32, int)> {
    if 0 <= pos && pos + 4 <= b.len() {
        Some((le_val32(b.subrange(pos, pos + 4)), pos + 4))
    } else {
        None
    }
}

/// Spec-level read of one byte at `pos`.
pub open spec fn dec_byte(b: Seq<u8>, pos: int) -> Option<(u8, int)> {
    if 0 <= pos && pos + 1 <= b.len() {
        Some((b[pos], pos + 1))
    } else {
        None
    }
}

/// Spec-level read of a length-prefixed byte string at `pos`.
pub open spec fn dec_str(b: Seq<u8>, pos: int) -> Option<(Seq<u8>, int)> {
    match dec_u32(b, pos) {
        None => None,
        Some((n, p1)) => if p1 + n <= b.len() {
            Some((b.subrange(p1, p1 + n as int), p1 + n as int))
        } else {
            None
        },
    }
}

/// Spec-level read of an origin at `pos`.
pub open spec fn dec_origin(b: Seq<u8>, pos: int) -> Option<(OriginView, int)> {
    match dec_byte(b, pos) {
        None => None,
        Some((tag, p)) => if tag == 0 {
            match dec_str(b, p) {
                None => None,
                Some((u, p2)) => Some((OriginView::Direct(u), p2)),
            }
        } else if tag == 1 {
            match dec_str(b, p) {
                None => None,
                Some((a, p2)) => match dec_str(b, p2) {
                    None => None,
                    Some((o, p3)) => Some((OriginView::ReleaseHost(a, o), p3)),
                },
            }
        } else if tag == 2 {
            match dec_str(b, p) {
                None => None,
                Some((x, p2)) => Some((OriginView::Registry(x), p2)),
            }
        } else {
            None
        },
    }
}

/// Spec-level read of one record at `pos`, under the repository `repo`.
pub open spec fn dec_rec(b: Seq<u8>, pos: int, repo: Seq<u8>) -> Option<(RecView, int)> {
    match dec_str(b, pos) {
        None => None,
        Some((id, p1)) => match dec_str(b, p1) {
            None => None,
            Some((name, p2)) => match dec_str(b, p2) {
                None => None,
                Some((version, p3)) => match dec_str(b, p3) {
                    None => None,
                    Some((checksum, p4)) => match dec_u32(b, p4) {
                        None => None,
                        Some((lo, p5)) => match dec_u32(b, p5) {
                            None => None,
                            Some((hi, p6)) => match dec_str(b, p6) {
                                None => None,
                                Some((bin, p7)) => match dec_origin(b, p7) {
                                    None => None,
                                    Some((og, p8)) => Some(
                                        (
                                            RecView {
                                                repo: repo,
                                                id: id,
                                                name: name,
                                                version: version,
                                                checksum: checksum,
                                                size: lo as u64 | (hi as u64) << 32,
                                                bin_name: bin,
                                                origin: og,
                                            },
                                            p8,
                                        ),
                                    ),
                                },
                            },
                        },
                    },
                },
            },
        },
    }
}

/// Spec-level read of `n` records from `pos`.
pub open spec fn dec_recs(b: Seq<u8>, pos: int, n: nat, repo: Seq<u8>) -> Option<(
    Seq<RecView>,
    int,
)>
    decreases n,
{
    if n == 0 {
        Some((Seq::<RecView>::empty(), pos))
    } else {
        match dec_rec(b, pos, repo) {
            None => None,
            Some((r, p)) => match dec_recs(b, p, (n - 1) as nat, repo) {
                None => None,
                Some((rest, pe)) => Some((seq![r] + rest, pe)),
            },
        }
    }
}

/// Record ids are pairwise distinct.
pub open spec fn unique_ids(rv: Seq<RecView>) -> bool {
    forall|i: int, j: int| 0 <= i < j < rv.len() ==> rv[i].id != rv[j].id
}

/// The meaning of a shard document: the record count, then exactly that
/// many records, nothing after them, and unique ids. `None` for every
/// other byte string.
pub open spec fn dec_shard(b: Seq<u8>, repo: Seq<u8>) -> Option<Seq<RecView>> {
    match dec_u32(b, 0) {
        None => None,
        Some((n, p)) => match dec_recs(b, p, n as nat, repo) {
            None => None,
            Some((rv, pe)) => if pe == b.len() && unique_ids(rv) {
                Some(rv)
            } else {
                None
            },
        },
    }
}

/// Reading back the little-endian bytes of a `u32` yields the value.
proof fn lemma_le_val_roundtrip(n: u32)
    ensures
        le_val32(le32(n)) == n,
{
    assert(((n & 0xff) as u8) as u32 | ((((n >> 8) & 0xff) as u8) as u32) << 8 | ((((n
        >> 16) & 0xff) as u8) as u32) << 16 | ((((n >> 24) & 0xff) as u8) as u32) << 24
        == n) by (bit_vector);
}

/// A `u64` equals its two recombined `u32` halves.
proof fn lemma_le64_halves(n: u64)
    ensures
        ((n & 0xffffffff) as u32) as u64 | (((n >> 32) as u32) as u64) << 32 == n,
{
    assert(((n & 0xffffffff) as u32) as u64 | (((n >> 32) as u32) as u64) << 32 == n)
        by (bit_vector);
}

/// A `u32` is its little-endian bytes, and back.
proof fn lemma_le32_roundtrip(b0: u8, b1: u8, b2: u8, b3: u8)
    ensures
        ({
            let n = b0 as u32 | (b1 as u32) << 8 | (b2 as u32) << 16 | (b3 as u32) << 24;
            (n & 0xff) as u8 == b0 && ((n >> 8) & 0xff) as u8 == b1 && ((n >> 16) & 0xff) as u8
                == b2 && ((n >> 24) & 0xff) as u8 == b3
        }),
{
    let n = b0 as u32 | (b1 as u32) << 8 | (b2 as u32) << 16 | (b3 as u32) << 24;
    assert((n & 0xff) as u8 == b0 && ((n >> 8) & 0xff) as u8 == b1 && ((n >> 16)
        & 0xff) as u8 == b2 && ((n >> 24) & 0xff) as u8 == b3) by (bit_vector)
        requires
            n == b0 as u32 | (b1 as u32) << 8 | (b2 as u32) << 16 | (b3 as u32) << 24,
    ;
}

/// A `u64` is its two `u32` halves, and back.
proof fn lemma_le64_roundtrip(lo: u32, hi: u32)
    ensures
        ({
            let n = lo as u64 | (hi as u64) << 32;
            (n & 0xffffffff) as u32 == lo && (n >> 32) as u32 == hi
        }),
{
    let n = lo as u64 | (hi as u64) << 32;
    assert((n & 0xffffffff) as u32 == lo && (n >> 32) as u32 == hi) by (bit_vector)
        requires
            n == lo as u64 | (hi as u64) << 32,
    ;
}

/// Where a string's encoding lies in the bytes, the decoder reads
/// exactly that string.
proof fn lemma_dec_str_of_enc(b: Seq<u8>, pos: int, s: Seq<u8>)
    requires
        str_fits(s),
        0 <= pos,
        pos + 4 + s.len() <= b.len(),
        b.subrange(pos, pos + 4 + s.len() as int) == enc_str(s),
    ensures
        dec_str(b, pos) == Some((s, pos + 4 + s.len() as int)),
{
    let e = enc_str(s);
    assert(b.subrange(pos, pos + 4) =~= e.subrange(0, 4));
    assert(e.subrange(0, 4) =~= le32(s.len() as u32));
    lemma_le_val_roundtrip(s.len() as u32);
    assert(dec_u32(b, pos) == Some((s.len() as u32, pos + 4)));
    assert(b.subrange(pos + 4, pos + 4 + s.len() as int) =~= e.subrange(
        4,
        4 + s.len() as int,
    ));
    assert(e.subrange(4, 4 + s.len() as int) =~= s);
}

/// Where an origin's encoding lies in the bytes, the decoder reads
/// exactly that origin.
proof fn lemma_dec_origin_of_enc(b: Seq<u8>, pos: int, o: OriginView)
    requires
        0 <= pos,
        pos + enc_origin(o).len() <= b.len(),
        b.subrange(pos, pos + enc_origin(o).len() as int) == enc_origin(o),
        match o {
            OriginView::Direct(u) => str_fits(u),
            OriginView::ReleaseHost(a, p) => str_fits(a) && str_fits(p),
            OriginView::Registry(x) => str_fits(x),
        },
    ensures
        dec_origin(b, pos) == Some((o, pos + enc_origin(o).len() as int)),
{
    let e = enc_origin(o);
    assert(b[pos] == e[0]);
    match o {
        OriginView::Direct(u) => {
            assert(e[0] == 0);
            assert(b.subrange(pos + 1, pos + 1 + 4 + u.len() as int) =~= e.subrange(
                1,
                1 + 4 + u.len() as int,
            ));
            assert(e.subrange(1, 1 + 4 + u.len() as int) =~= enc_str(u));
            lemma_dec_str_of_enc(b, pos + 1, u);
        },
        OriginView::ReleaseHost(a, p) => {
            assert(e[0] == 1);
            let la = 4 + a.len() as int;
            let lp = 4 + p.len() as int;
            assert(b.subrange(pos + 1, pos + 1 + la) =~= e.subrange(1, 1 + la));
            assert(e.subrange(1, 1 + la) =~= enc_str(a));
            lemma_dec_str_of_enc(b, pos + 1, a);
            assert(b.subrange(pos + 1 + la, pos + 1 + la + lp) =~= e.subrange(
                1 + la,
                1 + la + lp,
            ));
            assert(e.subrange(1 + la, 1 + la + lp) =~= enc_str(p));
            lemma_dec_str_of_enc(b, pos + 1 + la, p);
        },
        OriginView::Registry(x) => {
            assert(e[0] == 2);
            assert(b.subrange(pos + 1, pos + 1 + 4 + x.len() as int) =~= e.subrange(
                1,
                1 + 4 + x.len() as int,
            ));
            assert(e.subrange(1, 1 + 4 + x.len() as int) =~= enc_str(x));
            lemma_dec_str_of_enc(b, pos + 1, x);
        },
    }
}

/// The two halves of a concatenation are its two subranges.
proof fn lemma_concat_slice(x: Seq<u8>, y: Seq<u8>)
    ensures
        (x + y).subrange(0, x.len() as int) == x,
        (x + y).subrange(x.len() as int, (x + y).len() as int) == y,
{
    assert((x + y).subrange(0, x.len() as int) =~= x);
    assert((x + y).subrange(x.len() as int, (x + y).len() as int) =~= y);
}

/// A slice of an embedded sequence is the same slice of its host.
proof fn lemma_slice_through(b: Seq<u8>, pos: int, e: Seq<u8>, a: int, c: int)
    requires
        0 <= pos,
        pos + e.len() <= b.len(),
        b.subrange(pos, pos + e.len() as int) == e,
        0 <= a <= c <= e.len(),
    ensures
        b.subrange(pos + a, pos + c) == e.subrange(a, c),
{
    assert forall|t: int| 0 <= t < c - a implies b.subrange(pos + a, pos + c)[t]
        == e.subrange(a, c)[t] by {
        assert(b.subrange(pos, pos + e.len() as int)[a + t] == e[a + t]);
    }
    assert(b.subrange(pos + a, pos + c) =~= e.subrange(a, c));
}

/// Where a record's encoding lies in the bytes, the decoder reads
/// exactly that record.
#[verifier::rlimit(100)]
#[verifier::spinoff_prover]
proof fn lemma_dec_rec_of_enc(b: Seq<u8>, pos: int, r: RecView, repo: Seq<u8>)
    requires
        rec_fits(r),
        r.repo == repo,
        0 <= pos,
        pos + enc_rec(r).len() <= b.len(),
        b.subrange(pos, pos + enc_rec(r).len() as int) == enc_rec(r),
    ensures
        dec_rec(b, pos, repo) == Some((r, pos + enc_rec(r).len() as int)),
{
    let e = enc_rec(r);
    let eo = enc_origin(r.origin);
    let p_a = enc_str(r.id);
    let p_b = p_a + enc_str(r.name);
    let p_c = p_b + enc_str(r.version);
    let p_d = p_c + enc_str(r.checksum);
    let p_e = p_d + le64(r.size);
    let p_f = p_e + enc_str(r.bin_name);
    assert(e == p_f + eo);
    lemma_concat_slice(p_f, eo);
    lemma_concat_slice(p_e, enc_str(r.bin_name));
    lemma_concat_slice(p_d, le64(r.size));
    lemma_concat_slice(p_c, enc_str(r.checksum));
    lemma_concat_slice(p_b, enc_str(r.version));
    lemma_concat_slice(p_a, enc_str(r.name));
    let la = p_a.len() as int;
    let lb = p_b.len() as int;
    let lc = p_c.len() as int;
    let ld = p_d.len() as int;
    let le_ = p_e.len() as int;
    let lf = p_f.len() as int;
    let lee = e.len() as int;
    lemma_slice_through(e, 0, p_f, 0, lf);
    lemma_slice_through(p_f, 0, p_e, 0, le_);
    lemma_slice_through(p_e, 0, p_d, 0, ld);
    lemma_slice_through(p_d, 0, p_c, 0, lc);
    lemma_slice_through(p_c, 0, p_b, 0, lb);
    assert(e.subrange(0, 0 + e.len() as int) =~= e);
    // pieces of `e`, peeled from the back of each prefix
    lemma_slice_through(e, 0, p_f, le_, lf);
    assert(e.subrange(le_, lf) == enc_str(r.bin_name));
    lemma_slice_through(p_f, 0, p_e, ld, le_);
    lemma_slice_through(e, 0, p_f, ld, le_);
    assert(e.subrange(ld, le_) == le64(r.size));
    lemma_slice_through(p_e, 0, p_d, lc, ld);
    lemma_slice_through(p_f, 0, p_e, lc, ld);
    lemma_slice_through(e, 0, p_f, lc, ld);
    assert(e.subrange(lc, ld) == enc_str(r.checksum));
    lemma_slice_through(p_d, 0, p_c, lb, lc);
    lemma_slice_through(p_e, 0, p_d, lb, lc);
    lemma_slice_through(p_f, 0, p_e, lb, lc);
    lemma_slice_through(e, 0, p_f, lb, lc);
    assert(e.subrange(lb, lc) == enc_str(r.version));
    lemma_slice_through(p_c, 0, p_b, la, lb);
    lemma_slice_through(p_d, 0, p_c, la, lb);
    lemma_slice_through(p_e, 0, p_d, la, lb);
    lemma_slice_through(p_f, 0, p_e, la, lb);
    lemma_slice_through(e, 0, p_f, la, lb);
    assert(e.subrange(la, lb) == enc_str(r.name));
    lemma_slice_through(p_b, 0, p_a, 0, la);
    lemma_slice_through(e, 0, p_f, 0, la);
    assert(e.subrange(0, la) =~= p_a);
    // project each piece out of `b`
    lemma_slice_through(b, pos, e, 0, la);
    lemma_dec_str_of_enc(b, pos, r.id);
    lemma_slice_through(b, pos, e, la, lb);
    lemma_dec_str_of_enc(b, pos + la, r.name);
    lemma_slice_through(b, pos, e, lb, lc);
    lemma_dec_str_of_enc(b, pos + lb, r.version);
    lemma_slice_through(b, pos, e, lc, ld);
    lemma_dec_str_of_enc(b, pos + lc, r.checksum);
    lemma_slice_through(b, pos, e, ld, le_);
    lemma_concat_slice(le32((r.size & 0xffffffff) as u32), le32((r.size >> 32) as u32));
    lemma_slice_through(b, pos + ld, le64(r.size), 0, 4);
    lemma_slice_through(b, pos + ld, le64(r.size), 4, 8);
    lemma_le_val_roundtrip((r.size & 0xffffffff) as u32);
    lemma_le_val_roundtrip((r.size >> 32) as u32);
    lemma_le64_halves(r.size);
    assert(dec_u32(b, pos + ld) == Some(((r.size & 0xffffffff) as u32, pos + ld + 4)));
    assert(dec_u32(b, pos + ld + 4) == Some(((r.size >> 32) as u32, pos + le_)));
    lemma_slice_through(b, pos, e, le_, lf);
    lemma_dec_str_of_enc(b, pos + le_, r.bin_name);
    lemma_slice_through(b, pos, e, lf, lee);
    lemma_dec_origin_of_enc(b, pos + lf, r.origin);
    assert(dec_rec(b, pos, repo) == Some((r, pos + lee)));
}

/// The record encodings can also be peeled from the front.
proof fn lemma_enc_recs_first(rv: Seq<RecView>)
    requires
        rv.len() > 0,
    ensures
        enc_recs(rv) == enc_rec(rv[0]) + enc_recs(rv.drop_first()),
    decreases rv.len(),
{
    if rv.len() == 1 {
        assert(rv.drop_last() =~= Seq::<RecView>::empty());
        assert(rv.drop_first() =~= Seq::<RecView>::empty());
        assert(rv.last() == rv[0]);
        assert(enc_recs(rv) =~= enc_rec(rv[0]) + enc_recs(rv.drop_first()));
    } else {
        let dl = rv.drop_last();
        lemma_enc_recs_first(dl);
        assert(dl[0] == rv[0]);
        assert(rv.drop_first().drop_last() =~= dl.drop_first());
        assert(rv.drop_first().last() == rv.last());
        assert(rv.drop_first().len() > 0);
        assert(enc_recs(rv.drop_first()) == enc_recs(dl.drop_first()) + enc_rec(
            rv.last(),
        ));
        assert(enc_recs(rv) =~= enc_rec(rv[0]) + enc_recs(rv.drop_first()));
    }
}

/// Where a record list's encoding lies in the bytes, the decoder reads
/// exactly those records.
#[verifier::rlimit(100)]
#[verifier::spinoff_prover]
proof fn lemma_dec_recs_of_enc(b: Seq<u8>, pos: int, rv: Seq<RecView>, repo: Seq<u8>)
    requires
        forall|i: int| 0 <= i < rv.len() ==> rec_fits(#[trigger] rv[i]),
        forall|i: int| 0 <= i < rv.len() ==> (#[trigger] rv[i]).repo == repo,
        0 <= pos,
        pos + enc_recs(rv).len() <= b.len(),
        b.subrange(pos, pos + enc_recs(rv).len() as int) == enc_recs(rv),
    ensures
        dec_recs(b, pos, rv.len(), repo) == Some((rv, pos + enc_recs(rv).len() as int)),
    decreases rv.len(),
{
    if rv.len() == 0 {
        assert(dec_recs(b, pos, 0, repo) == Some((Seq::<RecView>::empty(), pos)));
        assert(rv =~= Seq::<RecView>::empty());
    } else {
        lemma_enc_recs_first(rv);
        let head = enc_rec(rv[0]);
        let tail = rv.drop_first();
        let p1 = pos + head.len() as int;
        lemma_concat_slice(head, enc_recs(tail));
        lemma_slice_through(b, pos, enc_recs(rv), 0, head.len() as int);
        lemma_slice_through(
            b,
            pos,
            enc_recs(rv),
            head.len() as int,
            enc_recs(rv).len() as int,
        );
        assert(b.subrange(pos, p1) == head);
        lemma_dec_rec_of_enc(b, pos, rv[0], repo);
        assert(forall|i: int| 0 <= i < tail.len() ==> tail[i] == rv[i + 1]);
        assert(b.subrange(p1, p1 + enc_recs(tail).len() as int) == enc_recs(tail));
        lemma_dec_recs_of_enc(b, p1, tail, repo);
        assert(seq![rv[0]] + tail =~= rv);
        assert(dec_recs(b, pos, rv.len(), repo) == Some(
            (rv, pos + enc_recs(rv).len() as int),
        ));
    }
}

/// A document the decoder rejects is not the canonical encoding of any
/// valid record list; the contrapositive of completeness.
pub proof fn lemma_undecodable_not_canonical(b: Seq<u8>, repo: Seq<u8>)
    requires
        dec_shard(b, repo) is None,
    ensures
        !exists|rv: Seq<RecView>|
            b == #[trigger] encode_shard(rv) && shard_recs_ok(rv, repo),
{
    if exists|rv: Seq<RecView>| b == #[trigger] encode_shard(rv) && shard_recs_ok(
        rv,
        repo,
    ) {
        let rv = choose|rv: Seq<RecView>|
            b == #[trigger] encode_shard(rv) && shard_recs_ok(rv, repo);
        lemma_dec_shard_complete(rv, repo);
    }
}

/// Completeness of the decoder: every canonical encoding of a valid
/// record list is accepted and decodes to exactly that list. With the
/// parser's contract this says a parse (and hence a sync) fails only on
/// documents that are not the canonical encoding of any valid list.
pub proof fn lemma_dec_shard_complete(rv: Seq<RecView>, repo: Seq<u8>)
    requires
        shard_recs_ok(rv, repo),
    ensures
        dec_shard(encode_shard(rv), repo) == Some(rv),
{
    let b = encode_shard(rv);
    assert(b.subrange(0, 4) =~= le32(rv.len() as u32));
    lemma_le_val_roundtrip(rv.len() as u32);
    assert(dec_u32(b, 0) == Some((rv.len() as u32, 4int)));
    assert(b.subrange(4, 4 + enc_recs(rv).len() as int) =~= enc_recs(rv));
    lemma_dec_recs_of_enc(b, 4, rv, repo);
    assert(unique_ids(rv));
    assert(dec_shard(b, repo) == Some(rv));
}

/// Appends the little-endian bytes of `n`.
fn push_le32(out: &mut Vec<u8>, n: u32)
    ensures
        final(out)@ == old(out)@ + le32(n),
{
    let ghost before = out@;
    out.push((n & 0xff) as u8);
    out.push(((n >> 8) & 0xff) as u8);
    out.push(((n >> 16) & 0xff) as u8);
    out.push(((n >> 24) & 0xff) as u8);
    proof {
        assert(out@ =~= before + le32(n));
    }
}

/// Appends a length-prefixed byte string.
fn push_str(out: &mut Vec<u8>, s: &Vec<u8>)
    requires
        str_fits(s@),
    ensures
        final(out)@ == old(out)@ + enc_str(s@),
{
    let ghost before = out@;
    let n: u32 = s.len() as u32;
    push_le32(out, n);
    let ghost mid = out@;
    let mut i: usize = 0;
    while i < s.len()
        invariant
            i <= s@.len(),
            out@ == mid + s@.take(i as int),
        decreases s@.len() - i,
    {
        let ghost cur = out@;
        out.push(s[i]);
        proof {
            assert(out@ =~= mid + s@.take(i + 1));
        }
        i += 1;
    }
    proof {
        assert(s@.take(s@.len() as int) =~= s@);
        assert(out@ =~= before + enc_str(s@));
    }
}

/// Encodes a record list as a shard document.
pub fn encode_shard_bytes(recs: &Vec<PackageRecord>) -> (r: Vec<u8>)
    requires
        recs@.len() < 0x1_0000_0000,
        forall|i: int| 0 <= i < recs@.len() ==> rec_fits(rec_views(recs@)[i]),
    ensures
        r@ == encode_shard(rec_views(recs@)),
{
    let ghost rv = rec_views(recs@);
    let mut out: Vec<u8> = Vec::new();
    push_le32(&mut out, recs.len() as u32);
    let ghost header = out@;
    let mut i: usize = 0;
    proof {
        assert(rv.take(0) =~= Seq::<RecView>::empty());
        assert(out@ =~= header + enc_recs(rv.take(0)));
    }
    while i < recs.len()
        invariant
            i <= recs@.len(),
            rv == rec_views(recs@),
            forall|k: int| 0 <= k < recs@.len() ==> rec_fits(rv[k]),
            out@ == header + enc_recs(rv.take(i as int)),
            header == le32(rv.len() as u32),
        decreases recs@.len() - i,
    {
        proof {
            assert(rv[i as int] == recs@[i as int]@);
            assert(rv.take(i + 1).drop_last() =~= rv.take(i as int));
            assert(rv.take(i + 1).last() == rv[i as int]);
        }
        let ghost before_rec = out@;
        let rec = &recs[i];
        push_str(&mut out, &rec.pkg_id);
        push_str(&mut out, &rec.name);
        push_str(&mut out, &rec.version);
        push_str(&mut out, &rec.checksum);
        push_le32(&mut out, (rec.size & 0xffffffff) as u32);
        push_le32(&mut out, (rec.size >> 32) as u32);
        push_str(&mut out, &rec.bin_name);
        match &rec.origin {
            Origin::Direct(u) => {
                out.push(0u8);
                push_str(&mut out, u);
            },
            Origin::ReleaseHost(a, b) => {
                out.push(1u8);
                push_str(&mut out, a);
                push_str(&mut out, b);
            },
            Origin::Registry(x) => {
                out.push(2u8);
                push_str(&mut out, x);
            },
        }
        proof {
            assert(out@ =~= before_rec + enc_rec(rv[i as int]));
            assert(out@ =~= header + enc_recs(rv.take(i + 1)));
        }
        i += 1;
    }
    proof {
        assert(rv.take(recs@.len() as int) =~= rv);
    }
    out
}

/// Reads a `u32`; the bytes it consumed are its encoding.
fn read_u32(b: &Vec<u8>, pos: usize) -> (r: Option<(u32, usize)>)
    requires
        pos <= b@.len(),
    ensures
        match r {
            Some(np) => np.1 == pos + 4 && np.1 <= b@.len() && le32(np.0) == b@.subrange(
                pos as int,
                pos + 4,
            ) && dec_u32(b@, pos as int) == Some((np.0, np.1 as int)),
            None => b@.len() < pos + 4 && dec_u32(b@, pos as int) is None,
        },
{
    if b.len() - pos < 4 {
        return None;
    }
    let b0 = b[pos];
    let b1 = b[pos + 1];
    let b2 = b[pos + 2];
    let b3 = b[pos + 3];
    let n: u32 = b0 as u32 | (b1 as u32) << 8 | (b2 as u32) << 16 | (b3 as u32) << 24;
    proof {
        lemma_le32_roundtrip(b0, b1, b2, b3);
        assert(le32(n) =~= b@.subrange(pos as int, pos + 4));
        assert(b@.subrange(pos as int, pos + 4)[0] == b0);
        assert(b@.subrange(pos as int, pos + 4)[1] == b1);
        assert(b@.subrange(pos as int, pos + 4)[2] == b2);
        assert(b@.subrange(pos as int, pos + 4)[3] == b3);
        assert(le_val32(b@.subrange(pos as int, pos + 4)) == n);
    }
    Some((n, pos + 4))
}

/// Reads a length-prefixed byte string; the bytes it consumed are its
/// encoding.
fn read_str(b: &Vec<u8>, pos: usize) -> (r: Option<(Vec<u8>, usize)>)
    requires
        pos <= b@.len(),
    ensures
        match r {
            Some(vp) => pos <= vp.1 <= b@.len() && str_fits(vp.0@) && enc_str(vp.0@)
                == b@.subrange(pos as int, vp.1 as int) && dec_str(b@, pos as int) == Some(
                (vp.0@, vp.1 as int),
            ),
            None => dec_str(b@, pos as int) is None,
        },
{
    let (n, p1) = match read_u32(b, pos) {
        Some(np) => np,
        None => {
            return None;
        },
    };
    let n_us: usize = n as usize;
    if b.len() - p1 < n_us {
        return None;
    }
    let bl: usize = b.len();
    let mut v: Vec<u8> = Vec::new();
    let mut i: usize = 0;
    while i < n_us
        invariant
            i <= n_us,
            bl == b@.len(),
            p1 + n_us <= b@.len(),
            v@ == b@.subrange(p1 as int, p1 + i),
        decreases n_us - i,
    {
        v.push(b[p1 + i]);
        proof {
            assert(v@ =~= b@.subrange(p1 as int, p1 + i + 1));
        }
        i += 1;
    }
    proof {
        assert(v@.len() == n as nat);
        assert(v@.len() as u32 == n);
        assert(enc_str(v@) =~= b@.subrange(pos as int, (p1 + n_us) as int));
    }
    Some((v, p1 + n_us))
}

/// Reads one byte.
fn read_u8(b: &Vec<u8>, pos: usize) -> (r: Option<(u8, usize)>)
    requires
        pos <= b@.len(),
    ensures
        match r {
            Some(cp) => cp.1 == pos + 1 && cp.1 <= b@.len() && seq![cp.0] == b@.subrange(
                pos as int,
                pos + 1,
            ) && dec_byte(b@, pos as int) == Some((cp.0, cp.1 as int)),
            None => b@.len() < pos + 1 && dec_byte(b@, pos as int) is None,
        },
{
    if pos >= b.len() {
        return None;
    }
    let c = b[pos];
    proof {
        assert(seq![c] =~= b@.subrange(pos as int, pos + 1));
    }
    Some((c, pos + 1))
}

/// Reads one record; the bytes it consumed are exactly that record's
/// encoding under the given repository name.
#[verifier::rlimit(100)]
#[verifier::spinoff_prover]
fn read_rec(b: &Vec<u8>, pos: usize, repo: &Vec<u8>) -> (r: Option<(PackageRecord, usize)>)
    requires
        pos <= b@.len(),
    ensures
        match r {
            Some(rp) => pos <= rp.1 <= b@.len() && rec_fits(rp.0@) && rp.0@.repo == repo@
                && enc_rec(rp.0@) == b@.subrange(pos as int, rp.1 as int) && dec_rec(
                b@,
                pos as int,
                repo@,
            ) == Some((rp.0@, rp.1 as int)),
            None => dec_rec(b@, pos as int, repo@) is None,
        },
{
    let (pkg_id, p1) = match read_str(b, pos) {
        Some(x) => x,
        None => {
            return None;
        },
    };
    let (name, p2) = match read_str(b, p1) {
        Some(x) => x,
        None => {
            return None;
        },
    };
    let (version, p3) = match read_str(b, p2) {
        Some(x) => x,
        None => {
            return None;
        },
    };
    let (checksum, p4) = match read_str(b, p3) {
        Some(x) => x,
        None => {
            return None;
        },
    };
    let (lo, p5) = match read_u32(b, p4) {
        Some(x) => x,
        None => {
            return None;
        },
    };
    let (hi, p6) = match read_u32(b, p5) {
        Some(x) => x,
        None => {
            return None;
        },
    };
    let size: u64 = lo as u64 | (hi as u64) << 32;
    let (bin_name, p7) = match read_str(b, p6) {
        Some(x) => x,
        None => {
            return None;
        },
    };
    let (tag, p8) = match read_u8(b, p7) {
        Some(x) => x,
        None => {
            return None;
        },
    };
    let (origin, p9): (Origin, usize) = if tag == 0 {
        let (u, p9) = match read_str(b, p8) {
            Some(x) => x,
            None => {
                return None;
            },
        };
        (Origin::Direct(u), p9)
    } else if tag == 1 {
        let (a, p9a) = match read_str(b, p8) {
            Some(x) => x,
            None => {
                return None;
            },
        };
        let (bb, p9) = match read_str(b, p9a) {
            Some(x) => x,
            None => {
                return None;
            },
        };
        (Origin::ReleaseHost(a, bb), p9)
    } else if tag == 2 {
        let (x, p9) = match read_str(b, p8) {
            Some(x) => x,
            None => {
                return None;
            },
        };
        (Origin::Registry(x), p9)
    } else {
        return None;
    };
    let rec = PackageRecord {
        repo_name: copy_vec(repo),
        pkg_id,
        name,
        version,
        checksum,
        size,
        bin_name,
        origin,
    };
    proof {
        lemma_le64_roundtrip(lo, hi);
        assert(le64(size) =~= b@.subrange(p4 as int, p6 as int));
        assert(enc_rec(rec@) =~= b@.subrange(pos as int, p9 as int));
        assert(dec_origin(b@, p7 as int) == Some((rec@.origin, p9 as int)));
        assert(dec_rec(b@, pos as int, repo@) == Some((rec@, p9 as int)));
    }
    Some((rec, p9))
}

/// Whether a record list already holds a package id.
fn has_id(recs: &Vec<PackageRecord>, id: &Vec<u8>) -> (r: bool)
    ensures
        r == exists|k: int| 0 <= k < recs@.len() && rec_views(recs@)[k].id == id@,
{
    let mut i: usize = 0;
    while i < recs.len()
        invariant
            i <= recs@.len(),
            forall|k: int| 0 <= k < i ==> rec_views(recs@)[k].id != id@,
        decreases recs@.len() - i,
    {
        proof {
            assert(rec_views(recs@)[i as int] == recs@[i as int]@);
        }
        if crate::bytes::bytes_eq(&recs[i].pkg_id, id) {
            return true;
        }
        i += 1;
    }
    false
}

/// Parses and validates a shard document fetched for the repository
/// `repo`. Success exactly when [`dec_shard`] accepts the bytes, and
/// then the returned records are what it decodes; re-encoding them
/// yields the input, their ids are unique, and they all carry `repo`.
/// Every other document — malformed, non-canonical, trailing bytes or
/// duplicate ids — is a configuration error, and only those are.
#[verifier::rlimit(60)]
pub fn parse_shard(b: &Vec<u8>, repo: &Vec<u8>) -> (r: Result<Vec<PackageRecord>, SoarError>)
    ensures
        match r {
            Ok(recs) => b@ == encode_shard(rec_views(recs@)) && shard_recs_ok(
                rec_views(recs@),
                repo@,
            ) && dec_shard(b@, repo@) == Some(rec_views(recs@)),
            Err(e) => e == SoarError::Config && dec_shard(b@, repo@) is None && !exists|
                rv: Seq<RecView>,
            |
                b@ == #[trigger] encode_shard(rv) && shard_recs_ok(rv, repo@),
        },
{
    let (count, p0) = match read_u32(b, 0) {
        Some(x) => x,
        None => {
            proof {
                lemma_undecodable_not_canonical(b@, repo@);
            }
            return Err(SoarError::Config);
        },
    };
    let mut out: Vec<PackageRecord> = Vec::new();
    let mut pos: usize = p0;
    let mut k: u32 = 0;
    proof {
        assert(rec_views(out@) =~= Seq::<RecView>::empty());
        assert(b@.subrange(p0 as int, pos as int) =~= enc_recs(rec_views(out@)));
        if dec_recs(b@, 4, count as nat, repo@) is Some {
            let sr = dec_recs(b@, 4, count as nat, repo@).unwrap();
            assert(rec_views(out@) + sr.0 =~= sr.0);
        }
    }
    while k < count
        invariant
            k <= count,
            out@.len() == k,
            p0 == 4,
            p0 <= pos <= b@.len(),
            le32(count) == b@.subrange(0, 4),
            dec_u32(b@, 0) == Some((count, 4int)),
            b@.subrange(p0 as int, pos as int) == enc_recs(rec_views(out@)),
            dec_recs(b@, 4, count as nat, repo@) == (match dec_recs(
                b@,
                pos as int,
                (count - k) as nat,
                repo@,
            ) {
                None => None::<(Seq<RecView>, int)>,
                Some(sr) => Some((rec_views(out@) + sr.0, sr.1)),
            }),
            forall|i: int, j: int|
                0 <= i < j < out@.len() ==> rec_views(out@)[i].id != rec_views(out@)[j].id,
            forall|i: int| 0 <= i < out@.len() ==> (#[trigger] rec_views(out@)[i]).repo == repo@,
            forall|i: int| 0 <= i < out@.len() ==> rec_fits(#[trigger] rec_views(out@)[i]),
        decreases count - k,
    {
        let ghost n_rem = (count - k) as nat;
        let (rec, p2) = match read_rec(b, pos, repo) {
            Some(x) => x,
            None => {
                proof {
                    assert(dec_recs(b@, pos as int, n_rem, repo@) is None);
                    assert(dec_shard(b@, repo@) is None);
                    lemma_undecodable_not_canonical(b@, repo@);
                }
                return Err(SoarError::Config);
            },
        };
        if has_id(&out, &rec.pkg_id) {
            proof {
                if dec_recs(b@, 4, count as nat, repo@) is Some {
                    let sr0 = dec_recs(b@, 4, count as nat, repo@).unwrap().0;
                    let inner = dec_recs(b@, pos as int, n_rem, repo@);
                    assert(inner is Some);
                    let rest = dec_recs(b@, p2 as int, (n_rem - 1) as nat, repo@);
                    assert(rest is Some);
                    assert(inner.unwrap().0 == seq![rec@] + rest.unwrap().0);
                    assert(sr0 == rec_views(out@) + (seq![rec@] + rest.unwrap().0));
                    let j = choose|j: int|
                        0 <= j < rec_views(out@).len() && rec_views(out@)[j].id
                            == rec.pkg_id@;
                    assert(sr0[j] == rec_views(out@)[j]);
                    assert(sr0[out@.len() as int] == rec@);
                    assert(!unique_ids(sr0));
                }
                assert(dec_shard(b@, repo@) is None);
                lemma_undecodable_not_canonical(b@, repo@);
            }
            return Err(SoarError::Config);
        }
        let ghost old_out = out@;
        let ghost old_pos = pos as int;
        let ghost rv_rec = rec@;
        out.push(rec);
        proof {
            assert(rec_views(out@) =~= rec_views(old_out).push(rv_rec));
            assert(rec_views(out@).drop_last() =~= rec_views(old_out));
            assert(b@.subrange(p0 as int, p2 as int) =~= b@.subrange(p0 as int, old_pos)
                + b@.subrange(old_pos, p2 as int));
            let rest = dec_recs(b@, p2 as int, (n_rem - 1) as nat, repo@);
            if rest is Some {
                assert(rec_views(old_out) + (seq![rv_rec] + rest.unwrap().0)
                    =~= rec_views(out@) + rest.unwrap().0);
            }
        }
        pos = p2;
        k += 1;
    }
    proof {
        assert(dec_recs(b@, pos as int, 0, repo@) == Some((Seq::<RecView>::empty(),
        pos as int)));
        assert(rec_views(out@) + Seq::<RecView>::empty() =~= rec_views(out@));
        assert(dec_recs(b@, 4, count as nat, repo@) == Some(
            (rec_views(out@), pos as int),
        ));
    }
    if pos != b.len() {
        proof {
            assert(dec_shard(b@, repo@) is None);
            lemma_undecodable_not_canonical(b@, repo@);
        }
        return Err(SoarError::Config);
    }
    proof {
        assert(rec_views(out@).len() as u32 == count);
        assert(b@ =~= b@.subrange(0, 4) + b@.subrange(4, b@.len() as int));
        assert(b@ =~= encode_shard(rec_views(out@)));
        assert(unique_ids(rec_views(out@)));
        assert(dec_shard(b@, repo@) == Some(rec_views(out@)));
    }
    Ok(out)
}

} // verus!
