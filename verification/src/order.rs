//! The query ordering: records sorted by display name ascending, then
//! version descending, so "latest" queries take the first match.

use vstd::multiset::Multiset;
use vstd::prelude::*;

use crate::db::{clone_record, rec_views, PackageRecord, RecView};

verus! {

/// Lexicographic byte-string order, shorter strings first on ties.
pub open spec fn lex_le(a: Seq<u8>, b: Seq<u8>) -> bool
    decreases a.len(),
{
    if a.len() == 0 {
        true
    } else if b.len() == 0 {
        false
    } else if a[0] < b[0] {
        true
    } else if a[0] > b[0] {
        false
    } else {
        lex_le(a.drop_first(), b.drop_first())
    }
}

/// Strict lexicographic order.
pub open spec fn lex_lt(a: Seq<u8>, b: Seq<u8>) -> bool {
    lex_le(a, b) && a != b
}

/// The query order on records: name ascending, version descending.
pub open spec fn rec_le(x: RecView, y: RecView) -> bool {
    lex_lt(x.name, y.name) || (x.name == y.name && lex_le(y.version, x.version))
}

/// Adjacent-pair sortedness under the query order.
pub open spec fn sorted_recs(rs: Seq<RecView>) -> bool {
    forall|i: int| 0 <= i < rs.len() - 1 ==> rec_le(#[trigger] rs[i], rs[i + 1])
}

/// Any two byte strings compare one way or the other.
pub proof fn lemma_lex_total(a: Seq<u8>, b: Seq<u8>)
    ensures
        lex_le(a, b) || lex_le(b, a),
    decreases a.len(),
{
    if a.len() > 0 && b.len() > 0 && a[0] == b[0] {
        lemma_lex_total(a.drop_first(), b.drop_first());
    }
}

/// Two byte strings each below the other are equal.
pub proof fn lemma_lex_antisym(a: Seq<u8>, b: Seq<u8>)
    requires
        lex_le(a, b),
        lex_le(b, a),
    ensures
        a == b,
    decreases a.len(),
{
    if a.len() == 0 {
        assert(b.len() == 0);
        assert(a =~= b);
    } else {
        assert(b.len() > 0);
        assert(a[0] == b[0]);
        assert(lex_le(a.drop_first(), b.drop_first()));
        assert(lex_le(b.drop_first(), a.drop_first()));
        lemma_lex_antisym(a.drop_first(), b.drop_first());
        assert(a.drop_first() == b.drop_first());
        assert(a.len() == b.len());
        assert forall|i: int| 0 <= i < a.len() implies a[i] == b[i] by {
            if i >= 1 {
                assert(a.drop_first()[i - 1] == b.drop_first()[i - 1]);
            }
        }
        assert(a =~= b);
    }
}

/// The byte-string order is transitive.
pub proof fn lemma_lex_trans(a: Seq<u8>, b: Seq<u8>, c: Seq<u8>)
    requires
        lex_le(a, b),
        lex_le(b, c),
    ensures
        lex_le(a, c),
    decreases a.len(),
{
    if a.len() > 0 && b.len() > 0 && c.len() > 0 && a[0] == b[0] && b[0] == c[0] {
        lemma_lex_trans(a.drop_first(), b.drop_first(), c.drop_first());
    }
}

/// Any two records compare one way or the other.
pub proof fn lemma_rec_total(x: RecView, y: RecView)
    ensures
        rec_le(x, y) || rec_le(y, x),
{
    lemma_lex_total(x.name, y.name);
    lemma_lex_total(y.version, x.version);
    if x.name == y.name {
    } else {
        if lex_le(x.name, y.name) {
        } else {
        }
    }
}

/// The record order is transitive.
pub proof fn lemma_rec_trans(x: RecView, y: RecView, z: RecView)
    requires
        rec_le(x, y),
        rec_le(y, z),
    ensures
        rec_le(x, z),
{
    if x.name == y.name && y.name == z.name {
        lemma_lex_trans(z.version, y.version, x.version);
    } else if x.name == y.name {
        assert(lex_lt(y.name, z.name));
    } else if y.name == z.name {
        assert(lex_lt(x.name, y.name));
    } else {
        lemma_lex_trans(x.name, y.name, z.name);
        if x.name == z.name {
            lemma_lex_antisym(x.name, y.name);
        }
    }
}

/// Compares two byte strings under [`lex_le`].
pub fn lex_le_exec(a: &Vec<u8>, b: &Vec<u8>) -> (r: bool)
    ensures
        r == lex_le(a@, b@),
{
    let an: usize = a.len();
    let bn: usize = b.len();
    let n: usize = if an < bn {
        an
    } else {
        bn
    };
    let mut i: usize = 0;
    proof {
        assert(a@.skip(0) =~= a@);
        assert(b@.skip(0) =~= b@);
    }
    while i < n
        invariant
            n == if a@.len() < b@.len() {
                a@.len()
            } else {
                b@.len()
            },
            i <= n,
            an == a@.len(),
            bn == b@.len(),
            lex_le(a@, b@) == lex_le(a@.skip(i as int), b@.skip(i as int)),
        decreases n - i,
    {
        proof {
            assert(a@.skip(i as int)[0] == a@[i as int]);
            assert(b@.skip(i as int)[0] == b@[i as int]);
            assert(a@.skip(i as int).drop_first() =~= a@.skip(i as int + 1));
            assert(b@.skip(i as int).drop_first() =~= b@.skip(i as int + 1));
        }
        if a[i] < b[i] {
            return true;
        }
        if a[i] > b[i] {
            return false;
        }
        i += 1;
    }
    proof {
        if an <= bn {
            assert(a@.skip(i as int).len() == 0);
        } else {
            assert(a@.skip(i as int).len() > 0);
            assert(b@.skip(i as int).len() == 0);
        }
    }
    an <= bn
}

/// Compares two records under [`rec_le`].
pub fn rec_le_exec(x: &PackageRecord, y: &PackageRecord) -> (r: bool)
    ensures
        r == rec_le(x@, y@),
{
    if crate::bytes::bytes_eq(&x.name, &y.name) {
        lex_le_exec(&y.version, &x.version)
    } else {
        lex_le_exec(&x.name, &y.name)
    }
}

/// Sorts records into the query order: name ascending, version
/// descending. The result is a permutation of the input.
pub fn sort_records(v: Vec<PackageRecord>) -> (r: Vec<PackageRecord>)
    ensures
        sorted_recs(rec_views(r@)),
        rec_views(r@).to_multiset() == rec_views(v@).to_multiset(),
{
    broadcast use vstd::seq_lib::group_to_multiset_ensures;
    broadcast use vstd::multiset::group_multiset_axioms;

    let ghost orig = rec_views(v@);
    let mut rest = v;
    let mut out: Vec<PackageRecord> = Vec::new();
    proof {
        assert(rec_views(out@) =~= Seq::<RecView>::empty());
        assert(rec_views(out@).to_multiset().add(rec_views(rest@).to_multiset())
            =~= orig.to_multiset());
    }
    while rest.len() > 0
        invariant
            sorted_recs(rec_views(out@)),
            rec_views(out@).to_multiset().add(rec_views(rest@).to_multiset())
                == orig.to_multiset(),
            forall|i: int, j: int|
                0 <= i < rec_views(out@).len() && 0 <= j < rec_views(rest@).len() ==> rec_le(
                    rec_views(out@)[i],
                    rec_views(rest@)[j],
                ),
        decreases rest@.len(),
    {
        let mut m: usize = 0;
        let mut k: usize = 1;
        proof {
            assert(rec_views(rest@)[0] == rest@[0]@);
            lemma_rec_total(rest@[0]@, rest@[0]@);
        }
        while k < rest.len()
            invariant
                m < k <= rest@.len(),
                forall|j: int| 0 <= j < k ==> rec_le(rec_views(rest@)[m as int], rec_views(
                    rest@,
                )[j]),
            decreases rest@.len() - k,
        {
            proof {
                assert(rec_views(rest@)[k as int] == rest@[k as int]@);
                assert(rec_views(rest@)[m as int] == rest@[m as int]@);
            }
            if !rec_le_exec(&rest[m], &rest[k]) {
                proof {
                    lemma_rec_total(rest@[m as int]@, rest@[k as int]@);
                    lemma_rec_total(rest@[k as int]@, rest@[k as int]@);
                    assert forall|j: int| 0 <= j < k implies rec_le(
                        rec_views(rest@)[k as int],
                        rec_views(rest@)[j],
                    ) by {
                        lemma_rec_trans(
                            rec_views(rest@)[k as int],
                            rec_views(rest@)[m as int],
                            rec_views(rest@)[j],
                        );
                    }
                    assert(rec_le(rec_views(rest@)[k as int], rec_views(rest@)[
                        k as int
                    ]));
                }
                m = k;
            }
            k += 1;
        }
        proof {
            assert(rec_views(rest@)[m as int] == rest@[m as int]@);
        }
        let chosen = clone_record(&rest[m]);
        let ghost old_out = rec_views(out@);
        let ghost old_rest = rec_views(rest@);
        out.push(chosen);
        let _ = rest.remove(m);
        proof {
            assert(rec_views(out@) =~= old_out.push(old_rest[m as int]));
            assert(rec_views(rest@) =~= old_rest.remove(m as int));
            vstd::seq_lib::to_multiset_build::<RecView>(old_out, old_rest[m as int]);
            vstd::seq_lib::to_multiset_remove::<RecView>(old_rest, m as int);
            assert(old_out.push(old_rest[m as int]).to_multiset() =~= old_out.to_multiset(
            ).insert(old_rest[m as int]));
            assert(old_rest.remove(m as int).to_multiset() =~= old_rest.to_multiset(
            ).remove(old_rest[m as int]));
            assert(old_rest.contains(old_rest[m as int]));
            vstd::seq_lib::to_multiset_contains::<RecView>(old_rest, old_rest[m as int]);
            assert(old_rest.to_multiset().count(old_rest[m as int]) > 0);
            assert(rec_views(out@).to_multiset().add(rec_views(rest@).to_multiset())
                =~= orig.to_multiset());
            assert forall|i: int|
                0 <= i < rec_views(out@).len() - 1 implies rec_le(
                #[trigger] rec_views(out@)[i],
                rec_views(out@)[i + 1],
            ) by {
                if i < old_out.len() - 1 {
                    assert(rec_views(out@)[i] == old_out[i]);
                    assert(rec_views(out@)[i + 1] == old_out[i + 1]);
                }
            }
            assert forall|i: int, j: int|
                0 <= i < rec_views(out@).len() && 0 <= j < rec_views(
                rest@,
            ).len() implies rec_le(rec_views(out@)[i], rec_views(rest@)[j]) by {
                if j < m {
                    assert(rec_views(rest@)[j] == old_rest[j]);
                } else {
                    assert(rec_views(rest@)[j] == old_rest[j + 1]);
                }
                if i < old_out.len() {
                    assert(rec_views(out@)[i] == old_out[i]);
                } else {
                    assert(rec_views(out@)[i] == old_rest[m as int]);
                }
            }
        }
    }
    proof {
        assert(rec_views(rest@).len() == 0);
        assert(rec_views(rest@).to_multiset() =~= Multiset::<RecView>::empty());
        assert(rec_views(out@).to_multiset() =~= orig.to_multiset());
    }
    out
}

} // verus!
