//! Pattern matching for download asset filters.
//!
//! Regular-expression filters (a literal/`.`/`*` subset) and glob
//! filters (`*`, `?`, literals) both compile to a flat sequence of
//! [`Atom`]s; matching is defined by one recursive specification and
//! executed by a verified backtracking matcher. Regex filters match
//! anywhere in the asset name; glob filters must match it whole.

use vstd::prelude::*;

verus! {

/// One element of a compiled pattern: a literal byte, any byte, or a
/// starred (zero-or-more) form of either.
#[derive(Clone, Copy, PartialEq, Eq, Structural, Debug)]
pub enum Atom {
    Lit(u8),
    Any,
    StarLit(u8),
    StarAny,
}

/// The pattern `p` matches the whole text `t`.
pub open spec fn pat_matches(p: Seq<Atom>, t: Seq<u8>) -> bool
    decreases t.len(), p.len(),
{
    if p.len() == 0 {
        t.len() == 0
    } else {
        match p[0] {
            Atom::Lit(c) => t.len() > 0 && t[0] == c && pat_matches(
                p.drop_first(),
                t.drop_first(),
            ),
            Atom::Any => t.len() > 0 && pat_matches(p.drop_first(), t.drop_first()),
            Atom::StarLit(c) => pat_matches(p.drop_first(), t) || (t.len() > 0 && t[0] == c
                && pat_matches(p, t.drop_first())),
            Atom::StarAny => pat_matches(p.drop_first(), t) || (t.len() > 0 && pat_matches(
                p,
                t.drop_first(),
            )),
        }
    }
}

/// The pattern `p` matches some contiguous part of the text `t`.
pub open spec fn pat_found(p: Seq<Atom>, t: Seq<u8>) -> bool {
    exists|i: int, j: int| 0 <= i <= j <= t.len() && pat_matches(p, t.subrange(i, j))
}

/// Backtracking matcher for `p[pi..]` against `t[ti..te]`.
fn pat_match_range(p: &Vec<Atom>, pi: usize, t: &Vec<u8>, ti: usize, te: usize) -> (r:
    bool)
    requires
        pi <= p@.len(),
        ti <= te <= t@.len(),
    ensures
        r == pat_matches(p@.skip(pi as int), t@.subrange(ti as int, te as int)),
    decreases te - ti, p@.len() - pi,
{
    let ghost ps = p@.skip(pi as int);
    let ghost ts = t@.subrange(ti as int, te as int);
    if pi == p.len() {
        proof {
            assert(ps.len() == 0);
        }
        ti == te
    } else {
        proof {
            assert(ps[0] == p@[pi as int]);
            assert(ps.drop_first() =~= p@.skip(pi as int + 1));
            if ti < te {
                assert(ts[0] == t@[ti as int]);
                assert(ts.drop_first() =~= t@.subrange(ti as int + 1, te as int));
            }
        }
        match p[pi] {
            Atom::Lit(c) => {
                if ti < te && t[ti] == c {
                    pat_match_range(p, pi + 1, t, ti + 1, te)
                } else {
                    false
                }
            },
            Atom::Any => {
                if ti < te {
                    pat_match_range(p, pi + 1, t, ti + 1, te)
                } else {
                    false
                }
            },
            Atom::StarLit(c) => {
                if pat_match_range(p, pi + 1, t, ti, te) {
                    true
                } else if ti < te && t[ti] == c {
                    pat_match_range(p, pi, t, ti + 1, te)
                } else {
                    false
                }
            },
            Atom::StarAny => {
                if pat_match_range(p, pi + 1, t, ti, te) {
                    true
                } else if ti < te {
                    pat_match_range(p, pi, t, ti + 1, te)
                } else {
                    false
                }
            },
        }
    }
}

/// Whole-text match, as glob filters require.
pub fn pat_match_full(p: &Vec<Atom>, t: &Vec<u8>) -> (r: bool)
    ensures
        r == pat_matches(p@, t@),
{
    let n: usize = t.len();
    let r = pat_match_range(p, 0, t, 0, n);
    proof {
        assert(p@.skip(0) =~= p@);
        assert(t@.subrange(0, n as int) =~= t@);
    }
    r
}

/// Anywhere-in-text match, as regex filters require.
pub fn pat_search(p: &Vec<Atom>, t: &Vec<u8>) -> (r: bool)
    ensures
        r == pat_found(p@, t@),
{
    let n: usize = t.len();
    let mut i: usize = 0;
    loop
        invariant
            n == t@.len(),
            i <= n,
            forall|a: int, b: int|
                0 <= a < i && a <= b <= t@.len() ==> !pat_matches(p@, t@.subrange(a, b)),
        ensures
            !pat_found(p@, t@),
        decreases n - i,
    {
        let mut j: usize = i;
        loop
            invariant
                n == t@.len(),
                i <= j <= n,
                forall|b: int| i <= b < j ==> !pat_matches(p@, t@.subrange(i as int, b)),
            ensures
                forall|b: int|
                    i <= b <= t@.len() ==> !pat_matches(p@, t@.subrange(i as int, b)),
            decreases n - j,
        {
            if pat_match_range(p, 0, t, i, j) {
                proof {
                    assert(p@.skip(0) =~= p@);
                    assert(pat_matches(p@, t@.subrange(i as int, j as int)));
                }
                return true;
            }
            proof {
                assert(p@.skip(0) =~= p@);
            }
            if j == n {
                break;
            }
            j += 1;
        }
        if i == n {
            break;
        }
        i += 1;
    }
    false
}

/// Case folding of a compiled pattern, matching [`crate::bytes::lower_byte`]
/// on its literal atoms.
pub open spec fn lower_atom(a: Atom) -> Atom {
    match a {
        Atom::Lit(c) => Atom::Lit(crate::bytes::lower_byte(c)),
        Atom::StarLit(c) => Atom::StarLit(crate::bytes::lower_byte(c)),
        Atom::Any => Atom::Any,
        Atom::StarAny => Atom::StarAny,
    }
}

/// Case folding of a whole compiled pattern.
pub open spec fn lower_pat(p: Seq<Atom>) -> Seq<Atom> {
    p.map_values(|a: Atom| lower_atom(a))
}

/// ASCII-lowercases the literal atoms of a pattern.
pub fn to_lower_pat(p: &Vec<Atom>) -> (r: Vec<Atom>)
    ensures
        r@ == lower_pat(p@),
{
    let mut out: Vec<Atom> = Vec::new();
    let mut i: usize = 0;
    while i < p.len()
        invariant
            i <= p@.len(),
            out@.len() == i,
            forall|k: int| 0 <= k < i ==> out@[k] == lower_atom(p@[k]),
        decreases p@.len() - i,
    {
        let a = match p[i] {
            Atom::Lit(c) => if 65 <= c && c <= 90 {
                Atom::Lit(c + 32)
            } else {
                Atom::Lit(c)
            },
            Atom::StarLit(c) => if 65 <= c && c <= 90 {
                Atom::StarLit(c + 32)
            } else {
                Atom::StarLit(c)
            },
            Atom::Any => Atom::Any,
            Atom::StarAny => Atom::StarAny,
        };
        out.push(a);
        i += 1;
    }
    proof {
        assert(out@ =~= lower_pat(p@));
    }
    out
}

/// A byte that stands for itself in the supported regex subset.
pub open spec fn rx_literal(c: u8) -> bool {
    c != 42 && c != 46 && c != 91 && c != 93 && c != 40 && c != 41 && c != 123 && c != 125
        && c != 124 && c != 94 && c != 36 && c != 63 && c != 43 && c != 92
}

/// Compilation of the supported regex subset: literals, `.`, and `*`
/// applied to the preceding single-byte item. Anything else is rejected.
pub open spec fn rx_compile(s: Seq<u8>) -> Option<Seq<Atom>>
    decreases s.len(),
{
    if s.len() == 0 {
        Some(Seq::<Atom>::empty())
    } else {
        let c = s[0];
        let starred = s.len() >= 2 && s[1] == 42;
        if c == 46 {
            let a = if starred {
                Atom::StarAny
            } else {
                Atom::Any
            };
            let rest = if starred {
                rx_compile(s.skip(2))
            } else {
                rx_compile(s.skip(1))
            };
            match rest {
                Some(v) => Some(seq![a] + v),
                None => None,
            }
        } else if rx_literal(c) {
            let a = if starred {
                Atom::StarLit(c)
            } else {
                Atom::Lit(c)
            };
            let rest = if starred {
                rx_compile(s.skip(2))
            } else {
                rx_compile(s.skip(1))
            };
            match rest {
                Some(v) => Some(seq![a] + v),
                None => None,
            }
        } else {
            None
        }
    }
}

/// Compiles a regex filter; `None` for syntax outside the subset.
pub fn compile_regex(s: &Vec<u8>) -> (r: Option<Vec<Atom>>)
    ensures
        match r {
            Some(v) => rx_compile(s@) == Some(v@),
            None => rx_compile(s@) is None,
        },
{
    proof {
        assert(s@.skip(0) =~= s@);
    }
    compile_rx_at(s, 0)
}

fn compile_rx_at(s: &Vec<u8>, i: usize) -> (r: Option<Vec<Atom>>)
    requires
        i <= s@.len(),
    ensures
        match r {
            Some(v) => rx_compile(s@.skip(i as int)) == Some(v@),
            None => rx_compile(s@.skip(i as int)) is None,
        },
    decreases s@.len() - i,
{
    let n: usize = s.len();
    let ghost ss = s@.skip(i as int);
    if i == n {
        let empty_out: Vec<Atom> = Vec::new();
        proof {
            assert(ss.len() == 0);
            assert(Seq::<Atom>::empty() =~= empty_out@);
        }
        return Some(empty_out);
    }
    let c = s[i];
    proof {
        assert(ss[0] == s@[i as int]);
        if i + 1 < n {
            assert(ss[1] == s@[i as int + 1]);
        }
        assert(ss.skip(1) =~= s@.skip(i as int + 1));
        if i + 2 <= n {
            assert(ss.skip(2) =~= s@.skip(i as int + 2));
        }
    }
    let starred = i + 1 < n && s[i + 1] == 42;
    let step: usize = if starred {
        2
    } else {
        1
    };
    let atom: Atom = if c == 46 {
        if starred {
            Atom::StarAny
        } else {
            Atom::Any
        }
    } else if c != 42 && c != 91 && c != 93 && c != 40 && c != 41 && c != 123 && c != 125
        && c != 124 && c != 94 && c != 36 && c != 63 && c != 43 && c != 92 {
        if starred {
            Atom::StarLit(c)
        } else {
            Atom::Lit(c)
        }
    } else {
        return None;
    };
    match compile_rx_at(s, i + step) {
        Some(rest) => {
            let mut out: Vec<Atom> = Vec::new();
            out.push(atom);
            let mut k: usize = 0;
            while k < rest.len()
                invariant
                    k <= rest@.len(),
                    out@.len() == 1 + k,
                    out@[0] == atom,
                    forall|q: int| 0 <= q < k ==> out@[q + 1] == rest@[q],
                decreases rest@.len() - k,
            {
                out.push(rest[k]);
                k += 1;
            }
            proof {
                assert(out@ =~= seq![atom] + rest@);
            }
            Some(out)
        },
        None => None,
    }
}

/// Compilation of a glob filter: `*` matches any run of bytes, `?` any
/// single byte, `[` is rejected, every other byte stands for itself.
pub open spec fn glob_compile(s: Seq<u8>) -> Option<Seq<Atom>>
    decreases s.len(),
{
    if s.len() == 0 {
        Some(Seq::<Atom>::empty())
    } else {
        let c = s[0];
        if c == 91 {
            None
        } else {
            let a = if c == 42 {
                Atom::StarAny
            } else if c == 63 {
                Atom::Any
            } else {
                Atom::Lit(c)
            };
            match glob_compile(s.skip(1)) {
                Some(v) => Some(seq![a] + v),
                None => None,
            }
        }
    }
}

/// Compiles a glob filter; `None` for character classes, which are
/// outside the supported subset.
pub fn compile_glob(s: &Vec<u8>) -> (r: Option<Vec<Atom>>)
    ensures
        match r {
            Some(v) => glob_compile(s@) == Some(v@),
            None => glob_compile(s@) is None,
        },
{
    let mut out: Vec<Atom> = Vec::new();
    let mut i: usize = 0;
    proof {
        assert(s@.skip(0) =~= s@);
        if glob_compile(s@) is Some {
            assert(out@ + glob_compile(s@).unwrap() =~= glob_compile(s@).unwrap());
        }
    }
    while i < s.len()
        invariant
            i <= s@.len(),
            glob_compile(s@) is Some ==> glob_compile(s@) == (match glob_compile(
                s@.skip(i as int),
            ) {
                Some(v) => Some(out@ + v),
                None => None::<Seq<Atom>>,
            }),
            glob_compile(s@.skip(i as int)) is None ==> glob_compile(s@) is None,
            glob_compile(s@.skip(i as int)) is Some ==> glob_compile(s@) is Some,
        decreases s@.len() - i,
    {
        let ghost ss = s@.skip(i as int);
        proof {
            assert(ss[0] == s@[i as int]);
            assert(ss.skip(1) =~= s@.skip(i as int + 1));
        }
        let c = s[i];
        if c == 91 {
            return None;
        }
        let a: Atom = if c == 42 {
            Atom::StarAny
        } else if c == 63 {
            Atom::Any
        } else {
            Atom::Lit(c)
        };
        proof {
            let rest1 = glob_compile(s@.skip(i as int + 1));
            if rest1 is Some {
                assert(out@ + (seq![a] + rest1.unwrap()) =~= (out@ + seq![a])
                    + rest1.unwrap());
            }
        }
        out.push(a);
        i += 1;
    }
    proof {
        assert(s@.skip(i as int) =~= Seq::<u8>::empty());
        assert(glob_compile(s@.skip(i as int)) == Some(Seq::<Atom>::empty()));
        assert(out@ + Seq::<Atom>::empty() =~= out@);
    }
    Some(out)
}

} // verus!
