//! Asset selection for the download orchestrator.
//!
//! Candidates pass a pipeline: if regex filters are given, a name must
//! match at least one of them; otherwise, if glob filters are given, a
//! name must match at least one of those; match keywords (at least one
//! must occur in the name) and exclude keywords (none may occur) then
//! narrow the set further in every case. Unless `exact_case` is set,
//! all comparisons are made after ASCII case folding.

use vstd::prelude::*;

use crate::bytes::{copy_vec, is_substring, lower_seq, seq_views, to_lower};
use crate::errors::SoarError;
use crate::pattern::{
    lower_pat, pat_found, pat_match_full, pat_matches, pat_search, to_lower_pat, Atom,
};

verus! {

/// The filter policy of one download request.
pub struct FilterSet {
    /// Compiled regex filters; a name must match one of them, anywhere.
    pub regexes: Vec<Vec<Atom>>,
    /// Compiled glob filters, used only when no regex filter is given; a
    /// name must match one of them whole.
    pub globs: Vec<Vec<Atom>>,
    /// A name must contain at least one of these (when any are given).
    pub match_keywords: Vec<Vec<u8>>,
    /// A name must contain none of these.
    pub exclude_keywords: Vec<Vec<u8>>,
    /// Compare without case folding.
    pub exact_case: bool,
}

/// The name as compared: folded unless `exact` is set.
pub open spec fn fold_name(n: Seq<u8>, exact: bool) -> Seq<u8> {
    if exact {
        n
    } else {
        lower_seq(n)
    }
}

/// The pattern as compared: folded unless `exact` is set.
pub open spec fn fold_pat(p: Seq<Atom>, exact: bool) -> Seq<Atom> {
    if exact {
        p
    } else {
        lower_pat(p)
    }
}

/// Some regex filter matches the name.
pub open spec fn any_regex_hit(rxs: Seq<Seq<Atom>>, name: Seq<u8>, exact: bool) -> bool {
    exists|k: int|
        0 <= k < rxs.len() && pat_found(fold_pat(rxs[k], exact), fold_name(name, exact))
}

/// Some glob filter matches the whole name.
pub open spec fn any_glob_hit(gs: Seq<Seq<Atom>>, name: Seq<u8>, exact: bool) -> bool {
    exists|k: int|
        0 <= k < gs.len() && pat_matches(fold_pat(gs[k], exact), fold_name(name, exact))
}

/// The keyword narrowing applied to every candidate regardless of the
/// regex/glob stage.
pub open spec fn keywords_pass(
    ms: Seq<Seq<u8>>,
    es: Seq<Seq<u8>>,
    name: Seq<u8>,
    exact: bool,
) -> bool {
    (ms.len() == 0 || exists|k: int|
        0 <= k < ms.len() && is_substring(fold_name(name, exact), fold_name(ms[k], exact)))
        && (forall|k: int|
        0 <= k < es.len() ==> !is_substring(fold_name(name, exact), fold_name(es[k], exact)))
}

/// The whole pipeline: regex filters if any, else glob filters if any,
/// then keywords.
pub open spec fn spec_keeps(fs: FilterSet, name: Seq<u8>) -> bool {
    let primary = if fs.regexes@.len() > 0 {
        any_regex_hit(seq_views(fs.regexes@), name, fs.exact_case)
    } else if fs.globs@.len() > 0 {
        any_glob_hit(seq_views(fs.globs@), name, fs.exact_case)
    } else {
        true
    };
    primary && keywords_pass(
        seq_views(fs.match_keywords@),
        seq_views(fs.exclude_keywords@),
        name,
        fs.exact_case,
    )
}

/// The candidates that survive the pipeline, in input order.
pub open spec fn spec_kept(fs: FilterSet, names: Seq<Seq<u8>>) -> Seq<Seq<u8>>
    decreases names.len(),
{
    if names.len() == 0 {
        Seq::<Seq<u8>>::empty()
    } else {
        let rest = spec_kept(fs, names.drop_last());
        if spec_keeps(fs, names.last()) {
            rest.push(names.last())
        } else {
            rest
        }
    }
}

/// Folds a byte string as the pipeline compares it.
pub fn fold_bytes(n: &Vec<u8>, exact: bool) -> (r: Vec<u8>)
    ensures
        r@ == fold_name(n@, exact),
{
    if exact {
        copy_vec(n)
    } else {
        to_lower(n)
    }
}

/// Folds a pattern as the pipeline compares it.
fn fold_pattern(p: &Vec<Atom>, exact: bool) -> (r: Vec<Atom>)
    ensures
        r@ == fold_pat(p@, exact),
{
    if exact {
        copy_vec(p)
    } else {
        to_lower_pat(p)
    }
}

/// Whether one candidate name passes the whole pipeline.
pub fn keep_name(fs: &FilterSet, name: &Vec<u8>) -> (r: bool)
    ensures
        r == spec_keeps(*fs, name@),
{
    let exact = fs.exact_case;
    let folded = fold_bytes(name, exact);
    let primary: bool;
    if fs.regexes.len() > 0 {
        let mut hit = false;
        let mut k: usize = 0;
        while k < fs.regexes.len()
            invariant
                k <= fs.regexes@.len(),
                exact == fs.exact_case,
                folded@ == fold_name(name@, exact),
                hit == exists|j: int|
                    0 <= j < k && pat_found(
                        fold_pat(seq_views(fs.regexes@)[j], exact),
                        fold_name(name@, exact),
                    ),
            decreases fs.regexes@.len() - k,
        {
            proof {
                assert(seq_views(fs.regexes@)[k as int] == fs.regexes@[k as int]@);
            }
            if !hit {
                let eff = fold_pattern(&fs.regexes[k], exact);
                if pat_search(&eff, &folded) {
                    hit = true;
                    proof {
                        assert(pat_found(
                            fold_pat(seq_views(fs.regexes@)[k as int], exact),
                            fold_name(name@, exact),
                        ));
                    }
                }
            }
            k += 1;
        }
        primary = hit;
        proof {
            assert(primary == any_regex_hit(seq_views(fs.regexes@), name@, exact));
        }
    } else if fs.globs.len() > 0 {
        let mut hit = false;
        let mut k: usize = 0;
        while k < fs.globs.len()
            invariant
                k <= fs.globs@.len(),
                exact == fs.exact_case,
                folded@ == fold_name(name@, exact),
                hit == exists|j: int|
                    0 <= j < k && pat_matches(
                        fold_pat(seq_views(fs.globs@)[j], exact),
                        fold_name(name@, exact),
                    ),
            decreases fs.globs@.len() - k,
        {
            proof {
                assert(seq_views(fs.globs@)[k as int] == fs.globs@[k as int]@);
            }
            if !hit {
                let eff = fold_pattern(&fs.globs[k], exact);
                if pat_match_full(&eff, &folded) {
                    hit = true;
                    proof {
                        assert(pat_matches(
                            fold_pat(seq_views(fs.globs@)[k as int], exact),
                            fold_name(name@, exact),
                        ));
                    }
                }
            }
            k += 1;
        }
        primary = hit;
        proof {
            assert(primary == any_glob_hit(seq_views(fs.globs@), name@, exact));
        }
    } else {
        primary = true;
    }
    if !primary {
        return false;
    }
    let mut kw_ok: bool = fs.match_keywords.len() == 0;
    let mut k: usize = 0;
    while k < fs.match_keywords.len()
        invariant
            k <= fs.match_keywords@.len(),
            exact == fs.exact_case,
            folded@ == fold_name(name@, exact),
            kw_ok == (fs.match_keywords@.len() == 0 || exists|j: int|
                0 <= j < k && is_substring(
                    fold_name(name@, exact),
                    fold_name(seq_views(fs.match_keywords@)[j], exact),
                )),
        decreases fs.match_keywords@.len() - k,
    {
        proof {
            assert(seq_views(fs.match_keywords@)[k as int] == fs.match_keywords@[
                k as int
            ]@);
        }
        if !kw_ok {
            let kw = fold_bytes(&fs.match_keywords[k], exact);
            if crate::bytes::contains_sub(&folded, &kw) {
                kw_ok = true;
                proof {
                    assert(is_substring(
                        fold_name(name@, exact),
                        fold_name(seq_views(fs.match_keywords@)[k as int], exact),
                    ));
                }
            }
        }
        k += 1;
    }
    if !kw_ok {
        return false;
    }
    let mut k2: usize = 0;
    while k2 < fs.exclude_keywords.len()
        invariant
            k2 <= fs.exclude_keywords@.len(),
            exact == fs.exact_case,
            folded@ == fold_name(name@, exact),
            forall|j: int|
                0 <= j < k2 ==> !is_substring(
                    fold_name(name@, exact),
                    fold_name(seq_views(fs.exclude_keywords@)[j], exact),
                ),
        decreases fs.exclude_keywords@.len() - k2,
    {
        proof {
            assert(seq_views(fs.exclude_keywords@)[k2 as int] == fs.exclude_keywords@[
                k2 as int
            ]@);
        }
        let kw = fold_bytes(&fs.exclude_keywords[k2], exact);
        if crate::bytes::contains_sub(&folded, &kw) {
            proof {
                assert(is_substring(
                    fold_name(name@, exact),
                    fold_name(seq_views(fs.exclude_keywords@)[k2 as int], exact),
                ));
            }
            return false;
        }
        k2 += 1;
    }
    true
}

/// Applies the pipeline to an ordered candidate list, keeping order.
pub fn filter_candidates(fs: &FilterSet, names: &Vec<Vec<u8>>) -> (r: Vec<Vec<u8>>)
    ensures
        seq_views(r@) == spec_kept(*fs, seq_views(names@)),
{
    let ghost nv = seq_views(names@);
    let mut out: Vec<Vec<u8>> = Vec::new();
    let mut i: usize = 0;
    proof {
        assert(nv.take(0) =~= Seq::<Seq<u8>>::empty());
        assert(seq_views(out@) =~= spec_kept(*fs, nv.take(0)));
    }
    while i < names.len()
        invariant
            i <= names@.len(),
            nv == seq_views(names@),
            seq_views(out@) == spec_kept(*fs, nv.take(i as int)),
        decreases names@.len() - i,
    {
        proof {
            assert(nv.take(i + 1).drop_last() =~= nv.take(i as int));
            assert(nv.take(i + 1).last() == names@[i as int]@);
        }
        if keep_name(fs, &names[i]) {
            let c = copy_vec(&names[i]);
            let ghost old_out = out@;
            out.push(c);
            proof {
                assert(seq_views(out@) =~= seq_views(old_out).push(names@[i as int]@));
            }
        }
        i += 1;
    }
    proof {
        assert(nv.take(names@.len() as int) =~= nv);
    }
    out
}

/// What a non-ambiguous selection produced, or the surviving candidates
/// for the caller to choose from interactively.
pub enum Selection {
    Chosen(Vec<u8>),
    NeedsChoice(Vec<Vec<u8>>),
}

/// Applies the pipeline and selects: a single survivor is chosen
/// automatically; none is an error; several survivors are an error in a
/// non-interactive context and are otherwise handed back for the caller
/// to disambiguate.
pub fn select_candidate(fs: &FilterSet, names: &Vec<Vec<u8>>, interactive: bool) -> (r:
    Result<Selection, SoarError>)
    ensures
        ({
            let kept = spec_kept(*fs, seq_views(names@));
            match r {
                Ok(Selection::Chosen(c)) => kept.len() == 1 && c@ == kept[0],
                Ok(Selection::NeedsChoice(v)) => kept.len() > 1 && interactive && seq_views(
                    v@,
                ) == kept,
                Err(e) => (e == SoarError::NoCandidate && kept.len() == 0) || (e
                    == SoarError::AmbiguousSelection && kept.len() > 1 && !interactive),
            }
        }),
{
    let mut kept = filter_candidates(fs, names);
    if kept.len() == 0 {
        Err(SoarError::NoCandidate)
    } else if kept.len() == 1 {
        let ghost kv = seq_views(kept@);
        let c = kept.remove(0);
        proof {
            assert(c@ == kv[0]);
        }
        Ok(Selection::Chosen(c))
    } else if interactive {
        Ok(Selection::NeedsChoice(kept))
    } else {
        Err(SoarError::AmbiguousSelection)
    }
}

} // verus!
