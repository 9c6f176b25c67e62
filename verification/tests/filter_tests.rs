use soar_engine::errors::SoarError;
use soar_engine::filters::{filter_candidates, keep_name, select_candidate, FilterSet, Selection};
use soar_engine::pattern::{compile_glob, compile_regex, pat_match_full, pat_search, Atom};

fn bs(s: &str) -> Vec<u8> {
    s.as_bytes().to_vec()
}

fn rx(s: &str) -> Vec<Atom> {
    compile_regex(&bs(s)).expect("regex subset")
}

fn gl(s: &str) -> Vec<Atom> {
    compile_glob(&bs(s)).expect("glob subset")
}

fn empty_filters() -> FilterSet {
    FilterSet {
        regexes: Vec::new(),
        globs: Vec::new(),
        match_keywords: Vec::new(),
        exclude_keywords: Vec::new(),
        exact_case: false,
    }
}

#[test]
fn regex_plus_exclude_keyword_selects_the_x86_64_appimage() {
    let names = vec![
        bs("app-x86_64.AppImage"),
        bs("app-arm64.AppImage"),
        bs("app.sha256"),
    ];
    let fs = FilterSet {
        regexes: vec![rx(".*x86_64.*")],
        globs: Vec::new(),
        match_keywords: Vec::new(),
        exclude_keywords: vec![bs("sha256")],
        exact_case: false,
    };
    let kept = filter_candidates(&fs, &names);
    assert_eq!(kept, vec![bs("app-x86_64.AppImage")]);
}

#[test]
fn glob_filter_matches_whole_names() {
    let names = vec![
        bs("app-x86_64.AppImage"),
        bs("app-arm64.AppImage"),
        bs("app.sha256"),
    ];
    let fs = FilterSet {
        regexes: Vec::new(),
        globs: vec![gl("app-*.AppImage")],
        match_keywords: Vec::new(),
        exclude_keywords: Vec::new(),
        exact_case: false,
    };
    let kept = filter_candidates(&fs, &names);
    assert_eq!(kept, vec![bs("app-x86_64.AppImage"), bs("app-arm64.AppImage")]);
}

#[test]
fn case_folding_is_applied_unless_exact_case() {
    let mut fs = empty_filters();
    fs.regexes = vec![rx("APP.*")];
    assert!(keep_name(&fs, &bs("app-x86_64.AppImage")));
    fs.regexes = vec![rx("APP.*")];
    fs.exact_case = true;
    assert!(!keep_name(&fs, &bs("app-x86_64.AppImage")));
}

#[test]
fn match_keywords_require_at_least_one_hit() {
    let mut fs = empty_filters();
    fs.match_keywords = vec![bs("arm64"), bs("riscv")];
    assert!(keep_name(&fs, &bs("app-arm64.AppImage")));
    assert!(!keep_name(&fs, &bs("app-x86_64.AppImage")));
}

#[test]
fn exclude_keywords_veto_any_hit() {
    let mut fs = empty_filters();
    fs.exclude_keywords = vec![bs("sha256"), bs("sig")];
    assert!(keep_name(&fs, &bs("app.AppImage")));
    assert!(!keep_name(&fs, &bs("app.AppImage.sig")));
}

#[test]
fn single_survivor_is_chosen_automatically() {
    let names = vec![bs("tool-x86_64"), bs("tool.sha256")];
    let mut fs = empty_filters();
    fs.exclude_keywords = vec![bs("sha256")];
    match select_candidate(&fs, &names, false) {
        Ok(Selection::Chosen(c)) => assert_eq!(c, bs("tool-x86_64")),
        _ => panic!("expected automatic choice"),
    }
}

#[test]
fn no_survivor_is_an_error() {
    let names = vec![bs("tool.sha256")];
    let mut fs = empty_filters();
    fs.exclude_keywords = vec![bs("sha256")];
    assert_eq!(
        select_candidate(&fs, &names, false).err(),
        Some(SoarError::NoCandidate)
    );
}

#[test]
fn several_survivors_without_prompting_are_ambiguous() {
    let names = vec![bs("a"), bs("b")];
    let fs = empty_filters();
    assert_eq!(
        select_candidate(&fs, &names, false).err(),
        Some(SoarError::AmbiguousSelection)
    );
}

#[test]
fn several_survivors_with_prompting_are_handed_back() {
    let names = vec![bs("a"), bs("b")];
    let fs = empty_filters();
    match select_candidate(&fs, &names, true) {
        Ok(Selection::NeedsChoice(v)) => assert_eq!(v, names),
        _ => panic!("expected the candidates back"),
    }
}

#[test]
fn regex_subset_rejects_character_classes() {
    assert!(compile_regex(&bs("[abc]+")).is_none());
    assert!(compile_regex(&bs("*leading-star")).is_none());
    assert!(compile_regex(&bs("a|b")).is_none());
}

#[test]
fn glob_subset_rejects_character_classes() {
    assert!(compile_glob(&bs("[ab]c")).is_none());
    assert!(compile_glob(&bs("a?c*")).is_some());
}

#[test]
fn pattern_matching_basics() {
    let p = rx("ab.d");
    assert!(pat_match_full(&p, &bs("abcd")));
    assert!(pat_match_full(&p, &bs("abxd")));
    assert!(!pat_match_full(&p, &bs("abd")));
    let star = rx("a*b");
    assert!(pat_match_full(&star, &bs("b")));
    assert!(pat_match_full(&star, &bs("aaab")));
    assert!(!pat_match_full(&star, &bs("aac")));
}

#[test]
fn regex_search_is_unanchored() {
    let p = rx("x86_64");
    assert!(pat_search(&p, &bs("app-x86_64.AppImage")));
    assert!(!pat_search(&p, &bs("app-arm64.AppImage")));
    let empty = rx("");
    assert!(pat_search(&empty, &bs("")));
}
