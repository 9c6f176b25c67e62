use soar_engine::bytes::{bytes_eq, contains_sub, to_lower};
use soar_engine::config::{Config, Profile, Repository};
use soar_engine::db::{Origin, PackageDatabase, PackageRecord, PkgRef};
use soar_engine::engine::{FetchOutcome, SystemState};
use soar_engine::errors::{backoff_delay, fetch_decision, should_retry, FetchDecision, SoarError};
use soar_engine::shard::{encode_shard_bytes, parse_shard};

fn bs(s: &str) -> Vec<u8> {
    s.as_bytes().to_vec()
}

fn rec(repo: &str, id: &str, version: &str, checksum: &str) -> PackageRecord {
    PackageRecord {
        repo_name: bs(repo),
        pkg_id: bs(id),
        name: bs(id),
        version: bs(version),
        checksum: bs(checksum),
        size: 7,
        bin_name: bs(id),
        origin: Origin::ReleaseHost(bs("owner"), bs("project")),
    }
}

fn base_config() -> Config {
    Config {
        repositories: vec![Repository {
            name: bs("main"),
            metadata_url: bs("https://example.invalid/main.shard"),
            local_shard_path: bs("/var/lib/soar/main.shard"),
            last_sync_time: 0,
        }],
        profiles: vec![Profile {
            name: bs("work"),
            packages_root_override: Some(bs("/work/packages")),
        }],
        bin_dir: bs("/usr/local/bin"),
        db_dir: bs("/var/lib/soar/db"),
        cache_dir: bs("/var/cache/soar"),
        packages_dir: bs("/var/lib/soar/packages"),
        repositories_dir: bs("/var/lib/soar/repos"),
        proxy: None,
        user_agent: Some(bs("soar")),
        timeout_ms: 30_000,
        max_retries: 3,
    }
}


fn default_opts() -> soar_engine::engine::InstallOptions {
    soar_engine::engine::InstallOptions {
        force: false,
        yes: true,
        no_notes: false,
        binary_only: false,
        ask: false,
        portable: None,
        portable_home: None,
        portable_config: None,
        portable_share: None,
        profile: bs("default"),
        installed_at: 1,
    }
}

#[test]
fn shard_documents_round_trip() {
    let recs = vec![
        rec("main", "pkg-a", "1.0", "aa"),
        PackageRecord {
            origin: Origin::Registry(bs("ghcr.invalid/x:latest")),
            ..rec("main", "pkg-b", "2.0", "bb")
        },
        PackageRecord {
            origin: Origin::Direct(bs("https://example.invalid/c")),
            size: u64::MAX,
            ..rec("main", "pkg-c", "3.0", "cc")
        },
    ];
    let doc = encode_shard_bytes(&recs);
    let parsed = parse_shard(&doc, &bs("main")).expect("round trip");
    assert_eq!(parsed.len(), 3);
    for (p, r) in parsed.iter().zip(recs.iter()) {
        assert_eq!(p.pkg_id, r.pkg_id);
        assert_eq!(p.version, r.version);
        assert_eq!(p.checksum, r.checksum);
        assert_eq!(p.size, r.size);
        assert_eq!(p.repo_name, bs("main"));
    }
    let reencoded = encode_shard_bytes(&parsed);
    assert_eq!(reencoded, doc);
}

#[test]
fn malformed_documents_are_configuration_errors() {
    assert_eq!(parse_shard(&bs(""), &bs("main")).err(), Some(SoarError::Config));
    assert_eq!(parse_shard(&bs("xy"), &bs("main")).err(), Some(SoarError::Config));
    let mut doc = encode_shard_bytes(&vec![rec("main", "pkg-a", "1.0", "aa")]);
    doc.push(0);
    assert_eq!(parse_shard(&doc, &bs("main")).err(), Some(SoarError::Config));
}

#[test]
fn duplicate_ids_in_a_document_are_rejected() {
    let doc = encode_shard_bytes(&vec![
        rec("main", "pkg-a", "1.0", "aa"),
        rec("main", "pkg-a", "2.0", "bb"),
    ]);
    assert_eq!(parse_shard(&doc, &bs("main")).err(), Some(SoarError::Config));
}

#[test]
fn empty_documents_parse_to_empty_tables() {
    let doc = encode_shard_bytes(&Vec::new());
    assert!(parse_shard(&doc, &bs("main")).expect("empty").is_empty());
}

#[test]
fn resolve_prefers_nothing_and_reports_exactly() {
    let mut db = PackageDatabase::new();
    assert_eq!(
        db.resolve(&PkgRef { repo: None, pkg_id: bs("x") }).err(),
        Some(SoarError::PackageNotFound)
    );
    db.record_install(soar_engine::db::InstalledPackage {
        pkg_id: bs("x"),
        repo_name: bs("main"),
        version: bs("1.0"),
        checksum: bs("aa"),
        bin_name: bs("x"),
        profile: bs("default"),
        portable_base: None,
        portable_home: None,
        portable_config: None,
        portable_share: None,
        installed_at: 0,
    });
    assert!(db.find_installed(&bs("x")).is_some());
    db.remove_install(&bs("x"));
    assert!(db.find_installed(&bs("x")).is_none());
}

#[test]
fn search_is_case_insensitive_by_default_and_capped() {
    let mut st = SystemState::new();
    let doc = encode_shard_bytes(&vec![
        rec("main", "Editor-One", "1.0", "aa"),
        rec("main", "editor-two", "1.0", "bb"),
        rec("main", "viewer", "1.0", "cc"),
    ]);
    st.sync_repo(&bs("main"), &FetchOutcome::Fetched(doc), 7).expect("sync");
    let hits = st.db.search(&bs("EDITOR"), false, 10);
    assert_eq!(hits.len(), 2);
    let capped = st.db.search(&bs("EDITOR"), false, 1);
    assert_eq!(capped.len(), 1);
    assert_eq!(capped[0].pkg_id, bs("Editor-One"));
    let exact = st.db.search(&bs("EDITOR"), true, 10);
    assert!(exact.is_empty());
}

#[test]
fn listing_filters_by_repository() {
    let mut st = SystemState::new();
    let doc_a = encode_shard_bytes(&vec![rec("alpha", "a1", "1.0", "aa")]);
    let doc_b = encode_shard_bytes(&vec![rec("beta", "b1", "1.0", "bb")]);
    st.sync_repo(&bs("alpha"), &FetchOutcome::Fetched(doc_a), 7).expect("a");
    st.sync_repo(&bs("beta"), &FetchOutcome::Fetched(doc_b), 7).expect("b");
    assert_eq!(st.db.list_available(None).len(), 2);
    let only_beta = st.db.list_available(Some(&bs("beta")));
    assert_eq!(only_beta.len(), 1);
    assert_eq!(only_beta[0].pkg_id, bs("b1"));
    assert!(st.db.list_installed(None, None).is_empty());
}

#[test]
fn config_validation_is_exact() {
    let c = base_config();
    assert!(c.validate().is_ok());
    let mut empty_bin = base_config();
    empty_bin.bin_dir = Vec::new();
    assert_eq!(empty_bin.validate().err(), Some(SoarError::Config));
    let mut dup = base_config();
    dup.repositories.push(Repository {
        name: bs("main"),
        metadata_url: bs("https://example.invalid/other"),
        local_shard_path: bs("/x"),
        last_sync_time: 0,
    });
    assert_eq!(dup.validate().err(), Some(SoarError::Config));
    let mut nameless = base_config();
    nameless.repositories[0].name = Vec::new();
    assert_eq!(nameless.validate().err(), Some(SoarError::Config));
}

#[test]
fn profiles_select_the_packages_root() {
    let c = base_config();
    assert_eq!(c.packages_root(&bs("work")), bs("/work/packages"));
    assert_eq!(c.packages_root(&bs("default")), bs("/var/lib/soar/packages"));
    assert_eq!(c.repo_names(), vec![bs("main")]);
}

#[test]
fn retry_policy_retries_only_transient_errors_within_bounds() {
    assert!(should_retry(&SoarError::Network, 0, 3));
    assert!(should_retry(&SoarError::Network, 2, 3));
    assert!(!should_retry(&SoarError::Network, 3, 3));
    assert!(!should_retry(&SoarError::HttpStatus(404), 0, 3));
    assert!(!should_retry(&SoarError::ChecksumMismatch, 0, 3));
    assert!(SoarError::Network.is_transient());
    assert!(!SoarError::AmbiguousPackage.is_transient());
}

#[test]
fn error_labels_are_stable() {
    assert_eq!(SoarError::ChecksumMismatch.label(), "checksum mismatch");
    assert_eq!(SoarError::LockContention.label(), "lock contention");
    assert_eq!(SoarError::HttpStatus(500).label(), "http status error");
}

#[test]
fn byte_string_utilities_behave() {
    assert_eq!(to_lower(&bs("App-X86_64")), bs("app-x86_64"));
    assert!(bytes_eq(&bs("abc"), &bs("abc")));
    assert!(!bytes_eq(&bs("abc"), &bs("abd")));
    assert!(contains_sub(&bs("app-x86_64.AppImage"), &bs("x86_64")));
    assert!(contains_sub(&bs("anything"), &bs("")));
    assert!(!contains_sub(&bs("short"), &bs("much-longer-needle")));
}

#[test]
fn query_order_is_name_ascending_then_version_descending() {
    let recs = vec![
        rec("main", "zed", "1.0", "z1"),
        rec("main", "alpha", "1.0", "a1"),
        rec("main", "alpha2", "2.0", "a2"),
    ];
    let mut renamed = recs;
    renamed[2].name = bs("alpha");
    let sorted = soar_engine::order::sort_records(renamed);
    assert_eq!(sorted[0].name, bs("alpha"));
    assert_eq!(sorted[0].version, bs("2.0"));
    assert_eq!(sorted[1].name, bs("alpha"));
    assert_eq!(sorted[1].version, bs("1.0"));
    assert_eq!(sorted[2].name, bs("zed"));
}

#[test]
fn query_returns_the_matching_rows() {
    let mut st = SystemState::new();
    let doc_a = encode_shard_bytes(&vec![rec("alpha", "tool", "1.0", "aa")]);
    let doc_b = encode_shard_bytes(&vec![rec("beta", "tool", "2.0", "bb")]);
    st.sync_repo(&bs("alpha"), &FetchOutcome::Fetched(doc_a), 7).expect("a");
    st.sync_repo(&bs("beta"), &FetchOutcome::Fetched(doc_b), 7).expect("b");
    let rows = st.db.query(&PkgRef { repo: None, pkg_id: bs("tool") });
    assert_eq!(rows.len(), 2);
    assert_eq!(rows[0].version, bs("2.0"));
    assert_eq!(rows[1].version, bs("1.0"));
}

#[test]
fn skip_existing_short_circuits_unless_forced() {
    assert_eq!(fetch_decision(true, true, true, false), FetchDecision::UseExisting);
    assert_eq!(fetch_decision(true, true, true, true), FetchDecision::Transfer);
    assert_eq!(fetch_decision(true, false, true, false), FetchDecision::Transfer);
    assert_eq!(fetch_decision(false, false, true, false), FetchDecision::Transfer);
    assert_eq!(fetch_decision(true, true, false, false), FetchDecision::Transfer);
}

#[test]
fn backoff_doubles_up_to_the_cap() {
    assert_eq!(backoff_delay(100, 0, 30_000), 100);
    assert_eq!(backoff_delay(100, 1, 30_000), 200);
    assert_eq!(backoff_delay(100, 3, 30_000), 800);
    assert_eq!(backoff_delay(100, 10, 30_000), 30_000);
    assert_eq!(backoff_delay(100, 63, 30_000), 30_000);
    assert_eq!(backoff_delay(50_000, 0, 30_000), 30_000);
    assert_eq!(backoff_delay(0, 5, 30_000), 0);
}

#[test]
fn upsert_replaces_a_repository_wholesale() {
    let mut db = PackageDatabase::new();
    db.upsert_repo_packages(
        &bs("main"),
        vec![rec("main", "a", "1.0", "x"), rec("main", "b", "1.0", "y")],
    );
    assert_eq!(db.tables.len(), 1);
    assert_eq!(db.tables[0].records.len(), 2);
    db.upsert_repo_packages(&bs("main"), vec![rec("main", "c", "2.0", "z")]);
    assert_eq!(db.tables.len(), 1);
    assert_eq!(db.tables[0].records.len(), 1);
    assert_eq!(db.tables[0].records[0].pkg_id, bs("c"));
    assert!(db.installed.is_empty());
}

#[test]
fn list_installed_honors_the_count_cap() {
    let mut st = SystemState::new();
    let doc = encode_shard_bytes(&vec![
        rec("main", "a1", "1.0", "aa"),
        rec("main", "a2", "1.0", "bb"),
        rec("main", "a3", "1.0", "cc"),
    ]);
    st.sync_repo(&bs("main"), &FetchOutcome::Fetched(doc), 7).expect("sync");
    for (id, sum) in [("a1", "aa"), ("a2", "bb"), ("a3", "cc")] {
        let q = PkgRef { repo: None, pkg_id: bs(id) };
        st.install(&q, &FetchOutcome::Fetched(bs(sum)), &default_opts())
            .expect("install");
    }
    assert_eq!(st.db.list_installed(None, None).len(), 3);
    let capped = st.db.list_installed(None, Some(2));
    assert_eq!(capped.len(), 2);
    assert_eq!(capped[0].pkg_id, bs("a1"));
    assert_eq!(capped[1].pkg_id, bs("a2"));
    assert_eq!(st.db.list_installed(None, Some(9)).len(), 3);
    assert_eq!(st.db.list_installed(Some(&bs("main")), Some(1)).len(), 1);
}
