use soar_engine::db::{Origin, PackageRecord, PkgRef};
use soar_engine::engine::{FetchOutcome, HealthStatus, InstallOptions, SyncItem, SystemState};
use soar_engine::errors::SoarError;
use soar_engine::shard::encode_shard_bytes;

fn bs(s: &str) -> Vec<u8> {
    s.as_bytes().to_vec()
}

fn rec(repo: &str, id: &str, version: &str, checksum: &str) -> PackageRecord {
    PackageRecord {
        repo_name: bs(repo),
        pkg_id: bs(id),
        name: bs(id),
        version: bs(version),
        checksum: bs(checksum),
        size: 1024,
        bin_name: bs(id),
        origin: Origin::Direct(bs("https://example.invalid/artifact")),
    }
}

fn opts() -> InstallOptions {
    InstallOptions {
        force: false,
        yes: true,
        no_notes: false,
        binary_only: false,
        ask: false,
        portable: None,
        portable_home: None,
        portable_config: None,
        portable_share: None,
        profile: bs("default"),
        installed_at: 1,
    }
}

fn unqualified(id: &str) -> PkgRef {
    PkgRef { repo: None, pkg_id: bs(id) }
}

fn synced(repo: &str, recs: Vec<PackageRecord>) -> SystemState {
    let mut st = SystemState::new();
    let doc = encode_shard_bytes(&recs);
    st.sync_repo(&bs(repo), &FetchOutcome::Fetched(doc), 7).expect("sync");
    st
}

fn installed_ids(st: &SystemState) -> Vec<Vec<u8>> {
    st.db.installed.iter().map(|r| r.pkg_id.clone()).collect()
}

fn artifacts_of(st: &SystemState, id: &str) -> Vec<Vec<u8>> {
    st.disk
        .artifacts
        .iter()
        .filter(|a| a.pkg_id == bs(id))
        .map(|a| a.version.clone())
        .collect()
}

#[test]
fn install_commits_row_symlink_and_artifact() {
    let mut st = synced("main", vec![rec("main", "pkg-a", "1.0", "cafe")]);
    let r = st.install(&unqualified("pkg-a"), &FetchOutcome::Fetched(bs("cafe")), &opts());
    assert!(r.is_ok());
    assert_eq!(installed_ids(&st), vec![bs("pkg-a")]);
    assert_eq!(st.db.installed[0].version, bs("1.0"));
    assert_eq!(artifacts_of(&st, "pkg-a"), vec![bs("1.0")]);
    assert_eq!(st.disk.symlinks.len(), 1);
    assert_eq!(st.disk.staged.len(), 0);
    assert_eq!(st.locks.len(), 0);
}

#[test]
fn distinct_installs_record_each_version_exactly() {
    let mut st = synced(
        "main",
        vec![
            rec("main", "pkg-a", "1.0", "aa"),
            rec("main", "pkg-b", "2.0", "bb"),
        ],
    );
    st.install(&unqualified("pkg-a"), &FetchOutcome::Fetched(bs("aa")), &opts())
        .expect("a");
    st.install(&unqualified("pkg-b"), &FetchOutcome::Fetched(bs("bb")), &opts())
        .expect("b");
    assert_eq!(installed_ids(&st), vec![bs("pkg-a"), bs("pkg-b")]);
    assert_eq!(st.db.installed[0].version, bs("1.0"));
    assert_eq!(st.db.installed[1].version, bs("2.0"));
}

#[test]
fn checksum_mismatch_is_fatal_and_leaves_no_row() {
    let mut st = synced("main", vec![rec("main", "pkg-a", "1.0", "cafe")]);
    let r = st.install(&unqualified("pkg-a"), &FetchOutcome::Fetched(bs("beef")), &opts());
    assert_eq!(r.err(), Some(SoarError::ChecksumMismatch));
    assert!(st.db.installed.is_empty());
    assert!(st.disk.artifacts.is_empty());
}

#[test]
fn unknown_package_is_not_found() {
    let mut st = synced("main", vec![rec("main", "pkg-a", "1.0", "cafe")]);
    let r = st.install(&unqualified("nope"), &FetchOutcome::Fetched(bs("cafe")), &opts());
    assert_eq!(r.err(), Some(SoarError::PackageNotFound));
}

#[test]
fn same_name_in_two_repos_needs_qualification() {
    let mut st = synced("alpha", vec![rec("alpha", "pkg-a", "1.0", "aa")]);
    let doc = encode_shard_bytes(&vec![rec("beta", "pkg-a", "2.0", "bb")]);
    st.sync_repo(&bs("beta"), &FetchOutcome::Fetched(doc), 7).expect("sync beta");
    let r = st.install(&unqualified("pkg-a"), &FetchOutcome::Fetched(bs("aa")), &opts());
    assert_eq!(r.err(), Some(SoarError::AmbiguousPackage));
    let q = PkgRef { repo: Some(bs("beta")), pkg_id: bs("pkg-a") };
    let r2 = st.install(&q, &FetchOutcome::Fetched(bs("bb")), &opts());
    assert!(r2.is_ok());
    assert_eq!(st.db.installed[0].repo_name, bs("beta"));
}

#[test]
fn reinstalling_the_same_version_short_circuits_unless_forced() {
    let mut st = synced("main", vec![rec("main", "pkg-a", "1.0", "cafe")]);
    let f = FetchOutcome::Fetched(bs("cafe"));
    st.install(&unqualified("pkg-a"), &f, &opts()).expect("first");
    let r = st.install(&unqualified("pkg-a"), &f, &opts());
    assert_eq!(r.err(), Some(SoarError::AlreadyInstalled));
    let mut forced = opts();
    forced.force = true;
    assert!(st.install(&unqualified("pkg-a"), &f, &forced).is_ok());
    assert_eq!(st.db.installed.len(), 1);
}

#[test]
fn portable_mode_and_split_overrides_conflict() {
    let mut st = synced("main", vec![rec("main", "pkg-a", "1.0", "cafe")]);
    let mut o = opts();
    o.portable = Some(bs("/tmp/base"));
    o.portable_home = Some(bs("/tmp/home"));
    let r = st.install(&unqualified("pkg-a"), &FetchOutcome::Fetched(bs("cafe")), &o);
    assert_eq!(r.err(), Some(SoarError::PortableConflict));
}

#[test]
fn a_held_lock_turns_a_second_install_away() {
    let mut st = synced("main", vec![rec("main", "pkg-a", "1.0", "cafe")]);
    let f = FetchOutcome::Fetched(bs("cafe"));
    let staged = st.install_begin(&unqualified("pkg-a"), &f, &opts()).expect("begin");
    let second = st.install(&unqualified("pkg-a"), &f, &opts());
    assert_eq!(second.err(), Some(SoarError::LockContention));
    st.install_commit(staged);
    assert_eq!(installed_ids(&st), vec![bs("pkg-a")]);
}

#[test]
fn interruption_before_commit_leaves_nothing_authoritative() {
    let mut st = synced("main", vec![rec("main", "pkg-a", "1.0", "cafe")]);
    let f = FetchOutcome::Fetched(bs("cafe"));
    let _staged = st.install_begin(&unqualified("pkg-a"), &f, &opts()).expect("begin");
    // A simulated interruption: the staged install is simply never
    // committed. The database and the authoritative paths are clean.
    assert!(st.db.installed.is_empty());
    assert!(st.disk.artifacts.is_empty());
    assert!(st.disk.symlinks.is_empty());
    assert_eq!(st.disk.staged.len(), 1);
    assert!(st.check_health().is_empty());
}

#[test]
fn abort_releases_the_lock_and_drops_the_staged_artifact() {
    let mut st = synced("main", vec![rec("main", "pkg-a", "1.0", "cafe")]);
    let f = FetchOutcome::Fetched(bs("cafe"));
    let staged = st.install_begin(&unqualified("pkg-a"), &f, &opts()).expect("begin");
    st.install_abort(staged);
    assert!(st.disk.staged.is_empty());
    assert!(st.locks.is_empty());
    assert!(st.install_begin(&unqualified("pkg-a"), &f, &opts()).is_ok());
}

#[test]
fn remove_after_install_leaves_no_row_and_no_files() {
    let mut st = synced("main", vec![rec("main", "pkg-a", "1.0", "cafe")]);
    st.install(&unqualified("pkg-a"), &FetchOutcome::Fetched(bs("cafe")), &opts())
        .expect("install");
    st.remove_pkg(&bs("pkg-a")).expect("remove");
    assert!(st.db.installed.is_empty());
    assert!(artifacts_of(&st, "pkg-a").is_empty());
    assert!(st.disk.symlinks.is_empty());
}

#[test]
fn removing_what_is_not_installed_is_not_found() {
    let mut st = synced("main", vec![rec("main", "pkg-a", "1.0", "cafe")]);
    assert_eq!(st.remove_pkg(&bs("pkg-a")).err(), Some(SoarError::PackageNotFound));
}

#[test]
fn update_with_keep_one_retains_one_previous_version() {
    let mut st = synced("main", vec![rec("main", "pkg-a", "1.0", "c1")]);
    st.install(&unqualified("pkg-a"), &FetchOutcome::Fetched(bs("c1")), &opts())
        .expect("install");
    let doc2 = encode_shard_bytes(&vec![rec("main", "pkg-a", "2.0", "c2")]);
    st.sync_repo(&bs("main"), &FetchOutcome::Fetched(doc2), 7).expect("sync 2");
    let r = st.update_pkg(&bs("pkg-a"), &FetchOutcome::Fetched(bs("c2")), &opts(), 1);
    assert_eq!(r, Ok(true));
    assert_eq!(artifacts_of(&st, "pkg-a"), vec![bs("1.0"), bs("2.0")]);
    let doc3 = encode_shard_bytes(&vec![rec("main", "pkg-a", "3.0", "c3")]);
    st.sync_repo(&bs("main"), &FetchOutcome::Fetched(doc3), 7).expect("sync 3");
    let r3 = st.update_pkg(&bs("pkg-a"), &FetchOutcome::Fetched(bs("c3")), &opts(), 1);
    assert_eq!(r3, Ok(true));
    // exactly one previous version's artifact beside the current one
    assert_eq!(artifacts_of(&st, "pkg-a"), vec![bs("2.0"), bs("3.0")]);
    assert_eq!(st.db.installed[0].version, bs("3.0"));
}

#[test]
fn update_with_keep_zero_prunes_all_previous_versions() {
    let mut st = synced("main", vec![rec("main", "pkg-a", "1.0", "c1")]);
    st.install(&unqualified("pkg-a"), &FetchOutcome::Fetched(bs("c1")), &opts())
        .expect("install");
    let doc2 = encode_shard_bytes(&vec![rec("main", "pkg-a", "2.0", "c2")]);
    st.sync_repo(&bs("main"), &FetchOutcome::Fetched(doc2), 7).expect("sync 2");
    st.update_pkg(&bs("pkg-a"), &FetchOutcome::Fetched(bs("c2")), &opts(), 0)
        .expect("update");
    assert_eq!(artifacts_of(&st, "pkg-a"), vec![bs("2.0")]);
}

#[test]
fn update_of_a_current_package_is_a_no_op() {
    let mut st = synced("main", vec![rec("main", "pkg-a", "1.0", "c1")]);
    st.install(&unqualified("pkg-a"), &FetchOutcome::Fetched(bs("c1")), &opts())
        .expect("install");
    let before_rows = st.db.installed.len();
    let r = st.update_pkg(&bs("pkg-a"), &FetchOutcome::NetFailed, &opts(), 1);
    assert_eq!(r, Ok(false));
    assert_eq!(st.db.installed.len(), before_rows);
}

#[test]
fn sync_twice_with_the_same_document_is_byte_identical() {
    let recs = vec![
        rec("main", "pkg-a", "1.0", "aa"),
        rec("main", "pkg-b", "2.0", "bb"),
    ];
    let doc = encode_shard_bytes(&recs);
    let mut st = SystemState::new();
    st.sync_repo(&bs("main"), &FetchOutcome::Fetched(doc.clone()), 7).expect("first");
    let shard_once = st.disk.shards[0].content.clone();
    let tables_once = st.db.tables[0].records.len();
    st.sync_repo(&bs("main"), &FetchOutcome::Fetched(doc.clone()), 7).expect("second");
    assert_eq!(st.disk.shards.len(), 1);
    assert_eq!(st.disk.shards[0].content, shard_once);
    assert_eq!(st.disk.shards[0].content, doc);
    assert_eq!(st.db.tables.len(), 1);
    assert_eq!(st.db.tables[0].records.len(), tables_once);
}

#[test]
fn sync_failures_leave_the_state_unchanged() {
    let mut st = synced("main", vec![rec("main", "pkg-a", "1.0", "aa")]);
    let shards_before = st.disk.shards[0].content.clone();
    assert_eq!(
        st.sync_repo(&bs("main"), &FetchOutcome::NetFailed, 7).err(),
        Some(SoarError::Network)
    );
    assert_eq!(
        st.sync_repo(&bs("main"), &FetchOutcome::HttpFailed(404), 7).err(),
        Some(SoarError::HttpStatus(404))
    );
    assert_eq!(
        st.sync_repo(&bs("main"), &FetchOutcome::Fetched(bs("garbage")), 7).err(),
        Some(SoarError::Config)
    );
    assert_eq!(st.disk.shards[0].content, shards_before);
}

#[test]
fn one_repository_failing_does_not_block_another() {
    let mut st = SystemState::new();
    let doc = encode_shard_bytes(&vec![rec("beta", "pkg-b", "1.0", "bb")]);
    let r1 = st.sync_repo(&bs("alpha"), &FetchOutcome::NetFailed, 7);
    let r2 = st.sync_repo(&bs("beta"), &FetchOutcome::Fetched(doc), 7);
    assert!(r1.is_err());
    assert!(r2.is_ok());
    assert_eq!(st.db.tables.len(), 1);
    assert_eq!(st.db.tables[0].repo_name, bs("beta"));
}

#[test]
fn health_check_reports_drift_and_repair_reconciles_it() {
    let mut st = synced("main", vec![rec("main", "pkg-a", "1.0", "cafe")]);
    st.install(&unqualified("pkg-a"), &FetchOutcome::Fetched(bs("cafe")), &opts())
        .expect("install");
    assert_eq!(st.check_health(), vec![HealthStatus::Healthy]);
    // simulate a vanished install tree
    st.disk.artifacts.clear();
    assert_eq!(st.check_health(), vec![HealthStatus::MissingArtifact]);
    st.repair();
    assert!(st.db.installed.is_empty());
    assert!(st.disk.symlinks.is_empty());
}

#[test]
fn broken_symlink_is_reported() {
    let mut st = synced("main", vec![rec("main", "pkg-a", "1.0", "cafe")]);
    st.install(&unqualified("pkg-a"), &FetchOutcome::Fetched(bs("cafe")), &opts())
        .expect("install");
    st.disk.symlinks.clear();
    assert_eq!(st.check_health(), vec![HealthStatus::BrokenLink]);
}

#[test]
fn run_plan_never_writes_a_row() {
    let st = synced("main", vec![rec("main", "pkg-a", "1.0", "cafe")]);
    let plan = st.plan_run(&unqualified("pkg-a")).expect("plan");
    assert_eq!(plan.record.pkg_id, bs("pkg-a"));
    assert!(!plan.cached);
    assert!(st.db.installed.is_empty());
}

#[test]
fn run_plan_sees_the_staged_cache() {
    let mut st = synced("main", vec![rec("main", "pkg-a", "1.0", "cafe")]);
    let staged = st
        .install_begin(&unqualified("pkg-a"), &FetchOutcome::Fetched(bs("cafe")), &opts())
        .expect("begin");
    let plan = st.plan_run(&unqualified("pkg-a")).expect("plan");
    assert!(plan.cached);
    st.install_abort(staged);
}

#[test]
fn sync_all_collects_per_repository_outcomes() {
    let mut st = SystemState::new();
    let good = encode_shard_bytes(&vec![rec("beta", "pkg-b", "1.0", "bb")]);
    let items = vec![
        SyncItem { repo_name: bs("alpha"), fetched: FetchOutcome::NetFailed },
        SyncItem { repo_name: bs("beta"), fetched: FetchOutcome::Fetched(good) },
        SyncItem { repo_name: bs("gamma"), fetched: FetchOutcome::HttpFailed(403) },
        SyncItem { repo_name: bs("delta"), fetched: FetchOutcome::Fetched(bs("junk")) },
    ];
    let results = st.sync_all(&items, 7);
    assert_eq!(results.len(), 4);
    assert_eq!(results[0], Err(SoarError::Network));
    assert_eq!(results[1], Ok(()));
    assert_eq!(results[2], Err(SoarError::HttpStatus(403)));
    assert_eq!(results[3], Err(SoarError::Config));
    assert_eq!(st.db.tables.len(), 1);
    assert_eq!(st.db.tables[0].repo_name, bs("beta"));
}

#[test]
fn content_drift_is_classified() {
    let mut st = synced("main", vec![rec("main", "pkg-a", "1.0", "cafe")]);
    st.install(&unqualified("pkg-a"), &FetchOutcome::Fetched(bs("cafe")), &opts())
        .expect("install");
    assert_eq!(st.check_health(), vec![HealthStatus::Healthy]);
    // the install tree's content changed under the database's feet
    st.disk.artifacts[0].checksum = bs("rotten");
    assert_eq!(st.check_health(), vec![HealthStatus::ChecksumDrift]);
}

#[test]
fn sync_stamps_the_shard_with_the_sync_time() {
    let mut st = SystemState::new();
    let doc = encode_shard_bytes(&vec![rec("main", "pkg-a", "1.0", "aa")]);
    st.sync_repo(&bs("main"), &FetchOutcome::Fetched(doc.clone()), 100).expect("first");
    assert_eq!(st.disk.shards[0].synced_at, 100);
    st.sync_repo(&bs("main"), &FetchOutcome::Fetched(doc.clone()), 200).expect("second");
    // a later re-sync of unchanged content refreshes the stamp only:
    // the shard bytes stay identical to the document
    assert_eq!(st.disk.shards.len(), 1);
    assert_eq!(st.disk.shards[0].synced_at, 200);
    assert_eq!(st.disk.shards[0].content, doc);
}
