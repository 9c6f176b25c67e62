//! The install/update/remove pipeline over an explicit system state.
//!
//! The state holds the package database, a model of the filesystem
//! (installed artifact directories, bin symlinks, the staging area and
//! the repository metadata shards) and the advisory per-package locks.
//! Every operation is a two-phase transition: `install_begin` acquires
//! the lock and stages the verified artifact without touching anything
//! authoritative, and `install_commit` publishes it; an interruption
//! between the two leaves the database and the authoritative paths
//! exactly as they were. The surrounding process performs the actual
//! transfer and hands its outcome in as a [`FetchOutcome`].

use vstd::prelude::*;

use crate::bytes::{bytes_eq, copy_vec, seq_views};
use crate::db::{
    all_recs, clone_record, db_wf, find_inst, ip_views, matching_recs, opt_view, remove_id,
    DbView, InstalledPackage, IpView, PackageDatabase, PackageRecord, PkgRef, RecView,
    RefView,
};
use crate::errors::SoarError;

verus! {

/// One fully populated install directory, `<packages>/<id>/<version>`,
/// together with the checksum of its content when it was written.
pub struct ArtifactRef {
    pub pkg_id: Vec<u8>,
    pub version: Vec<u8>,
    pub checksum: Vec<u8>,
}

/// Ghost image of an [`ArtifactRef`].
pub struct ArtView {
    pub id: Seq<u8>,
    pub version: Seq<u8>,
    pub checksum: Seq<u8>,
}

impl View for ArtifactRef {
    type V = ArtView;

    open spec fn view(&self) -> ArtView {
        ArtView { id: self.pkg_id@, version: self.version@, checksum: self.checksum@ }
    }
}

/// One entry of the shared binary directory, pointing at an artifact.
pub struct SymlinkRef {
    pub bin_name: Vec<u8>,
    pub pkg_id: Vec<u8>,
    pub version: Vec<u8>,
}

/// Ghost image of a [`SymlinkRef`].
pub struct SlView {
    pub bin: Seq<u8>,
    pub id: Seq<u8>,
    pub version: Seq<u8>,
}

impl View for SymlinkRef {
    type V = SlView;

    open spec fn view(&self) -> SlView {
        SlView { bin: self.bin_name@, id: self.pkg_id@, version: self.version@ }
    }
}

/// One repository's local metadata shard file, stamped with the time
/// of the sync that wrote it.
pub struct ShardFile {
    pub repo_name: Vec<u8>,
    pub content: Vec<u8>,
    pub synced_at: u64,
}

/// Ghost image of a [`ShardFile`].
pub struct ShardView {
    pub repo: Seq<u8>,
    pub content: Seq<u8>,
    pub synced_at: u64,
}

impl View for ShardFile {
    type V = ShardView;

    open spec fn view(&self) -> ShardView {
        ShardView {
            repo: self.repo_name@,
            content: self.content@,
            synced_at: self.synced_at,
        }
    }
}

/// The modeled filesystem: authoritative artifacts and symlinks, the
/// staging area (never authoritative), and the metadata shards.
pub struct DiskState {
    pub artifacts: Vec<ArtifactRef>,
    pub symlinks: Vec<SymlinkRef>,
    pub staged: Vec<ArtifactRef>,
    pub shards: Vec<ShardFile>,
}

/// Ghost image of the [`DiskState`].
pub struct DiskView {
    pub artifacts: Seq<ArtView>,
    pub symlinks: Seq<SlView>,
    pub staged: Seq<ArtView>,
    pub shards: Seq<ShardView>,
}

/// Element views of a sequence of artifacts.
pub open spec fn art_views(s: Seq<ArtifactRef>) -> Seq<ArtView> {
    s.map_values(|a: ArtifactRef| a@)
}

/// Element views of a sequence of symlinks.
pub open spec fn sl_views(s: Seq<SymlinkRef>) -> Seq<SlView> {
    s.map_values(|a: SymlinkRef| a@)
}

/// Element views of a sequence of shard files.
pub open spec fn shard_views(s: Seq<ShardFile>) -> Seq<ShardView> {
    s.map_values(|a: ShardFile| a@)
}

impl View for DiskState {
    type V = DiskView;

    open spec fn view(&self) -> DiskView {
        DiskView {
            artifacts: art_views(self.artifacts@),
            symlinks: sl_views(self.symlinks@),
            staged: art_views(self.staged@),
            shards: shard_views(self.shards@),
        }
    }
}

/// The whole mutable world of one engine invocation.
pub struct SystemState {
    pub db: PackageDatabase,
    pub disk: DiskState,
    pub locks: Vec<Vec<u8>>,
}

/// Ghost image of the [`SystemState`].
pub struct StView {
    pub db: DbView,
    pub disk: DiskView,
    pub locks: Seq<Seq<u8>>,
}

impl View for SystemState {
    type V = StView;

    open spec fn view(&self) -> StView {
        StView { db: self.db@, disk: self.disk@, locks: seq_views(self.locks@) }
    }
}

/// Options of one install request.
pub struct InstallOptions {
    pub force: bool,
    pub yes: bool,
    pub no_notes: bool,
    pub binary_only: bool,
    pub ask: bool,
    /// Generic portable mode base directory.
    pub portable: Option<Vec<u8>>,
    pub portable_home: Option<Vec<u8>>,
    pub portable_config: Option<Vec<u8>>,
    pub portable_share: Option<Vec<u8>>,
    pub profile: Vec<u8>,
    pub installed_at: u64,
}

/// Ghost image of the [`InstallOptions`].
pub struct OptView {
    pub force: bool,
    pub yes: bool,
    pub no_notes: bool,
    pub binary_only: bool,
    pub ask: bool,
    pub portable: Option<Seq<u8>>,
    pub portable_home: Option<Seq<u8>>,
    pub portable_config: Option<Seq<u8>>,
    pub portable_share: Option<Seq<u8>>,
    pub profile: Seq<u8>,
    pub installed_at: u64,
}

impl View for InstallOptions {
    type V = OptView;

    open spec fn view(&self) -> OptView {
        OptView {
            force: self.force,
            yes: self.yes,
            no_notes: self.no_notes,
            binary_only: self.binary_only,
            ask: self.ask,
            portable: opt_view(self.portable),
            portable_home: opt_view(self.portable_home),
            portable_config: opt_view(self.portable_config),
            portable_share: opt_view(self.portable_share),
            profile: self.profile@,
            installed_at: self.installed_at,
        }
    }
}

/// What the transfer of the selected asset produced: the checksum of
/// the streamed bytes, or the way it failed.
pub enum FetchOutcome {
    Fetched(Vec<u8>),
    NetFailed,
    HttpFailed(u16),
}

/// Ghost image of a [`FetchOutcome`].
pub enum FetchView {
    Fetched(Seq<u8>),
    NetFailed,
    HttpFailed(u16),
}

impl View for FetchOutcome {
    type V = FetchView;

    open spec fn view(&self) -> FetchView {
        match self {
            FetchOutcome::Fetched(s) => FetchView::Fetched(s@),
            FetchOutcome::NetFailed => FetchView::NetFailed,
            FetchOutcome::HttpFailed(s) => FetchView::HttpFailed(*s),
        }
    }
}

/// Generic portable mode and the split overrides are mutually
/// exclusive; the request is rejected before any state mutation.
pub open spec fn portable_conflict(o: OptView) -> bool {
    o.portable is Some && (o.portable_home is Some || o.portable_config is Some
        || o.portable_share is Some)
}

/// An artifact directory for `id` at `version` is present.
pub open spec fn has_art(arts: Seq<ArtView>, id: Seq<u8>, ver: Seq<u8>) -> bool {
    exists|k: int| 0 <= k < arts.len() && arts[k].id == id && arts[k].version == ver
}

/// A symlink for `bin` pointing at `id`/`ver` is present.
pub open spec fn has_link(sls: Seq<SlView>, bin: Seq<u8>, id: Seq<u8>, ver: Seq<u8>) -> bool {
    exists|k: int|
        0 <= k < sls.len() && sls[k].bin == bin && sls[k].id == id && sls[k].version == ver
}

/// Artifacts with the pair `(id, ver)` removed, order preserved.
pub open spec fn remove_art(arts: Seq<ArtView>, id: Seq<u8>, ver: Seq<u8>) -> Seq<ArtView>
    decreases arts.len(),
{
    if arts.len() == 0 {
        Seq::<ArtView>::empty()
    } else {
        let rest = remove_art(arts.drop_last(), id, ver);
        if arts.last().id == id && arts.last().version == ver {
            rest
        } else {
            rest.push(arts.last())
        }
    }
}

/// Artifacts of package `id` removed entirely, order preserved.
pub open spec fn remove_pkg_arts(arts: Seq<ArtView>, id: Seq<u8>) -> Seq<ArtView>
    decreases arts.len(),
{
    if arts.len() == 0 {
        Seq::<ArtView>::empty()
    } else {
        let rest = remove_pkg_arts(arts.drop_last(), id);
        if arts.last().id == id {
            rest
        } else {
            rest.push(arts.last())
        }
    }
}

/// Symlinks under the name `bin` removed, order preserved.
pub open spec fn remove_bin(sls: Seq<SlView>, bin: Seq<u8>) -> Seq<SlView>
    decreases sls.len(),
{
    if sls.len() == 0 {
        Seq::<SlView>::empty()
    } else {
        let rest = remove_bin(sls.drop_last(), bin);
        if sls.last().bin == bin {
            rest
        } else {
            rest.push(sls.last())
        }
    }
}

/// Symlinks pointing at package `id` removed, order preserved.
pub open spec fn remove_pkg_links(sls: Seq<SlView>, id: Seq<u8>) -> Seq<SlView>
    decreases sls.len(),
{
    if sls.len() == 0 {
        Seq::<SlView>::empty()
    } else {
        let rest = remove_pkg_links(sls.drop_last(), id);
        if sls.last().id == id {
            rest
        } else {
            rest.push(sls.last())
        }
    }
}

/// Locks with `id` released, order preserved.
pub open spec fn remove_lock(locks: Seq<Seq<u8>>, id: Seq<u8>) -> Seq<Seq<u8>>
    decreases locks.len(),
{
    if locks.len() == 0 {
        Seq::<Seq<u8>>::empty()
    } else {
        let rest = remove_lock(locks.drop_last(), id);
        if locks.last() == id {
            rest
        } else {
            rest.push(locks.last())
        }
    }
}

/// How many artifacts of `id` at versions other than `cur` are on disk.
pub open spec fn count_prev(arts: Seq<ArtView>, id: Seq<u8>, cur: Seq<u8>) -> nat
    decreases arts.len(),
{
    if arts.len() == 0 {
        0
    } else {
        (if arts[0].id == id && arts[0].version != cur {
            1nat
        } else {
            0nat
        }) + count_prev(arts.drop_first(), id, cur)
    }
}

/// How many artifacts of `id` (any version) are on disk.
pub open spec fn count_pkg_arts(arts: Seq<ArtView>, id: Seq<u8>) -> nat
    decreases arts.len(),
{
    if arts.len() == 0 {
        0
    } else {
        count_pkg_arts(arts.drop_last(), id) + if arts.last().id == id {
            1nat
        } else {
            0nat
        }
    }
}

/// Retention pruning: drops the `drop_n` oldest artifacts of `id` at
/// versions other than `cur`, keeping everything else in order.
pub open spec fn prune_arts(
    arts: Seq<ArtView>,
    id: Seq<u8>,
    cur: Seq<u8>,
    drop_n: nat,
) -> Seq<ArtView>
    decreases arts.len(),
{
    if arts.len() == 0 {
        Seq::<ArtView>::empty()
    } else {
        let h = arts[0];
        let rest = arts.drop_first();
        if h.id == id && h.version != cur && drop_n > 0 {
            prune_arts(rest, id, cur, (drop_n - 1) as nat)
        } else {
            seq![h] + prune_arts(rest, id, cur, drop_n)
        }
    }
}

/// The row an install commit writes.
pub open spec fn new_row_view(rec: RecView, o: OptView) -> IpView {
    IpView {
        id: rec.id,
        repo: rec.repo,
        version: rec.version,
        checksum: rec.checksum,
        bin_name: rec.bin_name,
        profile: o.profile,
        portable_base: o.portable,
        portable_home: o.portable_home,
        portable_config: o.portable_config,
        portable_share: o.portable_share,
        installed_at: o.installed_at,
    }
}

/// The installed row for this record's id carries this record's version.
pub open spec fn already_installed(inst: Seq<IpView>, rec: RecView) -> bool {
    match find_inst(inst, rec.id) {
        Some(ip) => ip.version == rec.version,
        None => false,
    }
}

/// An installed row's portable settings are mutually exclusive:
/// generic portable mode forbids the three split overrides.
pub open spec fn portable_ok(ip: IpView) -> bool {
    ip.portable_base is Some ==> ip.portable_home is None && ip.portable_config is None
        && ip.portable_share is None
}

/// Well-formedness of the whole state: the database invariants, no
/// duplicate artifact directory, every installed row backed by a fully
/// populated artifact directory — there is no pending state — and
/// every row's portable settings mutually exclusive.
pub open spec fn st_wf(st: StView) -> bool {
    &&& db_wf(st.db)
    &&& forall|i: int, j: int|
        0 <= i < j < st.disk.artifacts.len() ==> !(st.disk.artifacts[i].id
            == st.disk.artifacts[j].id && st.disk.artifacts[i].version == st.disk.artifacts[
            j
        ].version)
    &&& forall|k: int|
        0 <= k < st.db.installed.len() ==> has_art(
            st.disk.artifacts,
            (#[trigger] st.db.installed[k]).id,
            st.db.installed[k].version,
        )
    &&& forall|k: int| 0 <= k < st.db.installed.len() ==> portable_ok(
        #[trigger] st.db.installed[k],
    )
}

/// How `install_begin` classifies a request, in the order the checks
/// are made: portable conflict, resolution, already-installed
/// short-circuit, lock, then the transfer outcome and its checksum.
pub open spec fn begin_outcome(
    st: StView,
    q: RefView,
    f: FetchView,
    o: OptView,
) -> Result<RecView, SoarError> {
    if portable_conflict(o) {
        Err(SoarError::PortableConflict)
    } else {
        let ms = matching_recs(all_recs(st.db.tables), q);
        if ms.len() == 0 {
            Err(SoarError::PackageNotFound)
        } else if ms.len() > 1 {
            Err(SoarError::AmbiguousPackage)
        } else {
            let rec = ms[0];
            if already_installed(st.db.installed, rec) && !o.force {
                Err(SoarError::AlreadyInstalled)
            } else if st.locks.contains(rec.id) {
                Err(SoarError::LockContention)
            } else {
                match f {
                    FetchView::NetFailed => Err(SoarError::Network),
                    FetchView::HttpFailed(s) => Err(SoarError::HttpStatus(s)),
                    FetchView::Fetched(sum) => if sum != rec.checksum {
                        Err(SoarError::ChecksumMismatch)
                    } else {
                        Ok(rec)
                    },
                }
            }
        }
    }
}

/// The begin transition: the lock is held and the verified artifact is
/// staged; nothing authoritative — database rows, artifact directories,
/// symlinks — changes.
pub open spec fn begin_apply(st: StView, rec: RecView) -> StView {
    StView {
        db: st.db,
        disk: DiskView {
            staged: st.disk.staged.push(
                ArtView { id: rec.id, version: rec.version, checksum: rec.checksum },
            ),
            ..st.disk
        },
        locks: st.locks.push(rec.id),
    }
}

/// The commit transition: the staged artifact moves into its final
/// directory, the bin symlink is replaced, the installed row is
/// upserted, and the lock is released.
pub open spec fn commit_apply(st: StView, rec: RecView, o: OptView) -> StView {
    let art = ArtView { id: rec.id, version: rec.version, checksum: rec.checksum };
    StView {
        db: DbView {
            tables: st.db.tables,
            installed: remove_id(st.db.installed, rec.id).push(new_row_view(rec, o)),
        },
        disk: DiskView {
            artifacts: remove_art(st.disk.artifacts, rec.id, rec.version).push(art),
            symlinks: remove_bin(st.disk.symlinks, rec.bin_name).push(
                SlView { bin: rec.bin_name, id: rec.id, version: rec.version },
            ),
            staged: remove_art(st.disk.staged, rec.id, rec.version),
            shards: st.disk.shards,
        },
        locks: remove_lock(st.locks, rec.id),
    }
}

/// A staged, checksum-verified install, ready to commit.
pub struct StagedInstall {
    pub record: PackageRecord,
    pub opts: InstallOptions,
}

/// Copies the options, preserving their view.
pub fn clone_options(o: &InstallOptions) -> (r: InstallOptions)
    ensures
        r@ == o@,
{
    InstallOptions {
        force: o.force,
        yes: o.yes,
        no_notes: o.no_notes,
        binary_only: o.binary_only,
        ask: o.ask,
        portable: crate::db::copy_opt(&o.portable),
        portable_home: crate::db::copy_opt(&o.portable_home),
        portable_config: crate::db::copy_opt(&o.portable_config),
        portable_share: crate::db::copy_opt(&o.portable_share),
        profile: copy_vec(&o.profile),
        installed_at: o.installed_at,
    }
}

/// Whether a byte string is among the held locks.
fn holds_lock(locks: &Vec<Vec<u8>>, id: &Vec<u8>) -> (r: bool)
    ensures
        r == seq_views(locks@).contains(id@),
{
    let mut i: usize = 0;
    while i < locks.len()
        invariant
            i <= locks@.len(),
            forall|k: int| 0 <= k < i ==> seq_views(locks@)[k] != id@,
        decreases locks@.len() - i,
    {
        proof {
            assert(seq_views(locks@)[i as int] == locks@[i as int]@);
        }
        if bytes_eq(&locks[i], id) {
            proof {
                assert(seq_views(locks@)[i as int] == id@);
            }
            return true;
        }
        i += 1;
    }
    proof {
        assert(forall|k: int|
            0 <= k < seq_views(locks@).len() ==> seq_views(locks@)[k] != id@);
    }
    false
}

impl SystemState {
    /// A fresh state with an empty store, an empty disk and no locks.
    pub fn new() -> (r: SystemState)
        ensures
            r@.db.tables.len() == 0,
            r@.db.installed.len() == 0,
            r@.disk.artifacts.len() == 0,
            r@.disk.symlinks.len() == 0,
            r@.disk.staged.len() == 0,
            r@.disk.shards.len() == 0,
            r@.locks.len() == 0,
            st_wf(r@),
    {
        SystemState {
            db: PackageDatabase::new(),
            disk: DiskState {
                artifacts: Vec::new(),
                symlinks: Vec::new(),
                staged: Vec::new(),
                shards: Vec::new(),
            },
            locks: Vec::new(),
        }
    }

    /// First phase of an install: validates the request, resolves the
    /// reference, short-circuits when the same version is already
    /// installed, takes the per-package lock, and stages the fetched,
    /// checksum-verified artifact. On any error the state is unchanged.
    pub fn install_begin(
        &mut self,
        q: &PkgRef,
        fetched: &FetchOutcome,
        opts: &InstallOptions,
    ) -> (r: Result<StagedInstall, SoarError>)
        ensures
            ({
                let oc = begin_outcome(old(self)@, q@, fetched@, opts@);
                match r {
                    Ok(b) => oc is Ok && b.record@ == oc.unwrap() && b.opts@ == opts@
                        && final(self)@ == begin_apply(old(self)@, oc.unwrap()),
                    Err(e) => oc == Err::<RecView, SoarError>(e) && final(self)@ == old(
                        self,
                    )@,
                }
            }),
    {
        if opts.portable.is_some() && (opts.portable_home.is_some()
            || opts.portable_config.is_some() || opts.portable_share.is_some()) {
            return Err(SoarError::PortableConflict);
        }
        let rec = match self.db.resolve(q) {
            Ok(rec) => rec,
            Err(e) => {
                return Err(e);
            },
        };
        let already: bool = match self.db.find_installed(&rec.pkg_id) {
            Some(ip) => bytes_eq(&ip.version, &rec.version),
            None => false,
        };
        if already && !opts.force {
            return Err(SoarError::AlreadyInstalled);
        }
        if holds_lock(&self.locks, &rec.pkg_id) {
            return Err(SoarError::LockContention);
        }
        match fetched {
            FetchOutcome::NetFailed => Err(SoarError::Network),
            FetchOutcome::HttpFailed(s) => Err(SoarError::HttpStatus(*s)),
            FetchOutcome::Fetched(sum) => {
                if !bytes_eq(sum, &rec.checksum) {
                    return Err(SoarError::ChecksumMismatch);
                }
                let ghost old_locks = self.locks@;
                let ghost old_staged = self.disk.staged@;
                self.locks.push(copy_vec(&rec.pkg_id));
                self.disk.staged.push(
                    ArtifactRef {
                        pkg_id: copy_vec(&rec.pkg_id),
                        version: copy_vec(&rec.version),
                        checksum: copy_vec(&rec.checksum),
                    },
                );
                proof {
                    assert(seq_views(self.locks@) =~= seq_views(old_locks).push(
                        rec.pkg_id@,
                    ));
                    assert(art_views(self.disk.staged@) =~= art_views(old_staged).push(
                        ArtView {
                            id: rec.pkg_id@,
                            version: rec.version@,
                            checksum: rec.checksum@,
                        },
                    ));
                }
                let opts2 = clone_options(opts);
                Ok(StagedInstall { record: rec, opts: opts2 })
            },
        }
    }
}

/// An artifact directory for `(id, ver)` is present, executably.
fn has_artifact(arts: &Vec<ArtifactRef>, id: &Vec<u8>, ver: &Vec<u8>) -> (r: bool)
    ensures
        r == has_art(art_views(arts@), id@, ver@),
{
    let mut i: usize = 0;
    while i < arts.len()
        invariant
            i <= arts@.len(),
            forall|k: int|
                0 <= k < i ==> !(art_views(arts@)[k].id == id@ && art_views(arts@)[
                    k
                ].version == ver@),
        decreases arts@.len() - i,
    {
        proof {
            assert(art_views(arts@)[i as int] == arts@[i as int]@);
        }
        if bytes_eq(&arts[i].pkg_id, id) && bytes_eq(&arts[i].version, ver) {
            return true;
        }
        i += 1;
    }
    false
}

/// Copies an artifact reference, preserving its view.
fn clone_art(a: &ArtifactRef) -> (r: ArtifactRef)
    ensures
        r@ == a@,
{
    ArtifactRef {
        pkg_id: copy_vec(&a.pkg_id),
        version: copy_vec(&a.version),
        checksum: copy_vec(&a.checksum),
    }
}

/// Copies a symlink reference, preserving its view.
fn clone_link(a: &SymlinkRef) -> (r: SymlinkRef)
    ensures
        r@ == a@,
{
    SymlinkRef {
        bin_name: copy_vec(&a.bin_name),
        pkg_id: copy_vec(&a.pkg_id),
        version: copy_vec(&a.version),
    }
}

/// Deletes the symlinks under the name `bin`.
fn remove_bin_links(sls: &mut Vec<SymlinkRef>, bin: &Vec<u8>)
    ensures
        sl_views(final(sls)@) == remove_bin(sl_views(old(sls)@), bin@),
{
    let ghost sv = sl_views(sls@);
    let mut out: Vec<SymlinkRef> = Vec::new();
    let mut i: usize = 0;
    proof {
        assert(sv.take(0) =~= Seq::<SlView>::empty());
        assert(sl_views(out@) =~= remove_bin(sv.take(0), bin@));
    }
    while i < sls.len()
        invariant
            i <= sls@.len(),
            sv == sl_views(sls@),
            sl_views(out@) == remove_bin(sv.take(i as int), bin@),
        decreases sls@.len() - i,
    {
        proof {
            assert(sv.take(i + 1).drop_last() =~= sv.take(i as int));
            assert(sv.take(i + 1).last() == sls@[i as int]@);
            assert(sv[i as int] == sls@[i as int]@);
        }
        if !bytes_eq(&sls[i].bin_name, bin) {
            let ghost old_out = out@;
            let c = clone_link(&sls[i]);
            out.push(c);
            proof {
                assert(sl_views(out@) =~= sl_views(old_out).push(sls@[i as int]@));
            }
        }
        i += 1;
    }
    proof {
        assert(sv.take(sls@.len() as int) =~= sv);
    }
    *sls = out;
}

/// Deletes the symlinks pointing at package `id`.
fn remove_pkg_links_exec(sls: &mut Vec<SymlinkRef>, id: &Vec<u8>)
    ensures
        sl_views(final(sls)@) == remove_pkg_links(sl_views(old(sls)@), id@),
{
    let ghost sv = sl_views(sls@);
    let mut out: Vec<SymlinkRef> = Vec::new();
    let mut i: usize = 0;
    proof {
        assert(sv.take(0) =~= Seq::<SlView>::empty());
        assert(sl_views(out@) =~= remove_pkg_links(sv.take(0), id@));
    }
    while i < sls.len()
        invariant
            i <= sls@.len(),
            sv == sl_views(sls@),
            sl_views(out@) == remove_pkg_links(sv.take(i as int), id@),
        decreases sls@.len() - i,
    {
        proof {
            assert(sv.take(i + 1).drop_last() =~= sv.take(i as int));
            assert(sv.take(i + 1).last() == sls@[i as int]@);
            assert(sv[i as int] == sls@[i as int]@);
        }
        if !bytes_eq(&sls[i].pkg_id, id) {
            let ghost old_out = out@;
            let c = clone_link(&sls[i]);
            out.push(c);
            proof {
                assert(sl_views(out@) =~= sl_views(old_out).push(sls@[i as int]@));
            }
        }
        i += 1;
    }
    proof {
        assert(sv.take(sls@.len() as int) =~= sv);
    }
    *sls = out;
}

/// Deletes the artifacts of the pair `(id, ver)`.
fn remove_art_exec(arts: &mut Vec<ArtifactRef>, id: &Vec<u8>, ver: &Vec<u8>)
    ensures
        art_views(final(arts)@) == remove_art(art_views(old(arts)@), id@, ver@),
{
    let ghost av = art_views(arts@);
    let mut out: Vec<ArtifactRef> = Vec::new();
    let mut i: usize = 0;
    proof {
        assert(av.take(0) =~= Seq::<ArtView>::empty());
        assert(art_views(out@) =~= remove_art(av.take(0), id@, ver@));
    }
    while i < arts.len()
        invariant
            i <= arts@.len(),
            av == art_views(arts@),
            art_views(out@) == remove_art(av.take(i as int), id@, ver@),
        decreases arts@.len() - i,
    {
        proof {
            assert(av.take(i + 1).drop_last() =~= av.take(i as int));
            assert(av.take(i + 1).last() == arts@[i as int]@);
            assert(av[i as int] == arts@[i as int]@);
        }
        if !(bytes_eq(&arts[i].pkg_id, id) && bytes_eq(&arts[i].version, ver)) {
            let ghost old_out = out@;
            let c = clone_art(&arts[i]);
            out.push(c);
            proof {
                assert(art_views(out@) =~= art_views(old_out).push(arts@[i as int]@));
            }
        }
        i += 1;
    }
    proof {
        assert(av.take(arts@.len() as int) =~= av);
    }
    *arts = out;
}

/// Deletes every artifact of package `id`.
fn remove_pkg_arts_exec(arts: &mut Vec<ArtifactRef>, id: &Vec<u8>)
    ensures
        art_views(final(arts)@) == remove_pkg_arts(art_views(old(arts)@), id@),
{
    let ghost av = art_views(arts@);
    let mut out: Vec<ArtifactRef> = Vec::new();
    let mut i: usize = 0;
    proof {
        assert(av.take(0) =~= Seq::<ArtView>::empty());
        assert(art_views(out@) =~= remove_pkg_arts(av.take(0), id@));
    }
    while i < arts.len()
        invariant
            i <= arts@.len(),
            av == art_views(arts@),
            art_views(out@) == remove_pkg_arts(av.take(i as int), id@),
        decreases arts@.len() - i,
    {
        proof {
            assert(av.take(i + 1).drop_last() =~= av.take(i as int));
            assert(av.take(i + 1).last() == arts@[i as int]@);
            assert(av[i as int] == arts@[i as int]@);
        }
        if !bytes_eq(&arts[i].pkg_id, id) {
            let ghost old_out = out@;
            let c = clone_art(&arts[i]);
            out.push(c);
            proof {
                assert(art_views(out@) =~= art_views(old_out).push(arts@[i as int]@));
            }
        }
        i += 1;
    }
    proof {
        assert(av.take(arts@.len() as int) =~= av);
    }
    *arts = out;
}

/// Releases the lock entries for `id`.
fn release_lock(locks: &mut Vec<Vec<u8>>, id: &Vec<u8>)
    ensures
        seq_views(final(locks)@) == remove_lock(seq_views(old(locks)@), id@),
{
    let ghost lv = seq_views(locks@);
    let mut out: Vec<Vec<u8>> = Vec::new();
    let mut i: usize = 0;
    proof {
        assert(lv.take(0) =~= Seq::<Seq<u8>>::empty());
        assert(seq_views(out@) =~= remove_lock(lv.take(0), id@));
    }
    while i < locks.len()
        invariant
            i <= locks@.len(),
            lv == seq_views(locks@),
            seq_views(out@) == remove_lock(lv.take(i as int), id@),
        decreases locks@.len() - i,
    {
        proof {
            assert(lv.take(i + 1).drop_last() =~= lv.take(i as int));
            assert(lv.take(i + 1).last() == locks@[i as int]@);
            assert(lv[i as int] == locks@[i as int]@);
        }
        if !bytes_eq(&locks[i], id) {
            let ghost old_out = out@;
            let c = copy_vec(&locks[i]);
            out.push(c);
            proof {
                assert(seq_views(out@) =~= seq_views(old_out).push(locks@[i as int]@));
            }
        }
        i += 1;
    }
    proof {
        assert(lv.take(locks@.len() as int) =~= lv);
    }
    *locks = out;
}

impl SystemState {
    /// Second phase of an install: publishes the staged artifact by an
    /// atomic rename, replaces the bin symlink, commits the installed
    /// row, and releases the lock — in that order, so that the row
    /// appears only once the filesystem is fully populated.
    pub fn install_commit(&mut self, staged: StagedInstall)
        ensures
            final(self)@ == commit_apply(old(self)@, staged.record@, staged.opts@),
    {
        let rec = &staged.record;
        remove_art_exec(&mut self.disk.artifacts, &rec.pkg_id, &rec.version);
        let ghost mid_arts = self.disk.artifacts@;
        self.disk.artifacts.push(
            ArtifactRef {
                pkg_id: copy_vec(&rec.pkg_id),
                version: copy_vec(&rec.version),
                checksum: copy_vec(&rec.checksum),
            },
        );
        proof {
            assert(art_views(self.disk.artifacts@) =~= art_views(mid_arts).push(
                ArtView { id: rec.pkg_id@, version: rec.version@, checksum: rec.checksum@ },
            ));
        }
        remove_bin_links(&mut self.disk.symlinks, &rec.bin_name);
        let ghost mid_links = self.disk.symlinks@;
        self.disk.symlinks.push(
            SymlinkRef {
                bin_name: copy_vec(&rec.bin_name),
                pkg_id: copy_vec(&rec.pkg_id),
                version: copy_vec(&rec.version),
            },
        );
        proof {
            assert(sl_views(self.disk.symlinks@) =~= sl_views(mid_links).push(
                SlView { bin: rec.bin_name@, id: rec.pkg_id@, version: rec.version@ },
            ));
        }
        remove_art_exec(&mut self.disk.staged, &rec.pkg_id, &rec.version);
        let row = InstalledPackage {
            pkg_id: copy_vec(&rec.pkg_id),
            repo_name: copy_vec(&rec.repo_name),
            version: copy_vec(&rec.version),
            checksum: copy_vec(&rec.checksum),
            bin_name: copy_vec(&rec.bin_name),
            profile: copy_vec(&staged.opts.profile),
            portable_base: crate::db::copy_opt(&staged.opts.portable),
            portable_home: crate::db::copy_opt(&staged.opts.portable_home),
            portable_config: crate::db::copy_opt(&staged.opts.portable_config),
            portable_share: crate::db::copy_opt(&staged.opts.portable_share),
            installed_at: staged.opts.installed_at,
        };
        proof {
            assert(row@ == new_row_view(staged.record@, staged.opts@));
        }
        self.db.record_install(row);
        release_lock(&mut self.locks, &rec.pkg_id);
    }

    /// Aborts a staged install: the staged artifact is dropped and the
    /// lock released; nothing authoritative changes.
    pub fn install_abort(&mut self, staged: StagedInstall)
        ensures
            final(self)@.db == old(self)@.db,
            final(self)@.disk.artifacts == old(self)@.disk.artifacts,
            final(self)@.disk.symlinks == old(self)@.disk.symlinks,
            final(self)@.disk.shards == old(self)@.disk.shards,
            final(self)@.disk.staged == remove_art(
                old(self)@.disk.staged,
                staged.record@.id,
                staged.record@.version,
            ),
            final(self)@.locks == remove_lock(old(self)@.locks, staged.record@.id),
    {
        remove_art_exec(&mut self.disk.staged, &staged.record.pkg_id, &staged.record.version);
        release_lock(&mut self.locks, &staged.record.pkg_id);
    }
}

/// The one-shot install transition: begin then commit, or no change.
pub open spec fn install_apply(st: StView, q: RefView, f: FetchView, o: OptView) -> StView {
    match begin_outcome(st, q, f, o) {
        Ok(rec) => commit_apply(begin_apply(st, rec), rec, o),
        Err(_) => st,
    }
}

/// Removal classification: the package lock must be free and the
/// package installed.
pub open spec fn remove_outcome(st: StView, id: Seq<u8>) -> Result<(), SoarError> {
    if st.locks.contains(id) {
        Err(SoarError::LockContention)
    } else if find_inst(st.db.installed, id) is None {
        Err(SoarError::PackageNotFound)
    } else {
        Ok(())
    }
}

/// The removal transition: symlinks, then the install tree, then the
/// database row — so an interruption leaves at worst an orphaned path
/// with no row, never a row pointing at nothing.
pub open spec fn remove_apply(st: StView, id: Seq<u8>) -> StView {
    if remove_outcome(st, id) is Ok {
        StView {
            db: DbView { tables: st.db.tables, installed: remove_id(st.db.installed, id) },
            disk: DiskView {
                artifacts: remove_pkg_arts(st.disk.artifacts, id),
                symlinks: remove_pkg_links(st.disk.symlinks, id),
                staged: st.disk.staged,
                shards: st.disk.shards,
            },
            locks: st.locks,
        }
    } else {
        st
    }
}

impl SystemState {
    /// Installs in one step: begin, then commit. On any error the state
    /// is unchanged; on success the record that was installed is
    /// returned.
    pub fn install(
        &mut self,
        q: &PkgRef,
        fetched: &FetchOutcome,
        opts: &InstallOptions,
    ) -> (r: Result<PackageRecord, SoarError>)
        ensures
            ({
                let oc = begin_outcome(old(self)@, q@, fetched@, opts@);
                match r {
                    Ok(rec) => oc == Ok::<RecView, SoarError>(rec@),
                    Err(e) => oc == Err::<RecView, SoarError>(e),
                }
            }),
            final(self)@ == install_apply(old(self)@, q@, fetched@, opts@),
    {
        match self.install_begin(q, fetched, opts) {
            Ok(staged) => {
                let rec = clone_record(&staged.record);
                self.install_commit(staged);
                Ok(rec)
            },
            Err(e) => Err(e),
        }
    }

    /// Removes an installed package: its symlinks, its install trees,
    /// then its database row.
    pub fn remove_pkg(&mut self, id: &Vec<u8>) -> (r: Result<(), SoarError>)
        ensures
            r == remove_outcome(old(self)@, id@),
            final(self)@ == remove_apply(old(self)@, id@),
    {
        if holds_lock(&self.locks, id) {
            return Err(SoarError::LockContention);
        }
        let found = match self.db.find_installed(id) {
            Some(_) => true,
            None => false,
        };
        if !found {
            return Err(SoarError::PackageNotFound);
        }
        remove_pkg_links_exec(&mut self.disk.symlinks, id);
        remove_pkg_arts_exec(&mut self.disk.artifacts, id);
        self.db.remove_install(id);
        Ok(())
    }
}

/// How many artifacts of `id` at versions other than `cur` are on
/// disk, executably.
fn count_prev_exec(arts: &Vec<ArtifactRef>, id: &Vec<u8>, cur: &Vec<u8>) -> (r: usize)
    ensures
        r as nat == count_prev(art_views(arts@), id@, cur@),
{
    let ghost av = art_views(arts@);
    let mut c: usize = 0;
    let mut i: usize = 0;
    proof {
        assert(av.skip(0) =~= av);
    }
    while i < arts.len()
        invariant
            i <= arts@.len(),
            av == art_views(arts@),
            c <= i,
            count_prev(av, id@, cur@) == c + count_prev(av.skip(i as int), id@, cur@),
        decreases arts@.len() - i,
    {
        proof {
            assert(av.skip(i as int)[0] == av[i as int]);
            assert(av.skip(i as int).drop_first() =~= av.skip(i as int + 1));
            assert(av[i as int] == arts@[i as int]@);
        }
        if bytes_eq(&arts[i].pkg_id, id) && !bytes_eq(&arts[i].version, cur) {
            c += 1;
        }
        i += 1;
    }
    proof {
        assert(av.skip(arts@.len() as int) =~= Seq::<ArtView>::empty());
    }
    c
}

/// Drops the `drop_n` oldest artifacts of `id` at versions other than
/// `cur`.
fn prune_arts_exec(arts: &mut Vec<ArtifactRef>, id: &Vec<u8>, cur: &Vec<u8>, drop_n: usize)
    ensures
        art_views(final(arts)@) == prune_arts(
            art_views(old(arts)@),
            id@,
            cur@,
            drop_n as nat,
        ),
{
    let ghost av = art_views(arts@);
    let mut out: Vec<ArtifactRef> = Vec::new();
    let mut d: usize = drop_n;
    let mut i: usize = 0;
    proof {
        assert(av.skip(0) =~= av);
        assert(art_views(out@) + prune_arts(av, id@, cur@, drop_n as nat) =~= prune_arts(
            av,
            id@,
            cur@,
            drop_n as nat,
        ));
    }
    while i < arts.len()
        invariant
            i <= arts@.len(),
            av == art_views(arts@),
            d <= drop_n,
            prune_arts(av, id@, cur@, drop_n as nat) == art_views(out@) + prune_arts(
                av.skip(i as int),
                id@,
                cur@,
                d as nat,
            ),
        decreases arts@.len() - i,
    {
        proof {
            assert(av.skip(i as int)[0] == av[i as int]);
            assert(av.skip(i as int).drop_first() =~= av.skip(i as int + 1));
            assert(av[i as int] == arts@[i as int]@);
        }
        if bytes_eq(&arts[i].pkg_id, id) && !bytes_eq(&arts[i].version, cur) && d > 0 {
            d -= 1;
        } else {
            let ghost old_out = out@;
            let c = clone_art(&arts[i]);
            out.push(c);
            proof {
                assert(art_views(out@) =~= art_views(old_out).push(av[i as int]));
                assert(art_views(old_out).push(av[i as int]) + prune_arts(
                    av.skip(i as int + 1),
                    id@,
                    cur@,
                    d as nat,
                ) =~= art_views(old_out) + (seq![av[i as int]] + prune_arts(
                    av.skip(i as int + 1),
                    id@,
                    cur@,
                    d as nat,
                )));
            }
        }
        i += 1;
    }
    proof {
        assert(av.skip(arts@.len() as int) =~= Seq::<ArtView>::empty());
        assert(art_views(out@) + Seq::<ArtView>::empty() =~= art_views(out@));
    }
    *arts = out;
}

/// Update classification, in check order: portable conflict, the
/// installed row, the synced record of that row's repository, the
/// version comparison (equal versions are up to date and change
/// nothing), the lock, then the transfer outcome and its checksum.
pub open spec fn update_outcome(st: StView, id: Seq<u8>, f: FetchView, o: OptView) -> Result<
    bool,
    SoarError,
> {
    if portable_conflict(o) {
        Err(SoarError::PortableConflict)
    } else {
        match find_inst(st.db.installed, id) {
            None => Err(SoarError::PackageNotFound),
            Some(row) => {
                let ms = matching_recs(
                    all_recs(st.db.tables),
                    RefView { repo: Some(row.repo), id: id },
                );
                if ms.len() == 0 {
                    Err(SoarError::PackageNotFound)
                } else if ms.len() > 1 {
                    Err(SoarError::AmbiguousPackage)
                } else if ms[0].version == row.version {
                    Ok(false)
                } else if st.locks.contains(id) {
                    Err(SoarError::LockContention)
                } else {
                    match f {
                        FetchView::NetFailed => Err(SoarError::Network),
                        FetchView::HttpFailed(s) => Err(SoarError::HttpStatus(s)),
                        FetchView::Fetched(sum) => if sum != ms[0].checksum {
                            Err(SoarError::ChecksumMismatch)
                        } else {
                            Ok(true)
                        },
                    }
                }
            },
        }
    }
}

/// How many old artifacts the retention policy drops.
pub open spec fn update_drop_count(
    arts: Seq<ArtView>,
    id: Seq<u8>,
    cur: Seq<u8>,
    keep: usize,
) -> nat {
    if count_prev(arts, id, cur) > keep {
        (count_prev(arts, id, cur) - keep) as nat
    } else {
        0
    }
}

/// The update transition: the commit of the new version, then pruning
/// of old artifacts down to `keep` — only after the new row is
/// committed, so an interrupted update never leaves zero working
/// versions.
pub open spec fn update_apply(
    st: StView,
    id: Seq<u8>,
    f: FetchView,
    o: OptView,
    keep: usize,
) -> StView {
    if update_outcome(st, id, f, o) == Ok::<bool, SoarError>(true) {
        let row = find_inst(st.db.installed, id).unwrap();
        let ms = matching_recs(all_recs(st.db.tables), RefView { repo: Some(row.repo), id: id });
        let rec = ms[0];
        let st1 = commit_apply(st, rec, o);
        let dn = update_drop_count(st1.disk.artifacts, id, rec.version, keep);
        StView {
            db: st1.db,
            disk: DiskView {
                artifacts: prune_arts(st1.disk.artifacts, id, rec.version, dn),
                ..st1.disk
            },
            locks: st1.locks,
        }
    } else {
        st
    }
}

impl SystemState {
    /// Updates one installed package against the synced metadata of its
    /// own repository. `Ok(false)` means it was already up to date (and
    /// nothing changed); `Ok(true)` means the new version was committed
    /// and old artifacts beyond `keep` were pruned.
    pub fn update_pkg(
        &mut self,
        id: &Vec<u8>,
        fetched: &FetchOutcome,
        opts: &InstallOptions,
        keep: usize,
    ) -> (r: Result<bool, SoarError>)
        ensures
            r == update_outcome(old(self)@, id@, fetched@, opts@),
            final(self)@ == update_apply(old(self)@, id@, fetched@, opts@, keep),
    {
        if opts.portable.is_some() && (opts.portable_home.is_some()
            || opts.portable_config.is_some() || opts.portable_share.is_some()) {
            return Err(SoarError::PortableConflict);
        }
        let (row_repo, row_version) = match self.db.find_installed(id) {
            Some(row) => (copy_vec(&row.repo_name), copy_vec(&row.version)),
            None => {
                return Err(SoarError::PackageNotFound);
            },
        };
        let qr = PkgRef { repo: Some(row_repo), pkg_id: copy_vec(id) };
        let rec = match self.db.resolve(&qr) {
            Ok(rec) => rec,
            Err(e) => {
                return Err(e);
            },
        };
        if bytes_eq(&rec.version, &row_version) {
            return Ok(false);
        }
        if holds_lock(&self.locks, id) {
            return Err(SoarError::LockContention);
        }
        match fetched {
            FetchOutcome::NetFailed => Err(SoarError::Network),
            FetchOutcome::HttpFailed(s) => Err(SoarError::HttpStatus(*s)),
            FetchOutcome::Fetched(sum) => {
                if !bytes_eq(sum, &rec.checksum) {
                    return Err(SoarError::ChecksumMismatch);
                }
                let cur = copy_vec(&rec.version);
                let opts2 = clone_options(opts);
                self.install_commit(StagedInstall { record: rec, opts: opts2 });
                let n_prev = count_prev_exec(&self.disk.artifacts, id, &cur);
                let dn: usize = if n_prev > keep {
                    n_prev - keep
                } else {
                    0
                };
                prune_arts_exec(&mut self.disk.artifacts, id, &cur, dn);
                Ok(true)
            },
        }
    }
}

/// What the health check found for one installed row.
#[derive(Clone, Copy, PartialEq, Eq, Structural, Debug)]
pub enum HealthStatus {
    Healthy,
    MissingArtifact,
    ChecksumDrift,
    BrokenLink,
}

/// The recorded content checksum of the first artifact directory for
/// `(id, ver)`, if one exists.
pub open spec fn art_sum(arts: Seq<ArtView>, id: Seq<u8>, ver: Seq<u8>) -> Option<Seq<u8>>
    decreases arts.len(),
{
    if arts.len() == 0 {
        None
    } else if arts[0].id == id && arts[0].version == ver {
        Some(arts[0].checksum)
    } else {
        art_sum(arts.drop_first(), id, ver)
    }
}

/// Classification of one installed row against the filesystem: a
/// missing install tree, content that no longer matches the recorded
/// checksum, a missing or wrong bin symlink, or healthy.
pub open spec fn classify(st: StView, ip: IpView) -> HealthStatus {
    if !has_art(st.disk.artifacts, ip.id, ip.version) {
        HealthStatus::MissingArtifact
    } else if art_sum(st.disk.artifacts, ip.id, ip.version) != Some(ip.checksum) {
        HealthStatus::ChecksumDrift
    } else if !has_link(st.disk.symlinks, ip.bin_name, ip.id, ip.version) {
        HealthStatus::BrokenLink
    } else {
        HealthStatus::Healthy
    }
}

/// `art_sum` returns the checksum at the first matching index.
proof fn lemma_art_sum_index(arts: Seq<ArtView>, id: Seq<u8>, ver: Seq<u8>, i: int)
    requires
        0 <= i < arts.len(),
        forall|k: int| 0 <= k < i ==> !(arts[k].id == id && arts[k].version == ver),
        arts[i].id == id && arts[i].version == ver,
    ensures
        art_sum(arts, id, ver) == Some(arts[i].checksum),
    decreases i,
{
    if i > 0 {
        lemma_art_sum_index(arts.drop_first(), id, ver, i - 1);
    }
}

/// Without a matching artifact, `art_sum` finds nothing.
proof fn lemma_art_sum_none(arts: Seq<ArtView>, id: Seq<u8>, ver: Seq<u8>)
    requires
        forall|k: int| 0 <= k < arts.len() ==> !(arts[k].id == id && arts[k].version == ver),
    ensures
        art_sum(arts, id, ver) is None,
    decreases arts.len(),
{
    if arts.len() > 0 {
        lemma_art_sum_none(arts.drop_first(), id, ver);
    }
}

/// The recorded checksum of the artifact for `(id, ver)`, executably.
fn find_art_sum(arts: &Vec<ArtifactRef>, id: &Vec<u8>, ver: &Vec<u8>) -> (r: Option<
    Vec<u8>,
>)
    ensures
        match r {
            Some(c) => art_sum(art_views(arts@), id@, ver@) == Some(c@),
            None => art_sum(art_views(arts@), id@, ver@) is None,
        },
{
    let mut i: usize = 0;
    while i < arts.len()
        invariant
            i <= arts@.len(),
            forall|k: int|
                0 <= k < i ==> !(art_views(arts@)[k].id == id@ && art_views(arts@)[
                    k
                ].version == ver@),
        decreases arts@.len() - i,
    {
        proof {
            assert(art_views(arts@)[i as int] == arts@[i as int]@);
        }
        if bytes_eq(&arts[i].pkg_id, id) && bytes_eq(&arts[i].version, ver) {
            proof {
                lemma_art_sum_index(art_views(arts@), id@, ver@, i as int);
            }
            return Some(copy_vec(&arts[i].checksum));
        }
        i += 1;
    }
    proof {
        lemma_art_sum_none(art_views(arts@), id@, ver@);
    }
    None
}

/// The installed rows whose artifact directory exists.
pub open spec fn repair_rows(inst: Seq<IpView>, arts: Seq<ArtView>) -> Seq<IpView>
    decreases inst.len(),
{
    if inst.len() == 0 {
        Seq::<IpView>::empty()
    } else {
        let rest = repair_rows(inst.drop_last(), arts);
        if has_art(arts, inst.last().id, inst.last().version) {
            rest.push(inst.last())
        } else {
            rest
        }
    }
}

/// The symlinks whose target artifact exists.
pub open spec fn live_links(sls: Seq<SlView>, arts: Seq<ArtView>) -> Seq<SlView>
    decreases sls.len(),
{
    if sls.len() == 0 {
        Seq::<SlView>::empty()
    } else {
        let rest = live_links(sls.drop_last(), arts);
        if has_art(arts, sls.last().id, sls.last().version) {
            rest.push(sls.last())
        } else {
            rest
        }
    }
}

/// The repair transition: rows without an install tree and symlinks
/// without a target are dropped; nothing else changes.
pub open spec fn repair_apply(st: StView) -> StView {
    StView {
        db: DbView {
            tables: st.db.tables,
            installed: repair_rows(st.db.installed, st.disk.artifacts),
        },
        disk: DiskView { symlinks: live_links(st.disk.symlinks, st.disk.artifacts), ..st.disk },
        locks: st.locks,
    }
}

/// A symlink for `(bin, id, ver)` is present, executably.
fn has_link_exec(sls: &Vec<SymlinkRef>, bin: &Vec<u8>, id: &Vec<u8>, ver: &Vec<u8>) -> (r:
    bool)
    ensures
        r == has_link(sl_views(sls@), bin@, id@, ver@),
{
    let mut i: usize = 0;
    while i < sls.len()
        invariant
            i <= sls@.len(),
            forall|k: int|
                0 <= k < i ==> !(sl_views(sls@)[k].bin == bin@ && sl_views(sls@)[k].id == id@
                    && sl_views(sls@)[k].version == ver@),
        decreases sls@.len() - i,
    {
        proof {
            assert(sl_views(sls@)[i as int] == sls@[i as int]@);
        }
        if bytes_eq(&sls[i].bin_name, bin) && bytes_eq(&sls[i].pkg_id, id) && bytes_eq(
            &sls[i].version,
            ver,
        ) {
            return true;
        }
        i += 1;
    }
    false
}

impl SystemState {
    /// Classifies every installed row: healthy, missing its install
    /// tree, or with a missing/incorrect bin symlink.
    pub fn check_health(&self) -> (r: Vec<HealthStatus>)
        ensures
            r@.len() == self@.db.installed.len(),
            forall|k: int|
                0 <= k < r@.len() ==> r@[k] == classify(self@, self@.db.installed[k]),
    {
        let mut out: Vec<HealthStatus> = Vec::new();
        let mut i: usize = 0;
        while i < self.db.installed.len()
            invariant
                i <= self.db.installed@.len(),
                out@.len() == i,
                forall|k: int|
                    0 <= k < i ==> out@[k] == classify(self@, self@.db.installed[k]),
            decreases self.db.installed@.len() - i,
        {
            proof {
                assert(self@.db.installed[i as int] == self.db.installed@[i as int]@);
            }
            let ip = &self.db.installed[i];
            let drift: bool = match find_art_sum(&self.disk.artifacts, &ip.pkg_id, &ip.version) {
                Some(c) => !bytes_eq(&c, &ip.checksum),
                None => true,
            };
            let s: HealthStatus = if !has_artifact(&self.disk.artifacts, &ip.pkg_id, &ip.version) {
                HealthStatus::MissingArtifact
            } else if drift {
                HealthStatus::ChecksumDrift
            } else if !has_link_exec(&self.disk.symlinks, &ip.bin_name, &ip.pkg_id, &ip.version) {
                HealthStatus::BrokenLink
            } else {
                HealthStatus::Healthy
            };
            out.push(s);
            i += 1;
        }
        out
    }

    /// Reconciles drift: deletes rows whose install tree no longer
    /// exists and symlinks pointing at nonexistent targets, without
    /// prompting. The only path that deletes rows outside the removal
    /// engine.
    pub fn repair(&mut self)
        ensures
            final(self)@ == repair_apply(old(self)@),
    {
        let ghost iv = ip_views(self.db.installed@);
        let ghost avv = art_views(self.disk.artifacts@);
        let mut keep_rows: Vec<InstalledPackage> = Vec::new();
        let mut i: usize = 0;
        proof {
            assert(iv.take(0) =~= Seq::<IpView>::empty());
            assert(ip_views(keep_rows@) =~= repair_rows(iv.take(0), avv));
        }
        while i < self.db.installed.len()
            invariant
                i <= self.db.installed@.len(),
                iv == ip_views(self.db.installed@),
                avv == art_views(self.disk.artifacts@),
                ip_views(keep_rows@) == repair_rows(iv.take(i as int), avv),
            decreases self.db.installed@.len() - i,
        {
            proof {
                assert(iv.take(i + 1).drop_last() =~= iv.take(i as int));
                assert(iv.take(i + 1).last() == self.db.installed@[i as int]@);
                assert(iv[i as int] == self.db.installed@[i as int]@);
            }
            let ip = &self.db.installed[i];
            if has_artifact(&self.disk.artifacts, &ip.pkg_id, &ip.version) {
                let ghost old_out = keep_rows@;
                let c = crate::db::clone_installed(ip);
                keep_rows.push(c);
                proof {
                    assert(ip_views(keep_rows@) =~= ip_views(old_out).push(
                        self.db.installed@[i as int]@,
                    ));
                }
            }
            i += 1;
        }
        proof {
            assert(iv.take(self.db.installed@.len() as int) =~= iv);
        }
        self.db.installed = keep_rows;
        let ghost sv = sl_views(self.disk.symlinks@);
        let mut keep_links: Vec<SymlinkRef> = Vec::new();
        let mut j: usize = 0;
        proof {
            assert(sv.take(0) =~= Seq::<SlView>::empty());
            assert(sl_views(keep_links@) =~= live_links(sv.take(0), avv));
        }
        while j < self.disk.symlinks.len()
            invariant
                j <= self.disk.symlinks@.len(),
                sv == sl_views(self.disk.symlinks@),
                avv == art_views(self.disk.artifacts@),
                sl_views(keep_links@) == live_links(sv.take(j as int), avv),
            decreases self.disk.symlinks@.len() - j,
        {
            proof {
                assert(sv.take(j + 1).drop_last() =~= sv.take(j as int));
                assert(sv.take(j + 1).last() == self.disk.symlinks@[j as int]@);
                assert(sv[j as int] == self.disk.symlinks@[j as int]@);
            }
            let sl = &self.disk.symlinks[j];
            if has_artifact(&self.disk.artifacts, &sl.pkg_id, &sl.version) {
                let ghost old_out = keep_links@;
                let c = clone_link(sl);
                keep_links.push(c);
                proof {
                    assert(sl_views(keep_links@) =~= sl_views(old_out).push(
                        self.disk.symlinks@[j as int]@,
                    ));
                }
            }
            j += 1;
        }
        proof {
            assert(sv.take(self.disk.symlinks@.len() as int) =~= sv);
        }
        self.disk.symlinks = keep_links;
    }
}

/// A resolved run request: the record to execute and whether its
/// artifact is already in the ephemeral cache.
pub struct RunPlan {
    pub record: PackageRecord,
    pub cached: bool,
}

impl SystemState {
    /// Resolves a reference for ephemeral execution. Never writes an
    /// installed row or anything else: the state is untouched.
    pub fn plan_run(&self, q: &PkgRef) -> (r: Result<RunPlan, SoarError>)
        ensures
            ({
                let ms = matching_recs(all_recs(self@.db.tables), q@);
                match r {
                    Ok(p) => ms.len() == 1 && p.record@ == ms[0] && p.cached == has_art(
                        self@.disk.staged,
                        ms[0].id,
                        ms[0].version,
                    ),
                    Err(e) => (e == SoarError::PackageNotFound && ms.len() == 0) || (e
                        == SoarError::AmbiguousPackage && ms.len() > 1),
                }
            }),
    {
        let rec = match self.db.resolve(q) {
            Ok(rec) => rec,
            Err(e) => {
                return Err(e);
            },
        };
        let cached = has_artifact(&self.disk.staged, &rec.pkg_id, &rec.version);
        Ok(RunPlan { record: rec, cached })
    }
}

/// Shard files of `repo` removed, order preserved.
pub open spec fn remove_shard(shards: Seq<ShardView>, repo: Seq<u8>) -> Seq<ShardView>
    decreases shards.len(),
{
    if shards.len() == 0 {
        Seq::<ShardView>::empty()
    } else {
        let rest = remove_shard(shards.drop_last(), repo);
        if shards.last().repo == repo {
            rest
        } else {
            rest.push(shards.last())
        }
    }
}

/// Tables of `repo` removed, order preserved.
pub open spec fn remove_table(ts: Seq<crate::db::TableView>, repo: Seq<u8>) -> Seq<
    crate::db::TableView,
>
    decreases ts.len(),
{
    if ts.len() == 0 {
        Seq::<crate::db::TableView>::empty()
    } else {
        let rest = remove_table(ts.drop_last(), repo);
        if ts.last().repo == repo {
            rest
        } else {
            rest.push(ts.last())
        }
    }
}

/// The sync transition for one repository: its table is replaced
/// wholesale by the validated records, and its shard file by the
/// fetched document — the modeled write-temporary-then-rename, under
/// which a concurrent reader sees the old content or the new, never a
/// torn write. Installed rows, artifacts and locks are untouched.
pub open spec fn sync_apply(
    st: StView,
    repo: Seq<u8>,
    recs: Seq<RecView>,
    doc: Seq<u8>,
    now: u64,
) -> StView {
    StView {
        db: DbView {
            tables: remove_table(st.db.tables, repo).push(
                crate::db::TableView { repo: repo, records: recs },
            ),
            installed: st.db.installed,
        },
        disk: DiskView {
            shards: remove_shard(st.disk.shards, repo).push(
                ShardView { repo: repo, content: doc, synced_at: now },
            ),
            ..st.disk
        },
        locks: st.locks,
    }
}

/// Copies a record list, preserving its element views.
fn clone_recs(v: &Vec<PackageRecord>) -> (r: Vec<PackageRecord>)
    ensures
        crate::db::rec_views(r@) == crate::db::rec_views(v@),
{
    let mut out: Vec<PackageRecord> = Vec::new();
    let mut i: usize = 0;
    while i < v.len()
        invariant
            i <= v@.len(),
            out@.len() == i,
            forall|k: int|
                0 <= k < i ==> crate::db::rec_views(out@)[k] == crate::db::rec_views(v@)[k],
        decreases v@.len() - i,
    {
        let c = clone_record(&v[i]);
        out.push(c);
        proof {
            assert(crate::db::rec_views(out@)[i as int] == c@);
            assert(crate::db::rec_views(v@)[i as int] == v@[i as int]@);
        }
        i += 1;
    }
    proof {
        assert(crate::db::rec_views(out@) =~= crate::db::rec_views(v@));
    }
    out
}

/// Deletes the tables named `repo`.
fn remove_table_exec(ts: &mut Vec<crate::db::RepoTable>, repo: &Vec<u8>)
    ensures
        crate::db::table_views(final(ts)@) == remove_table(
            crate::db::table_views(old(ts)@),
            repo@,
        ),
{
    let ghost tv = crate::db::table_views(ts@);
    let mut out: Vec<crate::db::RepoTable> = Vec::new();
    let mut i: usize = 0;
    proof {
        assert(tv.take(0) =~= Seq::<crate::db::TableView>::empty());
        assert(crate::db::table_views(out@) =~= remove_table(tv.take(0), repo@));
    }
    while i < ts.len()
        invariant
            i <= ts@.len(),
            tv == crate::db::table_views(ts@),
            crate::db::table_views(out@) == remove_table(tv.take(i as int), repo@),
        decreases ts@.len() - i,
    {
        proof {
            assert(tv.take(i + 1).drop_last() =~= tv.take(i as int));
            assert(tv.take(i + 1).last() == ts@[i as int]@);
            assert(tv[i as int] == ts@[i as int]@);
        }
        if !bytes_eq(&ts[i].repo_name, repo) {
            let ghost old_out = out@;
            let c = crate::db::RepoTable {
                repo_name: copy_vec(&ts[i].repo_name),
                records: clone_recs(&ts[i].records),
            };
            proof {
                assert(c@ == ts@[i as int]@);
            }
            out.push(c);
            proof {
                assert(crate::db::table_views(out@) =~= crate::db::table_views(
                    old_out,
                ).push(ts@[i as int]@));
            }
        }
        i += 1;
    }
    proof {
        assert(tv.take(ts@.len() as int) =~= tv);
    }
    *ts = out;
}

/// Deletes the shard files of `repo`.
fn remove_shard_exec(shards: &mut Vec<ShardFile>, repo: &Vec<u8>)
    ensures
        shard_views(final(shards)@) == remove_shard(shard_views(old(shards)@), repo@),
{
    let ghost sv = shard_views(shards@);
    let mut out: Vec<ShardFile> = Vec::new();
    let mut i: usize = 0;
    proof {
        assert(sv.take(0) =~= Seq::<ShardView>::empty());
        assert(shard_views(out@) =~= remove_shard(sv.take(0), repo@));
    }
    while i < shards.len()
        invariant
            i <= shards@.len(),
            sv == shard_views(shards@),
            shard_views(out@) == remove_shard(sv.take(i as int), repo@),
        decreases shards@.len() - i,
    {
        proof {
            assert(sv.take(i + 1).drop_last() =~= sv.take(i as int));
            assert(sv.take(i + 1).last() == shards@[i as int]@);
            assert(sv[i as int] == shards@[i as int]@);
        }
        if !bytes_eq(&shards[i].repo_name, repo) {
            let ghost old_out = out@;
            let c = ShardFile {
                repo_name: copy_vec(&shards[i].repo_name),
                content: copy_vec(&shards[i].content),
                synced_at: shards[i].synced_at,
            };
            out.push(c);
            proof {
                assert(shard_views(out@) =~= shard_views(old_out).push(
                    shards@[i as int]@,
                ));
            }
        }
        i += 1;
    }
    proof {
        assert(sv.take(shards@.len() as int) =~= sv);
    }
    *shards = out;
}

impl PackageDatabase {
    /// Replaces all synced rows of one repository transactionally:
    /// afterwards the store holds exactly the given records under that
    /// repository's name, and installed rows are untouched. Either the
    /// whole table is replaced or (on an earlier parse failure) nothing
    /// was called at all — there is no half-replaced table.
    pub fn upsert_repo_packages(&mut self, repo: &Vec<u8>, records: Vec<PackageRecord>)
        ensures
            final(self)@.tables == remove_table(old(self)@.tables, repo@).push(
                crate::db::TableView {
                    repo: repo@,
                    records: crate::db::rec_views(records@),
                },
            ),
            final(self)@.installed == old(self)@.installed,
    {
        let ghost rv = crate::db::rec_views(records@);
        remove_table_exec(&mut self.tables, repo);
        let ghost mid = self.tables@;
        self.tables.push(crate::db::RepoTable { repo_name: copy_vec(repo), records });
        proof {
            assert(crate::db::table_views(self.tables@) =~= crate::db::table_views(
                mid,
            ).push(crate::db::TableView { repo: repo@, records: rv }));
        }
    }
}

/// The outcome of one repository sync: a function of the fetch result
/// and — for a fetched document — of the document bytes and the
/// repository name alone, through [`crate::shard::dec_shard`]. The
/// same document syncs with the same outcome every time.
pub open spec fn sync_outcome(repo: Seq<u8>, f: FetchView) -> Result<(), SoarError> {
    match f {
        FetchView::NetFailed => Err(SoarError::Network),
        FetchView::HttpFailed(s) => Err(SoarError::HttpStatus(s)),
        FetchView::Fetched(doc) => if crate::shard::dec_shard(doc, repo) is Some {
            Ok(())
        } else {
            Err(SoarError::Config)
        },
    }
}

/// The total transition of one repository sync: the table and shard
/// replacement on a decodable document, no change on any failure.
pub open spec fn sync_step(st: StView, repo: Seq<u8>, f: FetchView, now: u64) -> StView {
    match f {
        FetchView::Fetched(doc) => match crate::shard::dec_shard(doc, repo) {
            Some(rv) => sync_apply(st, repo, rv, doc, now),
            None => st,
        },
        FetchView::NetFailed => st,
        FetchView::HttpFailed(_) => st,
    }
}

impl SystemState {
    /// Syncs one repository from its fetched metadata document: the
    /// document is parsed and validated first, and only then are the
    /// table and the shard file atomically replaced. Success exactly
    /// when the document decodes; any failure — transport or schema —
    /// leaves the state unchanged.
    pub fn sync_repo(&mut self, repo: &Vec<u8>, fetched: &FetchOutcome, now: u64) -> (r:
        Result<(), SoarError>)
        ensures
            r == sync_outcome(repo@, fetched@),
            final(self)@ == sync_step(old(self)@, repo@, fetched@, now),
    {
        match fetched {
            FetchOutcome::NetFailed => Err(SoarError::Network),
            FetchOutcome::HttpFailed(s) => Err(SoarError::HttpStatus(*s)),
            FetchOutcome::Fetched(doc) => {
                let recs = match crate::shard::parse_shard(doc, repo) {
                    Ok(recs) => recs,
                    Err(e) => {
                        return Err(e);
                    },
                };
                let ghost rv = crate::db::rec_views(recs@);
                self.db.upsert_repo_packages(repo, recs);
                remove_shard_exec(&mut self.disk.shards, repo);
                let ghost mid_shards = self.disk.shards@;
                self.disk.shards.push(
                    ShardFile {
                        repo_name: copy_vec(repo),
                        content: copy_vec(doc),
                        synced_at: now,
                    },
                );
                proof {
                    assert(shard_views(self.disk.shards@) =~= shard_views(
                        mid_shards,
                    ).push(ShardView { repo: repo@, content: doc@, synced_at: now }));
                }
                Ok(())
            },
        }
    }
}

/// One repository's sync input: its name and its fetched metadata
/// document (or how the fetch failed).
pub struct SyncItem {
    pub repo_name: Vec<u8>,
    pub fetched: FetchOutcome,
}

/// The state after syncing a list of repositories in order, each step
/// independent of the others' outcomes.
pub open spec fn sync_seq(st: StView, items: Seq<SyncItem>, now: u64) -> StView
    decreases items.len(),
{
    if items.len() == 0 {
        st
    } else {
        sync_step(
            sync_seq(st, items.drop_last(), now),
            items.last().repo_name@,
            items.last().fetched@,
            now,
        )
    }
}

impl SystemState {
    /// Syncs every repository independently: a failure of one —
    /// transport or schema — never aborts the others. The result holds
    /// each repository's exact outcome, in input order, and the final
    /// state is the fold of the per-repository sync transitions.
    pub fn sync_all(&mut self, items: &Vec<SyncItem>, now: u64) -> (r: Vec<
        Result<(), SoarError>,
    >)
        ensures
            r@.len() == items@.len(),
            forall|k: int|
                0 <= k < r@.len() ==> #[trigger] r@[k] == sync_outcome(
                    items@[k].repo_name@,
                    items@[k].fetched@,
                ),
            final(self)@ == sync_seq(old(self)@, items@, now),
    {
        let mut out: Vec<Result<(), SoarError>> = Vec::new();
        let mut i: usize = 0;
        proof {
            assert(items@.take(0) =~= Seq::<SyncItem>::empty());
        }
        while i < items.len()
            invariant
                i <= items@.len(),
                out@.len() == i,
                forall|k: int|
                    0 <= k < i ==> #[trigger] out@[k] == sync_outcome(
                        items@[k].repo_name@,
                        items@[k].fetched@,
                    ),
                self@ == sync_seq(old(self)@, items@.take(i as int), now),
            decreases items@.len() - i,
        {
            proof {
                assert(items@.take(i + 1).drop_last() =~= items@.take(i as int));
                assert(items@.take(i + 1).last() == items@[i as int]);
            }
            let res = self.sync_repo(&items[i].repo_name, &items[i].fetched, now);
            out.push(res);
            i += 1;
        }
        proof {
            assert(items@.take(items@.len() as int) =~= items@);
        }
        out
    }
}

} // verus!
