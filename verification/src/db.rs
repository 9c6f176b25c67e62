//! The package database: synced repository package metadata, organized
//! as one table per repository, and the locally installed package
//! records. Repository tables are replaced wholesale on sync; installed
//! rows are written only by a committed install and removed only by the
//! removal engine or the health checker.

use vstd::prelude::*;

use crate::bytes::{bytes_eq, copy_vec};
use crate::errors::SoarError;

verus! {

/// Where an installable asset physically lives.
pub enum Origin {
    /// A concrete URL inside the synced metadata.
    Direct(Vec<u8>),
    /// A release host listing, `owner` and `project`.
    ReleaseHost(Vec<u8>, Vec<u8>),
    /// A registry artifact reference.
    Registry(Vec<u8>),
}

/// Ghost image of an [`Origin`].
pub enum OriginView {
    Direct(Seq<u8>),
    ReleaseHost(Seq<u8>, Seq<u8>),
    Registry(Seq<u8>),
}

impl View for Origin {
    type V = OriginView;

    open spec fn view(&self) -> OriginView {
        match self {
            Origin::Direct(u) => OriginView::Direct(u@),
            Origin::ReleaseHost(o, p) => OriginView::ReleaseHost(o@, p@),
            Origin::Registry(r) => OriginView::Registry(r@),
        }
    }
}

/// Metadata describing an installable artifact, as known from a synced
/// repository.
pub struct PackageRecord {
    pub repo_name: Vec<u8>,
    pub pkg_id: Vec<u8>,
    pub name: Vec<u8>,
    pub version: Vec<u8>,
    pub checksum: Vec<u8>,
    pub size: u64,
    pub bin_name: Vec<u8>,
    pub origin: Origin,
}

/// Ghost image of a [`PackageRecord`].
pub struct RecView {
    pub repo: Seq<u8>,
    pub id: Seq<u8>,
    pub name: Seq<u8>,
    pub version: Seq<u8>,
    pub checksum: Seq<u8>,
    pub size: u64,
    pub bin_name: Seq<u8>,
    pub origin: OriginView,
}

impl View for PackageRecord {
    type V = RecView;

    open spec fn view(&self) -> RecView {
        RecView {
            repo: self.repo_name@,
            id: self.pkg_id@,
            name: self.name@,
            version: self.version@,
            checksum: self.checksum@,
            size: self.size,
            bin_name: self.bin_name@,
            origin: self.origin@,
        }
    }
}

/// A committed local record of a successfully installed artifact.
pub struct InstalledPackage {
    pub pkg_id: Vec<u8>,
    pub repo_name: Vec<u8>,
    pub version: Vec<u8>,
    pub checksum: Vec<u8>,
    pub bin_name: Vec<u8>,
    pub profile: Vec<u8>,
    /// Generic portable mode: one base directory for home, config and
    /// share. Mutually exclusive with the three split overrides.
    pub portable_base: Option<Vec<u8>>,
    pub portable_home: Option<Vec<u8>>,
    pub portable_config: Option<Vec<u8>>,
    pub portable_share: Option<Vec<u8>>,
    pub installed_at: u64,
}

/// Ghost image of an [`InstalledPackage`].
pub struct IpView {
    pub id: Seq<u8>,
    pub repo: Seq<u8>,
    pub version: Seq<u8>,
    pub checksum: Seq<u8>,
    pub bin_name: Seq<u8>,
    pub profile: Seq<u8>,
    pub portable_base: Option<Seq<u8>>,
    pub portable_home: Option<Seq<u8>>,
    pub portable_config: Option<Seq<u8>>,
    pub portable_share: Option<Seq<u8>>,
    pub installed_at: u64,
}

/// Ghost image of an `Option` of a byte string.
pub open spec fn opt_view(o: Option<Vec<u8>>) -> Option<Seq<u8>> {
    match o {
        Some(v) => Some(v@),
        None => None,
    }
}

impl View for InstalledPackage {
    type V = IpView;

    open spec fn view(&self) -> IpView {
        IpView {
            id: self.pkg_id@,
            repo: self.repo_name@,
            version: self.version@,
            checksum: self.checksum@,
            bin_name: self.bin_name@,
            profile: self.profile@,
            portable_base: opt_view(self.portable_base),
            portable_home: opt_view(self.portable_home),
            portable_config: opt_view(self.portable_config),
            portable_share: opt_view(self.portable_share),
            installed_at: self.installed_at,
        }
    }
}

/// All synced rows of one repository.
pub struct RepoTable {
    pub repo_name: Vec<u8>,
    pub records: Vec<PackageRecord>,
}

/// Ghost image of a [`RepoTable`].
pub struct TableView {
    pub repo: Seq<u8>,
    pub records: Seq<RecView>,
}

/// Element views of a sequence of records.
pub open spec fn rec_views(s: Seq<PackageRecord>) -> Seq<RecView> {
    s.map_values(|r: PackageRecord| r@)
}

/// Element views of a sequence of installed rows.
pub open spec fn ip_views(s: Seq<InstalledPackage>) -> Seq<IpView> {
    s.map_values(|r: InstalledPackage| r@)
}

impl View for RepoTable {
    type V = TableView;

    open spec fn view(&self) -> TableView {
        TableView { repo: self.repo_name@, records: rec_views(self.records@) }
    }
}

/// The two logical tables of the store.
pub struct PackageDatabase {
    pub tables: Vec<RepoTable>,
    pub installed: Vec<InstalledPackage>,
}

/// Ghost image of the whole database.
pub struct DbView {
    pub tables: Seq<TableView>,
    pub installed: Seq<IpView>,
}

/// Element views of a sequence of repository tables.
pub open spec fn table_views(s: Seq<RepoTable>) -> Seq<TableView> {
    s.map_values(|t: RepoTable| t@)
}

impl View for PackageDatabase {
    type V = DbView;

    open spec fn view(&self) -> DbView {
        DbView { tables: table_views(self.tables@), installed: ip_views(self.installed@) }
    }
}

/// A package reference as given on the command line: a package id,
/// optionally qualified by a repository name.
pub struct PkgRef {
    pub repo: Option<Vec<u8>>,
    pub pkg_id: Vec<u8>,
}

/// Ghost image of a [`PkgRef`].
pub struct RefView {
    pub repo: Option<Seq<u8>>,
    pub id: Seq<u8>,
}

impl View for PkgRef {
    type V = RefView;

    open spec fn view(&self) -> RefView {
        RefView { repo: opt_view(self.repo), id: self.pkg_id@ }
    }
}

/// Ids of synced records are unique within a repository, and the
/// records of a table carry that table's repository name.
pub open spec fn table_wf(t: TableView) -> bool {
    &&& forall|i: int, j: int|
        0 <= i < j < t.records.len() ==> t.records[i].id != t.records[j].id
    &&& forall|i: int| 0 <= i < t.records.len() ==> (#[trigger] t.records[i]).repo == t.repo
}

/// Repository names are a unique key; every table is well formed; a
/// package id appears in at most one installed row.
pub open spec fn db_wf(db: DbView) -> bool {
    &&& forall|i: int, j: int|
        0 <= i < j < db.tables.len() ==> db.tables[i].repo != db.tables[j].repo
    &&& forall|i: int| 0 <= i < db.tables.len() ==> table_wf(#[trigger] db.tables[i])
    &&& forall|i: int, j: int|
        0 <= i < j < db.installed.len() ==> db.installed[i].id != db.installed[j].id
}

/// All synced records, in table order.
pub open spec fn all_recs(ts: Seq<TableView>) -> Seq<RecView>
    decreases ts.len(),
{
    if ts.len() == 0 {
        Seq::<RecView>::empty()
    } else {
        all_recs(ts.drop_last()) + ts.last().records
    }
}

/// Whether a record answers a reference.
pub open spec fn ref_hits(r: RecView, q: RefView) -> bool {
    r.id == q.id && (q.repo is None || q.repo == Some(r.repo))
}

/// The records answering a reference, in table order.
pub open spec fn matching_recs(rs: Seq<RecView>, q: RefView) -> Seq<RecView>
    decreases rs.len(),
{
    if rs.len() == 0 {
        Seq::<RecView>::empty()
    } else {
        let rest = matching_recs(rs.drop_last(), q);
        if ref_hits(rs.last(), q) {
            rest.push(rs.last())
        } else {
            rest
        }
    }
}

/// The first installed row carrying `id`, if any.
pub open spec fn find_inst(s: Seq<IpView>, id: Seq<u8>) -> Option<IpView>
    decreases s.len(),
{
    if s.len() == 0 {
        None
    } else if s[0].id == id {
        Some(s[0])
    } else {
        find_inst(s.drop_first(), id)
    }
}

/// The installed rows with `id` removed, order preserved.
pub open spec fn remove_id(s: Seq<IpView>, id: Seq<u8>) -> Seq<IpView>
    decreases s.len(),
{
    if s.len() == 0 {
        Seq::<IpView>::empty()
    } else {
        let rest = remove_id(s.drop_last(), id);
        if s.last().id == id {
            rest
        } else {
            rest.push(s.last())
        }
    }
}

/// How many installed rows carry `id`.
pub open spec fn count_id(s: Seq<IpView>, id: Seq<u8>) -> nat
    decreases s.len(),
{
    if s.len() == 0 {
        0
    } else {
        count_id(s.drop_last(), id) + if s.last().id == id {
            1nat
        } else {
            0nat
        }
    }
}

/// `find_inst` returns the row at the first index carrying `id`.
pub proof fn lemma_find_inst_index(s: Seq<IpView>, id: Seq<u8>, i: int)
    requires
        0 <= i < s.len(),
        forall|k: int| 0 <= k < i ==> s[k].id != id,
        s[i].id == id,
    ensures
        find_inst(s, id) == Some(s[i]),
    decreases i,
{
    if i > 0 {
        lemma_find_inst_index(s.drop_first(), id, i - 1);
    }
}

/// Without a row carrying `id`, `find_inst` finds nothing.
pub proof fn lemma_find_inst_none(s: Seq<IpView>, id: Seq<u8>)
    requires
        forall|k: int| 0 <= k < s.len() ==> s[k].id != id,
    ensures
        find_inst(s, id) is None,
    decreases s.len(),
{
    if s.len() > 0 {
        lemma_find_inst_none(s.drop_first(), id);
    }
}

/// What removal leaves: only rows of other ids, all drawn from the
/// original sequence; uniqueness of ids is preserved; a count of zero
/// for the removed id.
pub proof fn lemma_remove_id(s: Seq<IpView>, id: Seq<u8>)
    ensures
        forall|k: int|
            0 <= k < remove_id(s, id).len() ==> (#[trigger] remove_id(s, id)[k]).id != id
                && s.contains(remove_id(s, id)[k]),
        (forall|i: int, j: int| 0 <= i < j < s.len() ==> s[i].id != s[j].id) ==> (forall|
            i: int,
            j: int,
        |
            0 <= i < j < remove_id(s, id).len() ==> remove_id(s, id)[i].id != remove_id(
                s,
                id,
            )[j].id),
        count_id(remove_id(s, id), id) == 0,
    decreases s.len(),
{
    if s.len() > 0 {
        lemma_remove_id(s.drop_last(), id);
        assert(forall|k: int|
            0 <= k < s.drop_last().len() ==> s.drop_last()[k] == s[k]);
        assert(forall|x: IpView| s.drop_last().contains(x) ==> s.contains(x));
        if s.last().id != id {
            let r = remove_id(s, id);
            let rp = remove_id(s.drop_last(), id);
            assert(r == rp.push(s.last()));
            assert(s.contains(s.last()));
            lemma_count_push(rp, s.last(), id);
            if forall|i: int, j: int| 0 <= i < j < s.len() ==> s[i].id != s[j].id {
                assert(forall|i: int, j: int|
                    0 <= i < j < s.drop_last().len() ==> s.drop_last()[i].id != s.drop_last()[
                        j
                    ].id);
                assert forall|i: int, j: int| 0 <= i < j < r.len() implies r[i].id != r[
                    j
                ].id by {
                    if j < r.len() - 1 {
                        assert(r[i] == rp[i] && r[j] == rp[j]);
                    } else {
                        assert(r[j] == s.last());
                        assert(rp.contains(rp[i]));
                        assert(s.drop_last().contains(rp[i]));
                        let w = choose|w: int|
                            0 <= w < s.drop_last().len() && s.drop_last()[w] == rp[i];
                        assert(s[w] == rp[i]);
                        assert(s[w].id != s[s.len() - 1].id);
                    }
                }
            }
        }
    }
}

/// Adding one row of `id` to rows free of it yields a count of one.
pub proof fn lemma_count_push(s: Seq<IpView>, row: IpView, id: Seq<u8>)
    ensures
        count_id(s.push(row), id) == count_id(s, id) + if row.id == id {
            1nat
        } else {
            0nat
        },
{
    assert(s.push(row).drop_last() =~= s);
    assert(s.push(row).last() == row);
}

impl PackageDatabase {
    /// A fresh, empty store.
    pub fn new() -> (r: PackageDatabase)
        ensures
            r@.tables.len() == 0,
            r@.installed.len() == 0,
            db_wf(r@),
    {
        PackageDatabase { tables: Vec::new(), installed: Vec::new() }
    }

    /// The first installed row for `id`, as `find_inst` describes.
    pub fn find_installed(&self, pkg_id: &Vec<u8>) -> (r: Option<&InstalledPackage>)
        ensures
            match r {
                Some(ip) => find_inst(self@.installed, pkg_id@) == Some(ip@),
                None => find_inst(self@.installed, pkg_id@) is None,
            },
    {
        let mut i: usize = 0;
        while i < self.installed.len()
            invariant
                i <= self.installed@.len(),
                forall|k: int| 0 <= k < i ==> ip_views(self.installed@)[k].id != pkg_id@,
            decreases self.installed@.len() - i,
        {
            proof {
                assert(ip_views(self.installed@)[i as int] == self.installed@[i as int]@);
            }
            if bytes_eq(&self.installed[i].pkg_id, pkg_id) {
                proof {
                    lemma_find_inst_index(ip_views(self.installed@), pkg_id@, i as int);
                }
                return Some(&self.installed[i]);
            }
            i += 1;
        }
        proof {
            lemma_find_inst_none(ip_views(self.installed@), pkg_id@);
        }
        None
    }

    /// Upserts one installed row: any previous row for the same id is
    /// replaced in the same write.
    pub fn record_install(&mut self, row: InstalledPackage)
        ensures
            final(self)@.installed == remove_id(old(self)@.installed, row@.id).push(row@),
            final(self)@.tables == old(self)@.tables,
    {
        let id = copy_vec(&row.pkg_id);
        self.remove_install(&id);
        let ghost mid = self@.installed;
        self.installed.push(row);
        proof {
            assert(ip_views(self.installed@) =~= mid.push(row@));
        }
    }

    /// Deletes every installed row for `id` (at most one, when the
    /// store is well formed).
    pub fn remove_install(&mut self, pkg_id: &Vec<u8>)
        ensures
            final(self)@.installed == remove_id(old(self)@.installed, pkg_id@),
            final(self)@.tables == old(self)@.tables,
    {
        let ghost iv = ip_views(self.installed@);
        let mut out: Vec<InstalledPackage> = Vec::new();
        let mut i: usize = 0;
        proof {
            assert(iv.take(0) =~= Seq::<IpView>::empty());
            assert(ip_views(out@) =~= remove_id(iv.take(0), pkg_id@));
        }
        while i < self.installed.len()
            invariant
                i <= self.installed@.len(),
                iv == ip_views(self.installed@),
                ip_views(out@) == remove_id(iv.take(i as int), pkg_id@),
            decreases self.installed@.len() - i,
        {
            proof {
                assert(iv.take(i + 1).drop_last() =~= iv.take(i as int));
                assert(iv.take(i + 1).last() == self.installed@[i as int]@);
                assert(iv[i as int] == self.installed@[i as int]@);
            }
            if !bytes_eq(&self.installed[i].pkg_id, pkg_id) {
                let ghost old_out = out@;
                let c = clone_installed(&self.installed[i]);
                out.push(c);
                proof {
                    assert(ip_views(out@) =~= ip_views(old_out).push(
                        self.installed@[i as int]@,
                    ));
                }
            }
            i += 1;
        }
        proof {
            assert(iv.take(self.installed@.len() as int) =~= iv);
        }
        self.installed = out;
    }
}

/// Whether a record answers a reference, executably.
fn ref_hits_exec(r: &PackageRecord, q: &PkgRef) -> (b: bool)
    ensures
        b == ref_hits(r@, q@),
{
    if !bytes_eq(&r.pkg_id, &q.pkg_id) {
        return false;
    }
    match &q.repo {
        None => true,
        Some(rep) => bytes_eq(&r.repo_name, rep),
    }
}

impl PackageDatabase {
    /// All synced records answering a reference, in table order.
    pub fn matching_records(&self, q: &PkgRef) -> (r: Vec<PackageRecord>)
        ensures
            rec_views(r@) == matching_recs(all_recs(self@.tables), q@),
    {
        let ghost tv = table_views(self.tables@);
        let mut out: Vec<PackageRecord> = Vec::new();
        let mut i: usize = 0;
        proof {
            assert(tv.take(0) =~= Seq::<TableView>::empty());
            assert(rec_views(out@) =~= matching_recs(all_recs(tv.take(0)), q@));
        }
        while i < self.tables.len()
            invariant
                i <= self.tables@.len(),
                tv == table_views(self.tables@),
                rec_views(out@) == matching_recs(all_recs(tv.take(i as int)), q@),
            decreases self.tables@.len() - i,
        {
            let ghost base = all_recs(tv.take(i as int));
            let ghost trecs = tv[i as int].records;
            proof {
                assert(tv[i as int] == self.tables@[i as int]@);
            }
            let tbl = &self.tables[i];
            let mut j: usize = 0;
            proof {
                assert(trecs.take(0) =~= Seq::<RecView>::empty());
                assert(base + trecs.take(0) =~= base);
                lemma_matching_extend(base, trecs, 0, q@);
            }
            while j < tbl.records.len()
                invariant
                    j <= tbl.records@.len(),
                    trecs == rec_views(tbl.records@),
                    rec_views(out@) == matching_recs(base + trecs.take(j as int), q@),
                decreases tbl.records@.len() - j,
            {
                let ghost fp = base + trecs.take(j as int);
                proof {
                    assert(trecs[j as int] == tbl.records@[j as int]@);
                    assert((base + trecs.take(j + 1)).drop_last() =~= fp);
                    assert((base + trecs.take(j + 1)).last() == trecs[j as int]);
                }
                if ref_hits_exec(&tbl.records[j], q) {
                    let ghost old_out = out@;
                    let c = clone_record(&tbl.records[j]);
                    out.push(c);
                    proof {
                        assert(rec_views(out@) =~= rec_views(old_out).push(
                            trecs[j as int],
                        ));
                    }
                }
                j += 1;
            }
            proof {
                assert(base + trecs.take(tbl.records@.len() as int) =~= base + trecs);
                assert(tv.take(i + 1).drop_last() =~= tv.take(i as int));
                assert(tv.take(i + 1).last() == tv[i as int]);
                assert(all_recs(tv.take(i + 1)) =~= base + trecs);
            }
            i += 1;
        }
        proof {
            assert(tv.take(self.tables@.len() as int) =~= tv);
        }
        out
    }

    /// Resolves a reference to the unique record answering it:
    /// `PackageNotFound` when none does, `AmbiguousPackage` when several
    /// repositories export the id and the reference does not qualify one.
    pub fn resolve(&self, q: &PkgRef) -> (r: Result<PackageRecord, SoarError>)
        ensures
            ({
                let ms = matching_recs(all_recs(self@.tables), q@);
                match r {
                    Ok(rec) => ms.len() == 1 && rec@ == ms[0],
                    Err(e) => (e == SoarError::PackageNotFound && ms.len() == 0) || (e
                        == SoarError::AmbiguousPackage && ms.len() > 1),
                }
            }),
    {
        let mut ms = self.matching_records(q);
        if ms.len() == 0 {
            Err(SoarError::PackageNotFound)
        } else if ms.len() == 1 {
            let ghost mv = rec_views(ms@);
            let rec = ms.remove(0);
            proof {
                assert(rec@ == mv[0]);
            }
            Ok(rec)
        } else {
            Err(SoarError::AmbiguousPackage)
        }
    }
}

/// The synced records of one repository, in table order.
pub open spec fn recs_of_repo(rs: Seq<RecView>, repo: Seq<u8>) -> Seq<RecView>
    decreases rs.len(),
{
    if rs.len() == 0 {
        Seq::<RecView>::empty()
    } else {
        let rest = recs_of_repo(rs.drop_last(), repo);
        if rs.last().repo == repo {
            rest.push(rs.last())
        } else {
            rest
        }
    }
}

/// The records whose display name contains the query, honoring the
/// case-sensitivity flag.
pub open spec fn search_hits(rs: Seq<RecView>, q: Seq<u8>, exact: bool) -> Seq<RecView>
    decreases rs.len(),
{
    if rs.len() == 0 {
        Seq::<RecView>::empty()
    } else {
        let rest = search_hits(rs.drop_last(), q, exact);
        if crate::bytes::is_substring(
            crate::filters::fold_name(rs.last().name, exact),
            crate::filters::fold_name(q, exact),
        ) {
            rest.push(rs.last())
        } else {
            rest
        }
    }
}

/// The installed rows of one repository, in row order.
pub open spec fn inst_of_repo(s: Seq<IpView>, repo: Seq<u8>) -> Seq<IpView>
    decreases s.len(),
{
    if s.len() == 0 {
        Seq::<IpView>::empty()
    } else {
        let rest = inst_of_repo(s.drop_last(), repo);
        if s.last().repo == repo {
            rest.push(s.last())
        } else {
            rest
        }
    }
}

impl PackageDatabase {
    /// All synced records, flattened in table order.
    pub fn all_records(&self) -> (r: Vec<PackageRecord>)
        ensures
            rec_views(r@) == all_recs(self@.tables),
    {
        let ghost tv = table_views(self.tables@);
        let mut out: Vec<PackageRecord> = Vec::new();
        let mut i: usize = 0;
        proof {
            assert(tv.take(0) =~= Seq::<TableView>::empty());
            assert(rec_views(out@) =~= all_recs(tv.take(0)));
        }
        while i < self.tables.len()
            invariant
                i <= self.tables@.len(),
                tv == table_views(self.tables@),
                rec_views(out@) == all_recs(tv.take(i as int)),
            decreases self.tables@.len() - i,
        {
            let ghost base = all_recs(tv.take(i as int));
            let ghost trecs = tv[i as int].records;
            proof {
                assert(tv[i as int] == self.tables@[i as int]@);
            }
            let tbl = &self.tables[i];
            let mut j: usize = 0;
            proof {
                assert(trecs.take(0) =~= Seq::<RecView>::empty());
                assert(rec_views(out@) + trecs.take(0) =~= rec_views(out@));
            }
            while j < tbl.records.len()
                invariant
                    j <= tbl.records@.len(),
                    trecs == rec_views(tbl.records@),
                    rec_views(out@) == base + trecs.take(j as int),
                decreases tbl.records@.len() - j,
            {
                proof {
                    assert(trecs[j as int] == tbl.records@[j as int]@);
                }
                let ghost old_out = out@;
                let c = clone_record(&tbl.records[j]);
                out.push(c);
                proof {
                    assert(rec_views(out@) =~= rec_views(old_out).push(trecs[j as int]));
                    assert(base + trecs.take(j + 1) =~= (base + trecs.take(j as int)).push(
                        trecs[j as int],
                    ));
                }
                j += 1;
            }
            proof {
                assert(base + trecs.take(tbl.records@.len() as int) =~= base + trecs);
                assert(tv.take(i + 1).drop_last() =~= tv.take(i as int));
                assert(tv.take(i + 1).last() == tv[i as int]);
                assert(all_recs(tv.take(i + 1)) =~= base + trecs);
            }
            i += 1;
        }
        proof {
            assert(tv.take(self.tables@.len() as int) =~= tv);
        }
        out
    }

    /// The available records: all of them, or those of one repository.
    pub fn list_available(&self, repo: Option<&Vec<u8>>) -> (r: Vec<PackageRecord>)
        ensures
            rec_views(r@) == (match repo {
                None => all_recs(self@.tables),
                Some(rp) => recs_of_repo(all_recs(self@.tables), rp@),
            }),
    {
        let all = self.all_records();
        let rp = match repo {
            None => {
                return all;
            },
            Some(rp) => rp,
        };
        let ghost av = rec_views(all@);
        let mut out: Vec<PackageRecord> = Vec::new();
        let mut i: usize = 0;
        proof {
            assert(av.take(0) =~= Seq::<RecView>::empty());
            assert(rec_views(out@) =~= recs_of_repo(av.take(0), rp@));
        }
        while i < all.len()
            invariant
                i <= all@.len(),
                av == rec_views(all@),
                rec_views(out@) == recs_of_repo(av.take(i as int), rp@),
            decreases all@.len() - i,
        {
            proof {
                assert(av.take(i + 1).drop_last() =~= av.take(i as int));
                assert(av.take(i + 1).last() == all@[i as int]@);
                assert(av[i as int] == all@[i as int]@);
            }
            if bytes_eq(&all[i].repo_name, rp) {
                let ghost old_out = out@;
                let c = clone_record(&all[i]);
                out.push(c);
                proof {
                    assert(rec_views(out@) =~= rec_views(old_out).push(all@[i as int]@));
                }
            }
            i += 1;
        }
        proof {
            assert(av.take(all@.len() as int) =~= av);
        }
        out
    }

    /// Name search over the synced records, with a result cap: the
    /// matches in table order, truncated to `limit`.
    pub fn search(&self, q: &Vec<u8>, case_sensitive: bool, limit: usize) -> (r: Vec<
        PackageRecord,
    >)
        ensures
            ({
                let h = search_hits(all_recs(self@.tables), q@, case_sensitive);
                rec_views(r@) == if h.len() <= limit {
                    h
                } else {
                    h.take(limit as int)
                }
            }),
    {
        let all = self.all_records();
        let ghost av = rec_views(all@);
        let folded_q = crate::filters::fold_bytes(q, case_sensitive);
        let mut out: Vec<PackageRecord> = Vec::new();
        let mut i: usize = 0;
        proof {
            assert(av.take(0) =~= Seq::<RecView>::empty());
            assert(rec_views(out@) =~= search_hits(av.take(0), q@, case_sensitive));
        }
        while i < all.len()
            invariant
                i <= all@.len(),
                av == rec_views(all@),
                folded_q@ == crate::filters::fold_name(q@, case_sensitive),
                rec_views(out@) == search_hits(av.take(i as int), q@, case_sensitive),
            decreases all@.len() - i,
        {
            proof {
                assert(av.take(i + 1).drop_last() =~= av.take(i as int));
                assert(av.take(i + 1).last() == all@[i as int]@);
                assert(av[i as int] == all@[i as int]@);
            }
            let folded_name = crate::filters::fold_bytes(&all[i].name, case_sensitive);
            if crate::bytes::contains_sub(&folded_name, &folded_q) {
                let ghost old_out = out@;
                let c = clone_record(&all[i]);
                out.push(c);
                proof {
                    assert(rec_views(out@) =~= rec_views(old_out).push(all@[i as int]@));
                }
            }
            i += 1;
        }
        proof {
            assert(av.take(all@.len() as int) =~= av);
        }
        proof {
            assert(search_hits(av, q@, case_sensitive).take(out@.len() as int)
                =~= search_hits(av, q@, case_sensitive));
        }
        while out.len() > limit
            invariant
                out@.len() <= search_hits(av, q@, case_sensitive).len(),
                limit <= out@.len() || out@.len() == search_hits(
                    av,
                    q@,
                    case_sensitive,
                ).len(),
                rec_views(out@) == search_hits(av, q@, case_sensitive).take(
                    out@.len() as int,
                ),
            decreases out@.len(),
        {
            let ghost before = out@;
            out.pop();
            proof {
                assert(rec_views(out@) =~= rec_views(before).drop_last());
                assert(search_hits(av, q@, case_sensitive).take(
                    before.len() as int,
                ).drop_last() =~= search_hits(av, q@, case_sensitive).take(
                    before.len() - 1,
                ));
            }
        }
        proof {
            let h = search_hits(av, q@, case_sensitive);
            if h.len() <= limit {
                assert(h.take(h.len() as int) =~= h);
            }
        }
        out
    }

    /// The installed rows: all of them, or those of one repository,
    /// truncated to `count` rows when a cap is given.
    pub fn list_installed(&self, repo: Option<&Vec<u8>>, count: Option<usize>) -> (r: Vec<
        InstalledPackage,
    >)
        ensures
            ({
                let base = match repo {
                    None => self@.installed,
                    Some(rp) => inst_of_repo(self@.installed, rp@),
                };
                ip_views(r@) == (match count {
                    None => base,
                    Some(c) => if base.len() <= c {
                        base
                    } else {
                        base.take(c as int)
                    },
                })
            }),
    {
        let ghost iv = ip_views(self.installed@);
        let mut out: Vec<InstalledPackage> = Vec::new();
        let mut i: usize = 0;
        proof {
            assert(iv.take(0) =~= Seq::<IpView>::empty());
            assert(ip_views(out@) =~= Seq::<IpView>::empty());
            assert(ip_views(out@) =~= inst_of_repo(iv.take(0), match repo {
                Some(rp) => rp@,
                None => Seq::<u8>::empty(),
            }));
        }
        while i < self.installed.len()
            invariant
                i <= self.installed@.len(),
                iv == ip_views(self.installed@),
                ip_views(out@) == (match repo {
                    None => iv.take(i as int),
                    Some(rp) => inst_of_repo(iv.take(i as int), rp@),
                }),
            decreases self.installed@.len() - i,
        {
            proof {
                assert(iv.take(i + 1).drop_last() =~= iv.take(i as int));
                assert(iv.take(i + 1).last() == self.installed@[i as int]@);
                assert(iv[i as int] == self.installed@[i as int]@);
            }
            let keep: bool = match repo {
                None => true,
                Some(rp) => bytes_eq(&self.installed[i].repo_name, rp),
            };
            if keep {
                let ghost old_out = out@;
                let c = clone_installed(&self.installed[i]);
                out.push(c);
                proof {
                    assert(ip_views(out@) =~= ip_views(old_out).push(
                        self.installed@[i as int]@,
                    ));
                }
            }
            i += 1;
        }
        proof {
            assert(iv.take(self.installed@.len() as int) =~= iv);
        }
        let limit: usize = match count {
            None => {
                return out;
            },
            Some(c) => c,
        };
        let ghost base = match repo {
            Some(rp) => inst_of_repo(iv, rp@),
            None => iv,
        };
        proof {
            assert(base.take(out@.len() as int) =~= base);
        }
        while out.len() > limit
            invariant
                out@.len() <= base.len(),
                limit <= out@.len() || out@.len() == base.len(),
                ip_views(out@) == base.take(out@.len() as int),
            decreases out@.len(),
        {
            let ghost before = out@;
            out.pop();
            proof {
                assert(ip_views(out@) =~= ip_views(before).drop_last());
                assert(base.take(before.len() as int).drop_last() =~= base.take(
                    before.len() - 1,
                ));
            }
        }
        proof {
            if base.len() <= limit {
                assert(base.take(base.len() as int) =~= base);
            }
        }
        out
    }
}

impl PackageDatabase {
    /// The records answering a reference, in the query order: name
    /// ascending, then version descending, so the latest version of a
    /// name comes first.
    pub fn query(&self, q: &PkgRef) -> (r: Vec<PackageRecord>)
        ensures
            crate::order::sorted_recs(rec_views(r@)),
            rec_views(r@).to_multiset() == matching_recs(
                all_recs(self@.tables),
                q@,
            ).to_multiset(),
    {
        let ms = self.matching_records(q);
        crate::order::sort_records(ms)
    }
}

/// An empty prefix contributes no matches.
proof fn lemma_matching_extend(base: Seq<RecView>, trecs: Seq<RecView>, j: int, q: RefView)
    requires
        j == 0,
    ensures
        matching_recs(base + trecs.take(j), q) == matching_recs(base, q),
{
    assert(base + trecs.take(j) =~= base);
}

/// Copies an optional byte string, preserving its view.
pub fn copy_opt(o: &Option<Vec<u8>>) -> (r: Option<Vec<u8>>)
    ensures
        opt_view(r) == opt_view(*o),
{
    match o {
        Some(v) => Some(copy_vec(v)),
        None => None,
    }
}

/// Copies an origin descriptor, preserving its view.
pub fn clone_origin(o: &Origin) -> (r: Origin)
    ensures
        r@ == o@,
{
    match o {
        Origin::Direct(u) => Origin::Direct(copy_vec(u)),
        Origin::ReleaseHost(a, b) => Origin::ReleaseHost(copy_vec(a), copy_vec(b)),
        Origin::Registry(x) => Origin::Registry(copy_vec(x)),
    }
}

/// Copies a synced record, preserving its view.
pub fn clone_record(r: &PackageRecord) -> (c: PackageRecord)
    ensures
        c@ == r@,
{
    PackageRecord {
        repo_name: copy_vec(&r.repo_name),
        pkg_id: copy_vec(&r.pkg_id),
        name: copy_vec(&r.name),
        version: copy_vec(&r.version),
        checksum: copy_vec(&r.checksum),
        size: r.size,
        bin_name: copy_vec(&r.bin_name),
        origin: clone_origin(&r.origin),
    }
}

/// Copies an installed row, preserving its view.
pub fn clone_installed(r: &InstalledPackage) -> (c: InstalledPackage)
    ensures
        c@ == r@,
{
    InstalledPackage {
        pkg_id: copy_vec(&r.pkg_id),
        repo_name: copy_vec(&r.repo_name),
        version: copy_vec(&r.version),
        checksum: copy_vec(&r.checksum),
        bin_name: copy_vec(&r.bin_name),
        profile: copy_vec(&r.profile),
        portable_base: copy_opt(&r.portable_base),
        portable_home: copy_opt(&r.portable_home),
        portable_config: copy_opt(&r.portable_config),
        portable_share: copy_opt(&r.portable_share),
        installed_at: r.installed_at,
    }
}

} // verus!
