//! System-wide laws of the engine, proved over the transition
//! specifications that the executable operations are verified against.

use vstd::prelude::*;

use crate::db::{
    all_recs, count_id, find_inst, lemma_count_push, lemma_remove_id, matching_recs,
    remove_id, IpView, RecView, RefView, TableView,
};
use crate::engine::{
    begin_apply, begin_outcome, classify, commit_apply, count_pkg_arts, count_prev,
    has_art, install_apply, new_row_view, prune_arts, remove_apply, remove_lock,
    remove_outcome, remove_pkg_arts, remove_shard, remove_table, st_wf, sync_apply,
    sync_step, update_apply, update_outcome, ArtView, FetchView, OptView, ShardView,
    StView,
};
use crate::errors::SoarError;

verus! {

/// One install request, as the transition specifications see it.
pub struct InstallReq {
    pub q: RefView,
    pub f: FetchView,
    pub o: OptView,
}

/// The state after a sequence of one-shot installs.
pub open spec fn apply_install_seq(st: StView, reqs: Seq<InstallReq>) -> StView
    decreases reqs.len(),
{
    if reqs.len() == 0 {
        st
    } else {
        let prev = apply_install_seq(st, reqs.drop_last());
        install_apply(prev, reqs.last().q, reqs.last().f, reqs.last().o)
    }
}

/// Every install of the sequence succeeds at its point in time.
pub open spec fn all_install_ok(st: StView, reqs: Seq<InstallReq>) -> bool
    decreases reqs.len(),
{
    if reqs.len() == 0 {
        true
    } else {
        all_install_ok(st, reqs.drop_last()) && begin_outcome(
            apply_install_seq(st, reqs.drop_last()),
            reqs.last().q,
            reqs.last().f,
            reqs.last().o,
        ) is Ok
    }
}

/// The record a reference resolves to against the synced tables (which
/// installs never change).
pub open spec fn resolved_rec(st: StView, q: RefView) -> RecView {
    matching_recs(all_recs(st.db.tables), q)[0]
}

/// Removal leaves a sequence without rows of `id` untouched.
proof fn lemma_remove_id_absent(s: Seq<IpView>, id: Seq<u8>)
    requires
        forall|k: int| 0 <= k < s.len() ==> s[k].id != id,
    ensures
        remove_id(s, id) == s,
    decreases s.len(),
{
    if s.len() > 0 {
        assert(forall|k: int|
            0 <= k < s.drop_last().len() ==> s.drop_last()[k] == s[k]);
        lemma_remove_id_absent(s.drop_last(), id);
        assert(remove_id(s, id) =~= s);
    }
}

/// Releasing an unheld lock changes nothing.
proof fn lemma_remove_lock_absent(s: Seq<Seq<u8>>, id: Seq<u8>)
    requires
        !s.contains(id),
    ensures
        remove_lock(s, id) == s,
    decreases s.len(),
{
    if s.len() > 0 {
        assert(forall|k: int|
            0 <= k < s.drop_last().len() ==> s.drop_last()[k] == s[k]);
        assert(forall|k: int| 0 <= k < s.len() ==> s[k] != id);
        assert(!s.drop_last().contains(id));
        lemma_remove_lock_absent(s.drop_last(), id);
        assert(s.last() != id);
        assert(remove_lock(s, id) =~= s);
    }
}

/// Releasing the lock just taken restores the remainder.
proof fn lemma_remove_lock_push(s: Seq<Seq<u8>>, id: Seq<u8>)
    ensures
        remove_lock(s.push(id), id) == remove_lock(s, id),
{
    assert(s.push(id).drop_last() =~= s);
    assert(s.push(id).last() == id);
}

/// A row pushed behind rows of other ids is the one `find_inst` finds.
proof fn lemma_find_inst_push(s: Seq<IpView>, row: IpView)
    requires
        forall|k: int| 0 <= k < s.len() ==> s[k].id != row.id,
    ensures
        find_inst(s.push(row), row.id) == Some(row),
    decreases s.len(),
{
    if s.len() == 0 {
        assert(s.push(row)[0] == row);
    } else {
        assert(s.push(row)[0] == s[0]);
        assert(s.push(row).drop_first() =~= s.drop_first().push(row));
        assert(forall|k: int|
            0 <= k < s.drop_first().len() ==> s.drop_first()[k] == s[k + 1]);
        lemma_find_inst_push(s.drop_first(), row);
    }
}

/// P1 — for any sequence of successful installs whose references
/// resolve to pairwise distinct package ids, starting from a store with
/// no installed rows, the resulting installed table is exactly one row
/// per request, in order, each carrying the version (and checksum, and
/// binary name) of the record its reference resolved to at call time,
/// and the synced tables are unchanged throughout.
pub proof fn lemma_install_set(st: StView, reqs: Seq<InstallReq>)
    requires
        st.db.installed.len() == 0,
        all_install_ok(st, reqs),
        forall|i: int, j: int|
            0 <= i < j < reqs.len() ==> resolved_rec(st, reqs[i].q).id != resolved_rec(
                st,
                reqs[j].q,
            ).id,
    ensures
        apply_install_seq(st, reqs).db.tables == st.db.tables,
        apply_install_seq(st, reqs).db.installed.len() == reqs.len(),
        forall|k: int|
            0 <= k < reqs.len() ==> apply_install_seq(st, reqs).db.installed[k]
                == new_row_view(resolved_rec(st, reqs[k].q), reqs[k].o),
    decreases reqs.len(),
{
    if reqs.len() > 0 {
        let dl = reqs.drop_last();
        assert(forall|k: int| 0 <= k < dl.len() ==> dl[k] == reqs[k]);
        lemma_install_set(st, dl);
        let pre = apply_install_seq(st, dl);
        let last = reqs.last();
        let oc = begin_outcome(pre, last.q, last.f, last.o);
        let rec = oc.unwrap();
        assert(pre.db.tables == st.db.tables);
        assert(rec == resolved_rec(st, last.q));
        assert(forall|k: int|
            0 <= k < pre.db.installed.len() ==> pre.db.installed[k].id != rec.id);
        let st1 = begin_apply(pre, rec);
        lemma_remove_id_absent(st1.db.installed, rec.id);
        let st2 = commit_apply(st1, rec, last.o);
        assert(st2.db.installed =~= pre.db.installed.push(new_row_view(rec, last.o)));
        assert(apply_install_seq(st, reqs) == st2);
    }
}

/// P3 — at most one writer. While one install of a package is begun
/// and not yet committed (its lock is held), any second install
/// request resolving to the same package id cannot reach its own
/// commit: its begin is an error. And the commit of the first writes
/// exactly one row for that id. After that commit, a retry of the same
/// non-`force` request short-circuits as already installed.
pub proof fn lemma_at_most_one_writer(
    st: StView,
    q1: RefView,
    f1: FetchView,
    o1: OptView,
    q2: RefView,
    f2: FetchView,
    o2: OptView,
)
    requires
        begin_outcome(st, q1, f1, o1) is Ok,
    ensures
        ({
            let rec1 = begin_outcome(st, q1, f1, o1).unwrap();
            let st1 = begin_apply(st, rec1);
            &&& (begin_outcome(st1, q2, f2, o2) is Ok ==> begin_outcome(
                st1,
                q2,
                f2,
                o2,
            ).unwrap().id != rec1.id)
            &&& count_id(commit_apply(st1, rec1, o1).db.installed, rec1.id) == 1
            &&& (!o1.force ==> begin_outcome(commit_apply(st1, rec1, o1), q1, f1, o1)
                == Err::<RecView, SoarError>(SoarError::AlreadyInstalled))
        }),
{
    let rec1 = begin_outcome(st, q1, f1, o1).unwrap();
    let st1 = begin_apply(st, rec1);
    assert(st1.locks[st1.locks.len() - 1] == rec1.id);
    assert(st1.locks.contains(rec1.id));
    if begin_outcome(st1, q2, f2, o2) is Ok {
        let rec2 = begin_outcome(st1, q2, f2, o2).unwrap();
        assert(!st1.locks.contains(rec2.id));
    }
    let st2 = commit_apply(st1, rec1, o1);
    lemma_remove_id(st1.db.installed, rec1.id);
    lemma_count_push(remove_id(st1.db.installed, rec1.id), new_row_view(rec1, o1), rec1.id);
    lemma_find_inst_push(remove_id(st1.db.installed, rec1.id), new_row_view(rec1, o1));
    assert(find_inst(st2.db.installed, rec1.id) == Some(new_row_view(rec1, o1)));
}

/// P4 — crash safety. Between a successful begin and its commit,
/// nothing authoritative has changed: the database (both tables), the
/// installed artifact directories and the symlinks are exactly those of
/// the pre-begin state, the staged artifact lives only in the staging
/// area, and a health check classifies every installed row exactly as
/// before. In particular a package that had no installed row still has
/// none.
pub proof fn lemma_crash_safety(st: StView, q: RefView, f: FetchView, o: OptView)
    requires
        begin_outcome(st, q, f, o) is Ok,
    ensures
        ({
            let rec = begin_outcome(st, q, f, o).unwrap();
            let st1 = begin_apply(st, rec);
            &&& st1.db == st.db
            &&& st1.disk.artifacts == st.disk.artifacts
            &&& st1.disk.symlinks == st.disk.symlinks
            &&& forall|k: int|
                0 <= k < st1.db.installed.len() ==> classify(st1, st1.db.installed[k])
                    == classify(st, st.db.installed[k])
            &&& (find_inst(st.db.installed, rec.id) is None ==> find_inst(
                st1.db.installed,
                rec.id,
            ) is None)
        }),
{
}

/// Artifacts of `id` are all gone after `remove_pkg_arts`.
proof fn lemma_remove_pkg_arts_count(arts: Seq<ArtView>, id: Seq<u8>)
    ensures
        count_pkg_arts(remove_pkg_arts(arts, id), id) == 0,
    decreases arts.len(),
{
    if arts.len() > 0 {
        lemma_remove_pkg_arts_count(arts.drop_last(), id);
        if arts.last().id != id {
            let rp = remove_pkg_arts(arts.drop_last(), id);
            assert(rp.push(arts.last()).drop_last() =~= rp);
        }
    }
}

/// Rows of `id` are all gone after `remove_id`.
proof fn lemma_find_after_remove(s: Seq<IpView>, id: Seq<u8>)
    ensures
        find_inst(remove_id(s, id), id) is None,
{
    lemma_remove_id(s, id);
    crate::db::lemma_find_inst_none(remove_id(s, id), id);
}

/// P6 — round trip. After a successful one-shot install from a state
/// that does not hold the package's lock, removal of that package id
/// succeeds, and afterwards the store has zero installed rows for the
/// id and the filesystem zero artifact directories under the package's
/// install path.
pub proof fn lemma_remove_after_install(st: StView, q: RefView, f: FetchView, o: OptView)
    requires
        begin_outcome(st, q, f, o) is Ok,
    ensures
        ({
            let rec = begin_outcome(st, q, f, o).unwrap();
            let st2 = install_apply(st, q, f, o);
            let st3 = remove_apply(st2, rec.id);
            &&& remove_outcome(st2, rec.id) is Ok
            &&& find_inst(st3.db.installed, rec.id) is None
            &&& count_pkg_arts(st3.disk.artifacts, rec.id) == 0
        }),
{
    let rec = begin_outcome(st, q, f, o).unwrap();
    assert(!st.locks.contains(rec.id));
    let st1 = begin_apply(st, rec);
    let st2 = commit_apply(st1, rec, o);
    assert(install_apply(st, q, f, o) == st2);
    lemma_remove_lock_push(st.locks, rec.id);
    lemma_remove_lock_absent(st.locks, rec.id);
    assert(st2.locks == st.locks);
    lemma_remove_id(st1.db.installed, rec.id);
    lemma_find_inst_push(remove_id(st1.db.installed, rec.id), new_row_view(rec, o));
    assert(find_inst(st2.db.installed, rec.id) is Some);
    assert(remove_outcome(st2, rec.id) is Ok);
    let st3 = remove_apply(st2, rec.id);
    lemma_find_after_remove(st2.db.installed, rec.id);
    lemma_remove_pkg_arts_count(st2.disk.artifacts, rec.id);
}

/// Pruning drops exactly `d` old artifacts when `d` of them exist.
proof fn lemma_prune_count(arts: Seq<ArtView>, id: Seq<u8>, cur: Seq<u8>, d: nat)
    requires
        d <= count_prev(arts, id, cur),
    ensures
        count_prev(prune_arts(arts, id, cur, d), id, cur) == count_prev(arts, id, cur) - d,
    decreases arts.len(),
{
    if arts.len() > 0 {
        let h = arts[0];
        let rest = arts.drop_first();
        if h.id == id && h.version != cur && d > 0 {
            lemma_prune_count(rest, id, cur, (d - 1) as nat);
        } else {
            if d <= count_prev(rest, id, cur) {
                lemma_prune_count(rest, id, cur, d);
            }
            let tail = prune_arts(rest, id, cur, d);
            assert((seq![h] + tail)[0] == h);
            assert((seq![h] + tail).drop_first() =~= tail);
        }
    }
}

/// P7 — retention. A committed update prunes the package's previous
/// versions' artifacts down to exactly `keep` of them (or to all that
/// exist, when fewer than `keep` remain), alongside the new current
/// version. With `keep == 1`, after two successive updates exactly one
/// previous version's artifact remains on disk.
pub proof fn lemma_retention(st: StView, id: Seq<u8>, f: FetchView, o: OptView, keep: usize)
    requires
        update_outcome(st, id, f, o) == Ok::<bool, SoarError>(true),
    ensures
        ({
            let row = find_inst(st.db.installed, id).unwrap();
            let ms = matching_recs(
                all_recs(st.db.tables),
                RefView { repo: Some(row.repo), id: id },
            );
            let rec = ms[0];
            let st1 = commit_apply(st, rec, o);
            let before = count_prev(st1.disk.artifacts, id, rec.version);
            let after = count_prev(
                update_apply(st, id, f, o, keep).disk.artifacts,
                id,
                rec.version,
            );
            after == if before > keep {
                keep as nat
            } else {
                before
            }
        }),
{
    let row = find_inst(st.db.installed, id).unwrap();
    let ms = matching_recs(all_recs(st.db.tables), RefView { repo: Some(row.repo), id: id });
    let rec = ms[0];
    let st1 = commit_apply(st, rec, o);
    let before = count_prev(st1.disk.artifacts, id, rec.version);
    let dn: nat = if before > keep {
        (before - keep) as nat
    } else {
        0
    };
    lemma_prune_count(st1.disk.artifacts, id, rec.version, dn);
}

/// What replacing one artifact directory leaves: no remaining entry for
/// the pair, everything drawn from the original, uniqueness preserved,
/// and every other pair's entry kept.
proof fn lemma_remove_art_props(arts: Seq<ArtView>, id: Seq<u8>, ver: Seq<u8>)
    ensures
        forall|k: int|
            0 <= k < crate::engine::remove_art(arts, id, ver).len() ==> !((
            #[trigger] crate::engine::remove_art(arts, id, ver)[k]).id == id
                && crate::engine::remove_art(arts, id, ver)[k].version == ver)
                && arts.contains(crate::engine::remove_art(arts, id, ver)[k]),
        (forall|i: int, j: int|
            0 <= i < j < arts.len() ==> !(arts[i].id == arts[j].id && arts[i].version
                == arts[j].version)) ==> (forall|i: int, j: int|
            0 <= i < j < crate::engine::remove_art(arts, id, ver).len()
                ==> !(crate::engine::remove_art(arts, id, ver)[i].id
                == crate::engine::remove_art(arts, id, ver)[j].id
                && crate::engine::remove_art(arts, id, ver)[i].version
                == crate::engine::remove_art(arts, id, ver)[j].version)),
        forall|k: int|
            0 <= k < arts.len() && !((#[trigger] arts[k]).id == id && arts[k].version
                == ver) ==> crate::engine::remove_art(arts, id, ver).contains(arts[k]),
    decreases arts.len(),
{
    if arts.len() > 0 {
        lemma_remove_art_props(arts.drop_last(), id, ver);
        assert(forall|k: int|
            0 <= k < arts.drop_last().len() ==> arts.drop_last()[k] == arts[k]);
        assert(forall|x: ArtView| arts.drop_last().contains(x) ==> arts.contains(x));
        let rp = crate::engine::remove_art(arts.drop_last(), id, ver);
        let r = crate::engine::remove_art(arts, id, ver);
        if !(arts.last().id == id && arts.last().version == ver) {
            assert(r == rp.push(arts.last()));
            assert(forall|k: int| 0 <= k < rp.len() ==> r[k] == rp[k]);
            assert(r[rp.len() as int] == arts.last());
            assert(arts.contains(arts.last()));
            assert(forall|x: ArtView| rp.contains(x) ==> r.contains(x));
            if forall|i: int, j: int|
                0 <= i < j < arts.len() ==> !(arts[i].id == arts[j].id && arts[i].version
                    == arts[j].version) {
                assert forall|i: int, j: int| 0 <= i < j < r.len() implies !(r[i].id == r[
                    j
                ].id && r[i].version == r[j].version) by {
                    if j < r.len() - 1 {
                    } else {
                        assert(rp.contains(rp[i]));
                        assert(arts.drop_last().contains(rp[i]));
                        let w = choose|w: int|
                            0 <= w < arts.drop_last().len() && arts.drop_last()[w] == rp[
                                i
                            ];
                        assert(arts[w] == rp[i]);
                    }
                }
            }
        } else {
            assert(r == rp);
            assert(forall|x: ArtView| rp.contains(x) ==> r.contains(x));
        }
    }
}

/// Invariant preservation: one commit keeps the whole state well
/// formed — the database keys stay unique, no artifact directory is
/// duplicated, and every installed row is still backed by a fully
/// populated artifact directory.
pub proof fn lemma_commit_preserves_wf(st: StView, rec: RecView, o: OptView)
    requires
        st_wf(st),
        !crate::engine::portable_conflict(o),
    ensures
        st_wf(commit_apply(st, rec, o)),
{
    let st2 = commit_apply(st, rec, o);
    lemma_remove_id(st.db.installed, rec.id);
    let kept = remove_id(st.db.installed, rec.id);
    let row = new_row_view(rec, o);
    assert(forall|i: int, j: int|
        0 <= i < j < st2.db.installed.len() ==> st2.db.installed[i].id != st2.db.installed[
            j
        ].id);
    let arts2 = st2.disk.artifacts;
    lemma_remove_art_props(st.disk.artifacts, rec.id, rec.version);
    let ra = crate::engine::remove_art(st.disk.artifacts, rec.id, rec.version);
    assert(arts2 == ra.push(
        ArtView { id: rec.id, version: rec.version, checksum: rec.checksum },
    ));
    assert(forall|k: int| 0 <= k < ra.len() ==> arts2[k] == ra[k]);
    assert(arts2[ra.len() as int].id == rec.id && arts2[ra.len() as int].version
        == rec.version);
    assert forall|i: int, j: int| 0 <= i < j < arts2.len() implies !(arts2[i].id == arts2[
        j
    ].id && arts2[i].version == arts2[j].version) by {
        if j < arts2.len() - 1 {
        } else {
            assert(arts2[i] == ra[i]);
        }
    }
    assert(has_art(arts2, rec.id, rec.version)) by {
        assert(arts2[arts2.len() - 1].id == rec.id && arts2[arts2.len() - 1].version
            == rec.version);
    }
    assert forall|k: int| 0 <= k < st2.db.installed.len() implies has_art(
        arts2,
        (#[trigger] st2.db.installed[k]).id,
        st2.db.installed[k].version,
    ) by {
        if k < kept.len() {
            assert(st2.db.installed[k] == kept[k]);
            assert(st.db.installed.contains(kept[k]));
            let w = choose|i: int|
                0 <= i < st.db.installed.len() && st.db.installed[i] == kept[k];
            assert(kept[k].id != rec.id);
            assert(has_art(st.disk.artifacts, kept[k].id, kept[k].version));
            let a = choose|j: int|
                0 <= j < st.disk.artifacts.len() && st.disk.artifacts[j].id == kept[k].id
                    && st.disk.artifacts[j].version == kept[k].version;
            assert(ra.contains(st.disk.artifacts[a]));
            let b = choose|b: int| 0 <= b < ra.len() && ra[b] == st.disk.artifacts[a];
            assert(arts2[b].id == kept[k].id && arts2[b].version == kept[k].version);
        } else {
            assert(st2.db.installed[k] == row);
        }
    }
    assert forall|k: int| 0 <= k < st2.db.installed.len() implies crate::engine::portable_ok(
        #[trigger] st2.db.installed[k],
    ) by {
        if k < kept.len() {
            assert(st2.db.installed[k] == kept[k]);
            assert(st.db.installed.contains(kept[k]));
            let w = choose|i: int|
                0 <= i < st.db.installed.len() && st.db.installed[i] == kept[k];
            assert(crate::engine::portable_ok(st.db.installed[w]));
        } else {
            assert(st2.db.installed[k] == row);
        }
    }
}

/// Invariant preservation: a one-shot install keeps the whole state
/// well formed. There is never a pending state.
pub proof fn lemma_install_preserves_wf(st: StView, q: RefView, f: FetchView, o: OptView)
    requires
        st_wf(st),
    ensures
        st_wf(install_apply(st, q, f, o)),
{
    if begin_outcome(st, q, f, o) is Ok {
        let rec = begin_outcome(st, q, f, o).unwrap();
        let st1 = begin_apply(st, rec);
        lemma_commit_preserves_wf(st1, rec, o);
    }
}

/// What pruning leaves: only directories drawn from the original, with
/// uniqueness preserved, and every directory that is not an old version
/// of the pruned package kept.
proof fn lemma_prune_props(arts: Seq<ArtView>, id: Seq<u8>, cur: Seq<u8>, d: nat)
    ensures
        forall|k: int|
            0 <= k < prune_arts(arts, id, cur, d).len() ==> arts.contains(
                #[trigger] prune_arts(arts, id, cur, d)[k],
            ),
        (forall|i: int, j: int|
            0 <= i < j < arts.len() ==> !(arts[i].id == arts[j].id && arts[i].version
                == arts[j].version)) ==> (forall|i: int, j: int|
            0 <= i < j < prune_arts(arts, id, cur, d).len() ==> !(prune_arts(
                arts,
                id,
                cur,
                d,
            )[i].id == prune_arts(arts, id, cur, d)[j].id && prune_arts(arts, id, cur, d)[
                i
            ].version == prune_arts(arts, id, cur, d)[j].version)),
        forall|k: int|
            0 <= k < arts.len() && !((#[trigger] arts[k]).id == id && arts[k].version
                != cur) ==> prune_arts(arts, id, cur, d).contains(arts[k]),
    decreases arts.len(),
{
    if arts.len() > 0 {
        let h = arts[0];
        let rest = arts.drop_first();
        assert(forall|k: int| 0 <= k < rest.len() ==> rest[k] == arts[k + 1]);
        assert(forall|x: ArtView| rest.contains(x) ==> arts.contains(x));
        if h.id == id && h.version != cur && d > 0 {
            lemma_prune_props(rest, id, cur, (d - 1) as nat);
            assert(prune_arts(arts, id, cur, d) == prune_arts(rest, id, cur, (
            d - 1) as nat));
            if forall|i: int, j: int|
                0 <= i < j < arts.len() ==> !(arts[i].id == arts[j].id && arts[i].version
                    == arts[j].version) {
                assert(forall|i: int, j: int|
                    0 <= i < j < rest.len() ==> !(rest[i].id == rest[j].id
                        && rest[i].version == rest[j].version));
            }
            assert forall|k: int|
                0 <= k < prune_arts(arts, id, cur, d).len() implies arts.contains(
                #[trigger] prune_arts(arts, id, cur, d)[k],
            ) by {
                assert(prune_arts(arts, id, cur, d)[k] == prune_arts(
                    rest,
                    id,
                    cur,
                    (d - 1) as nat,
                )[k]);
                assert(rest.contains(prune_arts(rest, id, cur, (d - 1) as nat)[k]));
            }
            assert forall|k: int|
                0 <= k < arts.len() && !((#[trigger] arts[k]).id == id && arts[k].version
                    != cur) implies prune_arts(arts, id, cur, d).contains(arts[k]) by {
                assert(k != 0);
                assert(rest[k - 1] == arts[k]);
                assert(prune_arts(rest, id, cur, (d - 1) as nat).contains(rest[k - 1]));
            }
        } else {
            lemma_prune_props(rest, id, cur, d);
            let t = prune_arts(rest, id, cur, d);
            let r = prune_arts(arts, id, cur, d);
            assert(r == seq![h] + t);
            assert(r[0] == h);
            assert(forall|k: int| 0 <= k < t.len() ==> r[k + 1] == t[k]);
            assert(arts.contains(h)) by {
                assert(arts[0] == h);
            }
            assert(forall|x: ArtView| t.contains(x) ==> r.contains(x));
            assert forall|k: int| 0 <= k < r.len() implies arts.contains(
                #[trigger] r[k],
            ) by {
                if k == 0 {
                    assert(r[k] == h);
                } else {
                    assert(r[k] == t[k - 1]);
                    assert(rest.contains(t[k - 1]));
                }
            }
            assert forall|k: int|
                0 <= k < arts.len() && !((#[trigger] arts[k]).id == id && arts[k].version
                    != cur) implies r.contains(arts[k]) by {
                if k == 0 {
                    assert(r[0] == arts[0]);
                } else {
                    assert(rest[k - 1] == arts[k]);
                    assert(t.contains(rest[k - 1]));
                }
            }
            if forall|i: int, j: int|
                0 <= i < j < arts.len() ==> !(arts[i].id == arts[j].id && arts[i].version
                    == arts[j].version) {
                assert(forall|i: int, j: int|
                    0 <= i < j < rest.len() ==> !(rest[i].id == rest[j].id
                        && rest[i].version == rest[j].version));
                assert forall|i: int, j: int| 0 <= i < j < r.len() implies !(r[i].id == r[
                    j
                ].id && r[i].version == r[j].version) by {
                    if i == 0 {
                        assert(r[j] == t[j - 1]);
                        assert(rest.contains(t[j - 1]));
                        let w = choose|w: int| 0 <= w < rest.len() && rest[w] == t[j - 1];
                        assert(arts[w + 1] == t[j - 1]);
                        assert(!(arts[0].id == arts[w + 1].id && arts[0].version == arts[
                            w + 1
                        ].version));
                    } else {
                        assert(r[i] == t[i - 1] && r[j] == t[j - 1]);
                    }
                }
            }
        }
    }
}

/// Every record the matcher returns answers the reference.
proof fn lemma_matching_hits(rs: Seq<RecView>, q: RefView)
    ensures
        forall|k: int|
            0 <= k < matching_recs(rs, q).len() ==> crate::db::ref_hits(
                #[trigger] matching_recs(rs, q)[k],
                q,
            ),
    decreases rs.len(),
{
    if rs.len() > 0 {
        lemma_matching_hits(rs.drop_last(), q);
        if crate::db::ref_hits(rs.last(), q) {
            let rp = matching_recs(rs.drop_last(), q);
            assert(matching_recs(rs, q) == rp.push(rs.last()));
            assert(forall|k: int| 0 <= k < rp.len() ==> rp.push(rs.last())[k] == rp[k]);
            assert(rp.push(rs.last())[rp.len() as int] == rs.last());
        } else {
            assert(matching_recs(rs, q) == matching_recs(rs.drop_last(), q));
        }
    }
}

/// Invariant preservation: an update — the commit of the new version
/// followed by retention pruning — keeps the whole state well formed;
/// in particular pruning never removes the artifact directory backing
/// any installed row.
pub proof fn lemma_update_preserves_wf(
    st: StView,
    id: Seq<u8>,
    f: FetchView,
    o: OptView,
    keep: usize,
)
    requires
        st_wf(st),
    ensures
        st_wf(update_apply(st, id, f, o, keep)),
{
    if update_outcome(st, id, f, o) == Ok::<bool, SoarError>(true) {
        let row = find_inst(st.db.installed, id).unwrap();
        let ms = matching_recs(
            all_recs(st.db.tables),
            RefView { repo: Some(row.repo), id: id },
        );
        let rec = ms[0];
        let st1 = commit_apply(st, rec, o);
        lemma_commit_preserves_wf(st, rec, o);
        let dn = crate::engine::update_drop_count(st1.disk.artifacts, id, rec.version, keep);
        lemma_prune_props(st1.disk.artifacts, id, rec.version, dn);
        lemma_remove_id(st.db.installed, id);
        let st2 = update_apply(st, id, f, o, keep);
        let arts2 = st2.disk.artifacts;
        lemma_matching_hits(all_recs(st.db.tables), RefView { repo: Some(row.repo), id: id });
        assert(rec.id == id);
        assert forall|k: int| 0 <= k < st2.db.installed.len() implies has_art(
            arts2,
            (#[trigger] st2.db.installed[k]).id,
            st2.db.installed[k].version,
        ) by {
            let r = st2.db.installed[k];
            assert(has_art(st1.disk.artifacts, r.id, r.version));
            let a = choose|j: int|
                0 <= j < st1.disk.artifacts.len() && st1.disk.artifacts[j].id == r.id
                    && st1.disk.artifacts[j].version == r.version;
            if r.id == id {
                assert(r.version == rec.version) by {
                    if k < remove_id(st.db.installed, id).len() {
                        assert(remove_id(st.db.installed, id)[k].id != id);
                    }
                }
            }
            assert(!(st1.disk.artifacts[a].id == id && st1.disk.artifacts[a].version
                != rec.version));
            assert(arts2.contains(st1.disk.artifacts[a]));
            let b = choose|b: int|
                0 <= b < arts2.len() && arts2[b] == st1.disk.artifacts[a];
            assert(arts2[b].id == r.id && arts2[b].version == r.version);
        }
    }
}

/// What artifact removal leaves: only other packages' directories, all
/// drawn from the original, with uniqueness preserved and every other
/// package's directory kept.
proof fn lemma_remove_pkg_arts_props(arts: Seq<ArtView>, id: Seq<u8>)
    ensures
        forall|k: int|
            0 <= k < remove_pkg_arts(arts, id).len() ==> (#[trigger] remove_pkg_arts(
                arts,
                id,
            )[k]).id != id && arts.contains(remove_pkg_arts(arts, id)[k]),
        (forall|i: int, j: int|
            0 <= i < j < arts.len() ==> !(arts[i].id == arts[j].id && arts[i].version
                == arts[j].version)) ==> (forall|i: int, j: int|
            0 <= i < j < remove_pkg_arts(arts, id).len() ==> !(remove_pkg_arts(arts, id)[
                i
            ].id == remove_pkg_arts(arts, id)[j].id && remove_pkg_arts(arts, id)[
                i
            ].version == remove_pkg_arts(arts, id)[j].version)),
        forall|k: int|
            0 <= k < arts.len() && (#[trigger] arts[k]).id != id ==> remove_pkg_arts(
                arts,
                id,
            ).contains(arts[k]),
    decreases arts.len(),
{
    if arts.len() > 0 {
        lemma_remove_pkg_arts_props(arts.drop_last(), id);
        assert(forall|k: int|
            0 <= k < arts.drop_last().len() ==> arts.drop_last()[k] == arts[k]);
        assert(forall|x: ArtView| arts.drop_last().contains(x) ==> arts.contains(x));
        let rp = remove_pkg_arts(arts.drop_last(), id);
        if arts.last().id != id {
            let r = remove_pkg_arts(arts, id);
            assert(r == rp.push(arts.last()));
            assert(forall|k: int| 0 <= k < rp.len() ==> r[k] == rp[k]);
            assert(r[rp.len() as int] == arts.last());
            assert(arts.contains(arts.last()));
            assert(forall|x: ArtView| rp.contains(x) ==> r.contains(x));
            if forall|i: int, j: int|
                0 <= i < j < arts.len() ==> !(arts[i].id == arts[j].id && arts[i].version
                    == arts[j].version) {
                assert forall|i: int, j: int|
                    0 <= i < j < r.len() implies !(r[i].id == r[j].id && r[i].version == r[
                    j
                ].version) by {
                    if j < r.len() - 1 {
                    } else {
                        assert(rp.contains(rp[i]));
                        assert(arts.drop_last().contains(rp[i]));
                        let w = choose|w: int|
                            0 <= w < arts.drop_last().len() && arts.drop_last()[w] == rp[
                                i
                            ];
                        assert(arts[w] == rp[i]);
                    }
                }
            }
        } else {
            assert(forall|x: ArtView| rp.contains(x) ==> remove_pkg_arts(
                arts,
                id,
            ).contains(x));
        }
    }
}

/// Invariant preservation: removal keeps the state well formed.
pub proof fn lemma_remove_preserves_wf(st: StView, id: Seq<u8>)
    requires
        st_wf(st),
    ensures
        st_wf(remove_apply(st, id)),
{
    if remove_outcome(st, id) is Ok {
        let st2 = remove_apply(st, id);
        lemma_remove_id(st.db.installed, id);
        lemma_remove_pkg_arts_props(st.disk.artifacts, id);
        let kept = remove_id(st.db.installed, id);
        let arts2 = remove_pkg_arts(st.disk.artifacts, id);
        assert forall|k: int| 0 <= k < st2.db.installed.len() implies has_art(
            st2.disk.artifacts,
            (#[trigger] st2.db.installed[k]).id,
            st2.db.installed[k].version,
        ) by {
            assert(st.db.installed.contains(kept[k]));
            let w = choose|i: int|
                0 <= i < st.db.installed.len() && st.db.installed[i] == kept[k];
            assert(has_art(st.disk.artifacts, kept[k].id, kept[k].version));
            let a = choose|j: int|
                0 <= j < st.disk.artifacts.len() && st.disk.artifacts[j].id == kept[k].id
                    && st.disk.artifacts[j].version == kept[k].version;
            assert(st.disk.artifacts[a].id != id);
            assert(arts2.contains(st.disk.artifacts[a]));
            let b = choose|b: int| 0 <= b < arts2.len() && arts2[b] == st.disk.artifacts[a];
            assert(arts2[b].id == kept[k].id && arts2[b].version == kept[k].version);
        }
        assert forall|k: int|
            0 <= k < st2.db.installed.len() implies crate::engine::portable_ok(
            #[trigger] st2.db.installed[k],
        ) by {
            assert(st.db.installed.contains(kept[k]));
            let w = choose|i: int|
                0 <= i < st.db.installed.len() && st.db.installed[i] == kept[k];
            assert(crate::engine::portable_ok(st.db.installed[w]));
        }
    }
}

/// What repair leaves: only rows whose artifact directory exists, all
/// drawn from the original, with uniqueness preserved.
proof fn lemma_repair_rows_props(inst: Seq<IpView>, arts: Seq<ArtView>)
    ensures
        forall|k: int|
            0 <= k < crate::engine::repair_rows(inst, arts).len() ==> has_art(
                arts,
                (#[trigger] crate::engine::repair_rows(inst, arts)[k]).id,
                crate::engine::repair_rows(inst, arts)[k].version,
            ) && inst.contains(crate::engine::repair_rows(inst, arts)[k]),
        (forall|i: int, j: int| 0 <= i < j < inst.len() ==> inst[i].id != inst[j].id)
            ==> (forall|i: int, j: int|
            0 <= i < j < crate::engine::repair_rows(inst, arts).len()
                ==> crate::engine::repair_rows(inst, arts)[i].id
                != crate::engine::repair_rows(inst, arts)[j].id),
    decreases inst.len(),
{
    if inst.len() > 0 {
        lemma_repair_rows_props(inst.drop_last(), arts);
        assert(forall|k: int|
            0 <= k < inst.drop_last().len() ==> inst.drop_last()[k] == inst[k]);
        assert(forall|x: IpView| inst.drop_last().contains(x) ==> inst.contains(x));
        let rp = crate::engine::repair_rows(inst.drop_last(), arts);
        if has_art(arts, inst.last().id, inst.last().version) {
            let r = crate::engine::repair_rows(inst, arts);
            assert(r == rp.push(inst.last()));
            assert(forall|k: int| 0 <= k < rp.len() ==> r[k] == rp[k]);
            assert(r[rp.len() as int] == inst.last());
            assert(inst.contains(inst.last()));
            if forall|i: int, j: int| 0 <= i < j < inst.len() ==> inst[i].id != inst[j].id {
                assert forall|i: int, j: int| 0 <= i < j < r.len() implies r[i].id != r[
                    j
                ].id by {
                    if j < r.len() - 1 {
                    } else {
                        assert(rp.contains(rp[i]));
                        assert(inst.drop_last().contains(rp[i]));
                        let w = choose|w: int|
                            0 <= w < inst.drop_last().len() && inst.drop_last()[w] == rp[
                                i
                            ];
                        assert(inst[w] == rp[i]);
                    }
                }
            }
        }
    }
}

/// The health checker's purpose, made formal: repair re-establishes
/// the full state invariant from any state whose database keys and
/// artifact directories are unique — in particular after a crash left
/// rows pointing at missing install trees.
pub proof fn lemma_repair_establishes_wf(st: StView)
    requires
        crate::db::db_wf(st.db),
        forall|i: int, j: int|
            0 <= i < j < st.disk.artifacts.len() ==> !(st.disk.artifacts[i].id
                == st.disk.artifacts[j].id && st.disk.artifacts[i].version
                == st.disk.artifacts[j].version),
        forall|k: int| 0 <= k < st.db.installed.len() ==> crate::engine::portable_ok(
            #[trigger] st.db.installed[k],
        ),
    ensures
        st_wf(crate::engine::repair_apply(st)),
{
    lemma_repair_rows_props(st.db.installed, st.disk.artifacts);
    let kept = crate::engine::repair_rows(st.db.installed, st.disk.artifacts);
    assert forall|k: int| 0 <= k < kept.len() implies crate::engine::portable_ok(
        #[trigger] kept[k],
    ) by {
        assert(st.db.installed.contains(kept[k]));
        let w = choose|i: int|
            0 <= i < st.db.installed.len() && st.db.installed[i] == kept[k];
        assert(crate::engine::portable_ok(st.db.installed[w]));
    }
}

/// Tables left by `remove_table` never carry the removed name.
proof fn lemma_remove_table_clean(ts: Seq<TableView>, repo: Seq<u8>)
    ensures
        forall|k: int|
            0 <= k < remove_table(ts, repo).len() ==> (#[trigger] remove_table(ts, repo)[
                k
            ]).repo != repo,
    decreases ts.len(),
{
    if ts.len() > 0 {
        lemma_remove_table_clean(ts.drop_last(), repo);
        if ts.last().repo != repo {
            let rest = remove_table(ts.drop_last(), repo);
            assert(remove_table(ts, repo) == rest.push(ts.last()));
            assert(forall|k: int|
                0 <= k < rest.len() ==> rest.push(ts.last())[k] == rest[k]);
            assert(rest.push(ts.last())[rest.len() as int] == ts.last());
        } else {
            assert(remove_table(ts, repo) == remove_table(ts.drop_last(), repo));
        }
    }
}

/// Removing a name that no table carries changes nothing.
proof fn lemma_remove_table_absent(ts: Seq<TableView>, repo: Seq<u8>)
    requires
        forall|k: int| 0 <= k < ts.len() ==> (#[trigger] ts[k]).repo != repo,
    ensures
        remove_table(ts, repo) == ts,
    decreases ts.len(),
{
    if ts.len() > 0 {
        assert(forall|k: int|
            0 <= k < ts.drop_last().len() ==> ts.drop_last()[k] == ts[k]);
        lemma_remove_table_absent(ts.drop_last(), repo);
        assert(remove_table(ts, repo) =~= ts);
    }
}

/// Shards left by `remove_shard` never carry the removed name.
proof fn lemma_remove_shard_clean(ss: Seq<ShardView>, repo: Seq<u8>)
    ensures
        forall|k: int|
            0 <= k < remove_shard(ss, repo).len() ==> (#[trigger] remove_shard(ss, repo)[
                k
            ]).repo != repo,
    decreases ss.len(),
{
    if ss.len() > 0 {
        lemma_remove_shard_clean(ss.drop_last(), repo);
        if ss.last().repo != repo {
            let rest = remove_shard(ss.drop_last(), repo);
            assert(remove_shard(ss, repo) == rest.push(ss.last()));
            assert(forall|k: int|
                0 <= k < rest.len() ==> rest.push(ss.last())[k] == rest[k]);
            assert(rest.push(ss.last())[rest.len() as int] == ss.last());
        } else {
            assert(remove_shard(ss, repo) == remove_shard(ss.drop_last(), repo));
        }
    }
}

/// Removing a name that no shard carries changes nothing.
proof fn lemma_remove_shard_absent(ss: Seq<ShardView>, repo: Seq<u8>)
    requires
        forall|k: int| 0 <= k < ss.len() ==> (#[trigger] ss[k]).repo != repo,
    ensures
        remove_shard(ss, repo) == ss,
    decreases ss.len(),
{
    if ss.len() > 0 {
        assert(forall|k: int|
            0 <= k < ss.drop_last().len() ==> ss.drop_last()[k] == ss[k]);
        lemma_remove_shard_absent(ss.drop_last(), repo);
        assert(remove_shard(ss, repo) =~= ss);
    }
}

/// Replacing a repository's table and shard twice with the same
/// records and document equals replacing them once.
proof fn lemma_sync_apply_idempotent(
    st: StView,
    repo: Seq<u8>,
    recs: Seq<RecView>,
    doc: Seq<u8>,
    now: u64,
)
    ensures
        sync_apply(sync_apply(st, repo, recs, doc, now), repo, recs, doc, now)
            == sync_apply(st, repo, recs, doc, now),
{
    let st1 = sync_apply(st, repo, recs, doc, now);
    let t = TableView { repo: repo, records: recs };
    assert(remove_table(st.db.tables, repo).push(t).drop_last() =~= remove_table(
        st.db.tables,
        repo,
    ));
    lemma_remove_table_clean(st.db.tables, repo);
    lemma_remove_table_absent(remove_table(st.db.tables, repo), repo);
    assert(remove_table(st1.db.tables, repo) == remove_table(st.db.tables, repo));
    let sh = ShardView { repo: repo, content: doc, synced_at: now };
    assert(remove_shard(st.disk.shards, repo).push(sh).drop_last() =~= remove_shard(
        st.disk.shards,
        repo,
    ));
    lemma_remove_shard_clean(st.disk.shards, repo);
    lemma_remove_shard_absent(remove_shard(st.disk.shards, repo), repo);
    assert(remove_shard(st1.disk.shards, repo) == remove_shard(st.disk.shards, repo));
    assert(sync_apply(st1, repo, recs, doc, now) =~= st1);
}

/// P2 — sync idempotence. The outcome of a sync is a function of the
/// repository name and the fetched document alone (`sync_outcome`
/// takes no state), so re-running a sync whose remote content is
/// unchanged returns the same result — in particular it succeeds again
/// whenever it succeeded. And the second transition changes nothing:
/// the local shard stays byte-identical to the document and the table
/// identical to its decoded records.
pub proof fn lemma_sync_idempotent(st: StView, repo: Seq<u8>, doc: Seq<u8>, now: u64)
    ensures
        sync_step(
            sync_step(st, repo, FetchView::Fetched(doc), now),
            repo,
            FetchView::Fetched(doc),
            now,
        ) == sync_step(st, repo, FetchView::Fetched(doc), now),
{
    match crate::shard::dec_shard(doc, repo) {
        Some(rv) => {
            lemma_sync_apply_idempotent(st, repo, rv, doc, now);
        },
        None => {
        },
    }
}

} // verus!
