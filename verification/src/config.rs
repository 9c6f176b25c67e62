//! The configuration store: the repository list, profiles and resolved
//! filesystem roots, built once at startup by the surrounding process
//! and passed by reference into every engine call. Validation and root
//! resolution are the logic here; reading and writing the actual
//! configuration file is the surrounding process's concern.

use vstd::prelude::*;

use crate::bytes::{bytes_eq, copy_vec, seq_views};
use crate::errors::SoarError;

verus! {

/// A named remote source of package metadata.
pub struct Repository {
    pub name: Vec<u8>,
    pub metadata_url: Vec<u8>,
    pub local_shard_path: Vec<u8>,
    pub last_sync_time: u64,
}

/// Ghost image of a [`Repository`].
pub struct RepoView {
    pub name: Seq<u8>,
    pub url: Seq<u8>,
    pub shard_path: Seq<u8>,
    pub last_sync_time: u64,
}

impl View for Repository {
    type V = RepoView;

    open spec fn view(&self) -> RepoView {
        RepoView {
            name: self.name@,
            url: self.metadata_url@,
            shard_path: self.local_shard_path@,
            last_sync_time: self.last_sync_time,
        }
    }
}

/// A profile selects which roots the store operations resolve against;
/// it never changes package identity.
pub struct Profile {
    pub name: Vec<u8>,
    pub packages_root_override: Option<Vec<u8>>,
}

/// Ghost image of a [`Profile`].
pub struct ProfileView {
    pub name: Seq<u8>,
    pub packages_root_override: Option<Seq<u8>>,
}

impl View for Profile {
    type V = ProfileView;

    open spec fn view(&self) -> ProfileView {
        ProfileView {
            name: self.name@,
            packages_root_override: crate::db::opt_view(self.packages_root_override),
        }
    }
}

/// The resolved, immutable configuration of one process invocation.
pub struct Config {
    pub repositories: Vec<Repository>,
    pub profiles: Vec<Profile>,
    pub bin_dir: Vec<u8>,
    pub db_dir: Vec<u8>,
    pub cache_dir: Vec<u8>,
    pub packages_dir: Vec<u8>,
    pub repositories_dir: Vec<u8>,
    pub proxy: Option<Vec<u8>>,
    pub user_agent: Option<Vec<u8>>,
    /// Connect/read timeout, milliseconds; no network wait is unbounded.
    pub timeout_ms: u64,
    /// Cap on transfer retry attempts for transient failures.
    pub max_retries: u64,
}

/// Element views of the repositories.
pub open spec fn repo_views(s: Seq<Repository>) -> Seq<RepoView> {
    s.map_values(|r: Repository| r@)
}

/// Element views of the profiles.
pub open spec fn profile_views(s: Seq<Profile>) -> Seq<ProfileView> {
    s.map_values(|p: Profile| p@)
}

/// A valid configuration: repository names are a unique key, every
/// repository has a nonempty name and URL, and every root is nonempty.
pub open spec fn config_ok(c: Config) -> bool {
    &&& forall|i: int, j: int|
        0 <= i < j < c.repositories@.len() ==> repo_views(c.repositories@)[i].name
            != repo_views(c.repositories@)[j].name
    &&& forall|i: int|
        0 <= i < c.repositories@.len() ==> (#[trigger] repo_views(c.repositories@)[
            i
        ]).name.len() > 0 && repo_views(c.repositories@)[i].url.len() > 0
    &&& c.bin_dir@.len() > 0
    &&& c.db_dir@.len() > 0
    &&& c.cache_dir@.len() > 0
    &&& c.packages_dir@.len() > 0
    &&& c.repositories_dir@.len() > 0
}

/// The first profile named `name`, if any.
pub open spec fn find_profile(ps: Seq<ProfileView>, name: Seq<u8>) -> Option<ProfileView>
    decreases ps.len(),
{
    if ps.len() == 0 {
        None
    } else if ps[0].name == name {
        Some(ps[0])
    } else {
        find_profile(ps.drop_first(), name)
    }
}

proof fn lemma_find_profile_index(ps: Seq<ProfileView>, name: Seq<u8>, i: int)
    requires
        0 <= i < ps.len(),
        forall|k: int| 0 <= k < i ==> ps[k].name != name,
        ps[i].name == name,
    ensures
        find_profile(ps, name) == Some(ps[i]),
    decreases i,
{
    if i > 0 {
        lemma_find_profile_index(ps.drop_first(), name, i - 1);
    }
}

proof fn lemma_find_profile_none(ps: Seq<ProfileView>, name: Seq<u8>)
    requires
        forall|k: int| 0 <= k < ps.len() ==> ps[k].name != name,
    ensures
        find_profile(ps, name) is None,
    decreases ps.len(),
{
    if ps.len() > 0 {
        lemma_find_profile_none(ps.drop_first(), name);
    }
}

impl Config {
    /// Validates the configuration: `Ok` exactly when [`config_ok`]
    /// holds, and a configuration error otherwise, before any I/O.
    pub fn validate(&self) -> (r: Result<(), SoarError>)
        ensures
            r is Ok <==> config_ok(*self),
            r is Err ==> r == Err::<(), SoarError>(SoarError::Config),
    {
        if self.bin_dir.len() == 0 || self.db_dir.len() == 0 || self.cache_dir.len() == 0
            || self.packages_dir.len() == 0 || self.repositories_dir.len() == 0 {
            return Err(SoarError::Config);
        }
        let mut i: usize = 0;
        while i < self.repositories.len()
            invariant
                i <= self.repositories@.len(),
                forall|a: int, b: int|
                    0 <= a < b < i ==> repo_views(self.repositories@)[a].name != repo_views(
                        self.repositories@,
                    )[b].name,
                forall|a: int|
                    0 <= a < i ==> (#[trigger] repo_views(self.repositories@)[
                        a
                    ]).name.len() > 0 && repo_views(self.repositories@)[a].url.len() > 0,
            decreases self.repositories@.len() - i,
        {
            proof {
                assert(repo_views(self.repositories@)[i as int] == self.repositories@[
                    i as int
                ]@);
            }
            if self.repositories[i].name.len() == 0 || self.repositories[
                i
            ].metadata_url.len() == 0 {
                return Err(SoarError::Config);
            }
            let mut j: usize = 0;
            while j < i
                invariant
                    j <= i < self.repositories@.len(),
                    forall|a: int|
                        0 <= a < j ==> repo_views(self.repositories@)[a].name != repo_views(
                            self.repositories@,
                        )[i as int].name,
                decreases i - j,
            {
                proof {
                    assert(repo_views(self.repositories@)[j as int] == self.repositories@[
                        j as int
                    ]@);
                    assert(repo_views(self.repositories@)[i as int] == self.repositories@[
                        i as int
                    ]@);
                }
                if bytes_eq(&self.repositories[j].name, &self.repositories[i].name) {
                    return Err(SoarError::Config);
                }
                j += 1;
            }
            i += 1;
        }
        Ok(())
    }

    /// The packages root the given profile resolves against: the
    /// profile's override when it has one, else the shared root.
    pub fn packages_root(&self, profile: &Vec<u8>) -> (r: Vec<u8>)
        ensures
            r@ == (match find_profile(profile_views(self.profiles@), profile@) {
                Some(p) => match p.packages_root_override {
                    Some(o) => o,
                    None => self.packages_dir@,
                },
                None => self.packages_dir@,
            }),
    {
        let mut i: usize = 0;
        while i < self.profiles.len()
            invariant
                i <= self.profiles@.len(),
                forall|k: int|
                    0 <= k < i ==> profile_views(self.profiles@)[k].name != profile@,
            decreases self.profiles@.len() - i,
        {
            proof {
                assert(profile_views(self.profiles@)[i as int] == self.profiles@[
                    i as int
                ]@);
            }
            if bytes_eq(&self.profiles[i].name, profile) {
                proof {
                    lemma_find_profile_index(
                        profile_views(self.profiles@),
                        profile@,
                        i as int,
                    );
                }
                match &self.profiles[i].packages_root_override {
                    Some(o) => {
                        return copy_vec(o);
                    },
                    None => {
                        return copy_vec(&self.packages_dir);
                    },
                }
            }
            i += 1;
        }
        proof {
            lemma_find_profile_none(profile_views(self.profiles@), profile@);
        }
        copy_vec(&self.packages_dir)
    }

    /// The repository names, in configuration order; what a full sync
    /// iterates over.
    pub fn repo_names(&self) -> (r: Vec<Vec<u8>>)
        ensures
            r@.len() == self.repositories@.len(),
            forall|k: int|
                0 <= k < r@.len() ==> seq_views(r@)[k] == repo_views(self.repositories@)[
                    k
                ].name,
    {
        let mut out: Vec<Vec<u8>> = Vec::new();
        let mut i: usize = 0;
        while i < self.repositories.len()
            invariant
                i <= self.repositories@.len(),
                out@.len() == i,
                forall|k: int|
                    0 <= k < i ==> seq_views(out@)[k] == repo_views(self.repositories@)[
                        k
                    ].name,
            decreases self.repositories@.len() - i,
        {
            let c = copy_vec(&self.repositories[i].name);
            let ghost old_out = out@;
            out.push(c);
            proof {
                assert forall|k: int| 0 <= k <= i implies seq_views(out@)[k] == repo_views(
                    self.repositories@,
                )[k].name by {
                    assert(seq_views(out@)[k] == out@[k]@);
                    assert(repo_views(self.repositories@)[k] == self.repositories@[k]@);
                    if k < i {
                        assert(out@[k] == old_out[k]);
                        assert(seq_views(old_out)[k] == old_out[k]@);
                    }
                }
            }
            i += 1;
        }
        out
    }
}

} // verus!
