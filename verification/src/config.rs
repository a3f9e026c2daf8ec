//! Manifest configuration.
//!
//! The manifest file itself is parsed by the unverified driver around this
//! library; the checked construction of the [`Manifest`] value, including the
//! rule that the manifest file is an implicit input of every artifact, lives
//! here.

use vstd::prelude::*;

use crate::cache::Artifact;
use crate::util::join_path_spec;
use crate::util::join_path;
use crate::util::views_of;

verus! {

/// Why a manifest was rejected.
#[derive(Debug, PartialEq, Eq)]
pub enum ConfigError {
    /// Two artifacts carry the same name.
    DuplicateArtifactName { name: String },
}

/// A build artifact cache manifest: the cache root directory (absolute or
/// relative to the repository root), the named artifacts, and the optional
/// name of an environment variable whose presence disables the cache.
#[derive(Debug)]
pub struct Manifest {
    pub cache_root_dir: String,
    pub artifacts: Vec<(String, Artifact)>,
    pub disable_env_var: Option<String>,
}

/// Whether the artifact names are pairwise distinct.
pub open spec fn names_unique(arts: Seq<(String, Artifact)>) -> bool {
    forall|i: int, j: int|
        0 <= i < j < arts.len() ==> (#[trigger] arts[i].0)@ != (#[trigger] arts[j].0)@
}

impl Manifest {
    /// Assemble a manifest loaded from the file at `manifest_path`: the
    /// artifact names must be unique, and the manifest file itself becomes
    /// an input of every artifact, so that editing it invalidates cached
    /// entries.
    pub fn new(
        cache_root_dir: String,
        artifacts: Vec<(String, Artifact)>,
        disable_env_var: Option<String>,
        manifest_path: &str,
    ) -> (r: Result<Manifest, ConfigError>)
        ensures
            match r {
                Ok(m) => {
                    &&& names_unique(artifacts@)
                    &&& m.cache_root_dir == cache_root_dir
                    &&& m.disable_env_var == disable_env_var
                    &&& m.artifacts@.len() == artifacts@.len()
                    &&& forall|i: int|
                        0 <= i < artifacts@.len() ==> {
                            &&& (#[trigger] m.artifacts@[i]).0 == artifacts@[i].0
                            &&& m.artifacts@[i].1.outputs@ == artifacts@[i].1.outputs@
                            &&& views_of(m.artifacts@[i].1.inputs@) == views_of(
                                artifacts@[i].1.inputs@,
                            ) + seq![manifest_path@]
                        }
                },
                Err(ConfigError::DuplicateArtifactName { name }) => {
                    &&& !names_unique(artifacts@)
                    &&& exists|i: int, j: int|
                        0 <= i < j < artifacts@.len() && (#[trigger] artifacts@[i]).0@ == (
                        #[trigger] artifacts@[j]).0@ && artifacts@[j].0@ == name@
                },
            },
    {
        let n = artifacts.len();
        let mut j: usize = 1;
        while j < n
            invariant
                1 <= j <= n || (n <= 1 && j == 1),
                n == artifacts@.len(),
                forall|a: int, b: int|
                    0 <= a < b < j ==> (#[trigger] artifacts@[a].0)@ != (
                    #[trigger] artifacts@[b].0)@,
            decreases n - j,
        {
            let mut i: usize = 0;
            while i < j
                invariant
                    0 <= i <= j < n,
                    n == artifacts@.len(),
                    forall|a: int| 0 <= a < i ==> (#[trigger] artifacts@[a].0)@ != artifacts@[
                        j as int].0@,
                decreases j - i,
            {
                if artifacts[i].0 == artifacts[j].0 {
                    return Err(ConfigError::DuplicateArtifactName { name: artifacts[j].0.clone() });
                }
                i = i + 1;
            }
            j = j + 1;
        }
        let mut with_input: Vec<(String, Artifact)> = Vec::new();
        let mut k: usize = 0;
        while k < n
            invariant
                0 <= k <= n,
                n == artifacts@.len(),
                with_input@.len() == k,
                forall|i: int|
                    0 <= i < k ==> {
                        &&& (#[trigger] with_input@[i]).0 == artifacts@[i].0
                        &&& with_input@[i].1.outputs@ == artifacts@[i].1.outputs@
                        &&& views_of(with_input@[i].1.inputs@) == views_of(artifacts@[i].1.inputs@)
                            + seq![manifest_path@]
                    },
            decreases n - k,
        {
            let entry = &artifacts[k];
            let mut inputs = crate::util::clone_strings(&entry.1.inputs);
            inputs.push(String::from_str(manifest_path));
            proof {
                assert(views_of(inputs@) =~= views_of(artifacts@[k as int].1.inputs@) + seq![
                    manifest_path@,
                ]);
            }
            let arti = Artifact { inputs, outputs: crate::util::clone_strings(&entry.1.outputs) };
            with_input.push((entry.0.clone(), arti));
            k = k + 1;
        }
        Ok(Manifest { cache_root_dir, artifacts: with_input, disable_env_var })
    }

    /// The files, relative to the repository root and in search order, at
    /// which the manifest may stand: the first that exists is loaded.
    pub fn search_paths(repo_root: &str) -> (r: Vec<String>)
        ensures
            r@.len() == 3,
            r@[0]@ == join_path_spec(repo_root@, "Memora.yml"@),
            r@[1]@ == join_path_spec(repo_root@, ".ci/Memora.yml"@),
            r@[2]@ == join_path_spec(repo_root@, ".gitlab-ci.d/Memora.yml"@),
    {
        let mut r = Vec::<String>::new();
        r.push(join_path(repo_root, "Memora.yml"));
        r.push(join_path(repo_root, ".ci/Memora.yml"));
        r.push(join_path(repo_root, ".gitlab-ci.d/Memora.yml"));
        r
    }
}

} // verus!
