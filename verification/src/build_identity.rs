//! What a build is known by: its revision, and whether it was changed after it.

use vstd::prelude::*;
use vstd::string::*;

use crate::text::{chars_of, join2};

verus! {

/// A name put behind a directory.
pub open spec fn joined(dir: Seq<char>, name: Seq<char>) -> Seq<char> {
    if dir.len() == 0 {
        name
    } else if dir.last() == '/' {
        dir + name
    } else {
        dir + "/"@ + name
    }
}

/// A relative name put behind a directory.
pub fn join_path(dir: &str, name: &str) -> (r: String)
    ensures
        r@ == joined(dir@, name@),
{
    let chars = chars_of(dir);
    let n: usize = chars.len();
    if n == 0 {
        return name.to_owned();
    }
    let mut out = dir.to_owned();
    if chars[n - 1] != '/' {
        out.append("/");
    }
    out.append(name);
    out
}

/// The revision of a source tree.
#[derive(Debug)]
pub struct GitIdentity {
    pub commit: Option<String>,
    pub short_commit: Option<String>,
    /// Whether the tree differs from the revision.
    pub dirty: Option<bool>,
}

/// The text in an answer, where there is one.
pub open spec fn answer(text: Option<String>) -> Option<Seq<char>> {
    match text {
        Some(text) => Some(text@),
        None => None,
    }
}

/// The identity of a tree from what the version control answers. `is_top` says whether the tree
/// is the top of its repository: one that was unpacked inside another repository has no revision
/// of its own.
pub fn capture(
    is_top: bool,
    commit: Option<String>,
    short_commit: Option<String>,
    status: Option<String>,
) -> (r: GitIdentity)
    ensures
        ({
            let known = is_top && commit is Some && commit->Some_0@.len() > 0;
            &&& answer(r.commit) == if known {
                answer(commit)
            } else {
                None
            }
            &&& answer(r.short_commit) == if known {
                answer(short_commit)
            } else {
                None
            }
            &&& r.dirty == if known && status is Some {
                Some(status->Some_0@.len() > 0)
            } else {
                None::<bool>
            }
        }),
{
    let known = is_top && match &commit {
        Some(text) => !text.as_str().is_empty(),
        None => false,
    };
    if !known {
        return GitIdentity { commit: None, short_commit: None, dirty: None };
    }
    let dirty = match &status {
        Some(text) => Some(!text.as_str().is_empty()),
        None => None,
    };
    GitIdentity { commit, short_commit, dirty }
}

/// The texts of paths.
pub open spec fn path_texts(paths: Seq<String>) -> Seq<Seq<char>> {
    Seq::new(paths.len(), |k: int| paths[k]@)
}

/// The files whose change makes an identity stale.
pub open spec fn watched(
    root: Seq<char>,
    git_dir: Option<Seq<char>>,
    common_dir: Option<Seq<char>>,
) -> Seq<Seq<char>> {
    seq![joined(root, ".git"@)] + (match git_dir {
        Some(dir) => seq![joined(dir, "HEAD"@), joined(dir, "index"@)],
        None => seq![],
    }) + (match common_dir {
        Some(dir) => seq![joined(dir, "refs"@), joined(dir, "packed-refs"@)],
        None => seq![],
    })
}

fn push_path(paths: &mut Vec<String>, path: String)
    ensures
        path_texts(final(paths)@) == path_texts(old(paths)@).push(path@),
{
    let ghost text = path@;
    paths.push(path);
    assert(path_texts(paths@) =~= path_texts(old(paths)@).push(text));
}

/// The files whose change makes an identity stale: those of the tree's own directory, and the
/// references that it shares with its repository.
pub fn rerun_paths(root: &str, git_dir: Option<&str>, common_dir: Option<&str>) -> (r: Vec<String>)
    ensures
        path_texts(r@) == watched(
            root@,
            match git_dir {
                Some(dir) => Some(dir@),
                None => None,
            },
            match common_dir {
                Some(dir) => Some(dir@),
                None => None,
            },
        ),
{
    let mut paths: Vec<String> = Vec::new();
    push_path(&mut paths, join_path(root, ".git"));
    if let Some(dir) = git_dir {
        push_path(&mut paths, join_path(dir, "HEAD"));
        push_path(&mut paths, join_path(dir, "index"));
    }
    if let Some(dir) = common_dir {
        push_path(&mut paths, join_path(dir, "refs"));
        push_path(&mut paths, join_path(dir, "packed-refs"));
    }
    proof {
        let g = match git_dir {
            Some(dir) => Some(dir@),
            None => None,
        };
        let c = match common_dir {
            Some(dir) => Some(dir@),
            None => None,
        };
        assert(path_texts(paths@) =~= watched(root@, g, c));
    }
    paths
}

/// How a program was built.
#[derive(Debug)]
pub struct TrainerBuild {
    pub commit: Option<String>,
    pub dirty: Option<bool>,
    pub backend: &'static str,
}

/// Which backends were built in.
#[derive(Clone, Copy, Debug, PartialEq, Eq, Structural)]
pub struct BackendFeatures {
    pub native: bool,
    pub oxide_parity: bool,
    pub oxide: bool,
}

/// The name of the backend that a build prefers.
pub open spec fn backend_text(features: BackendFeatures) -> Seq<char> {
    if features.native {
        "native"@
    } else if features.oxide_parity {
        "oxide-parity"@
    } else if features.oxide {
        "oxide"@
    } else {
        "cpu-only"@
    }
}

/// The build that the recorded values tell of. An unknown revision is recorded as `unknown`, and
/// what is neither `true` nor `false` tells nothing of changes.
pub fn trainer_build(commit: &str, dirty: &str, features: BackendFeatures) -> (r: TrainerBuild)
    ensures
        answer(r.commit) == if commit@ == "unknown"@ {
            None
        } else {
            Some(commit@)
        },
        r.dirty == if dirty@ == "true"@ {
            Some(true)
        } else if dirty@ == "false"@ {
            Some(false)
        } else {
            None::<bool>
        },
        r.backend@ == backend_text(features),
{
    let commit = commit.to_owned();
    let dirty = dirty.to_owned();
    proof {
        reveal_strlit("true");
        reveal_strlit("false");
        assert("true"@.len() != "false"@.len());
    }
    TrainerBuild {
        commit: if commit == "unknown".to_owned() {
            None
        } else {
            Some(commit)
        },
        dirty: if dirty == "true".to_owned() {
            Some(true)
        } else if dirty == "false".to_owned() {
            Some(false)
        } else {
            None
        },
        backend: if features.native {
            "native"
        } else if features.oxide_parity {
            "oxide-parity"
        } else if features.oxide {
            "oxide"
        } else {
            "cpu-only"
        },
    }
}

/// The revision that an experiment is recorded under: only where it is known whether the tree was
/// changed, and marked where it was.
pub fn experiment_commit(build: &TrainerBuild) -> (r: Option<String>)
    ensures
        answer(r) == match (build.commit, build.dirty) {
            (Some(commit), Some(false)) => Some(commit@),
            (Some(commit), Some(true)) => Some(commit@ + "-dirty"@),
            _ => None,
        },
{
    match &build.commit {
        Some(commit) => match build.dirty {
            Some(true) => Some(join2(commit.as_str(), "-dirty")),
            Some(false) => Some(commit.clone()),
            None => None,
        },
        None => None,
    }
}

/// The short revision that a build records: marked where the tree was changed, and none where
/// there is no revision. A state that cannot be found out counts as unchanged.
pub fn build_commit(short_commit: Option<&str>, changed: Option<bool>) -> (r: Option<String>)
    ensures
        answer(r) == match short_commit {
            Some(commit) => if commit@.len() == 0 {
                None
            } else if changed == Some(true) {
                Some(commit@ + "-dirty"@)
            } else {
                Some(commit@)
            },
            None => None,
        },
{
    match short_commit {
        Some(commit) => {
            if commit.is_empty() {
                return None;
            }
            match changed {
                Some(true) => Some(join2(commit, "-dirty")),
                _ => Some(commit.to_owned()),
            }
        },
        None => None,
    }
}

/// Whether a build is known by its recorded revision: it has one, and its tree was not changed.
pub open spec fn known_build(recorded: Seq<char>) -> bool {
    &&& recorded != "unknown"@
    &&& !(recorded.len() >= 6 && recorded.skip(recorded.len() - 6) == "-dirty"@)
}

/// Whether a build is known by its recorded revision.
pub fn is_known_build(recorded: &str) -> (r: bool)
    ensures
        r == known_build(recorded@),
{
    if recorded.to_owned() == "unknown".to_owned() {
        return false;
    }
    let chars = chars_of(recorded);
    let n: usize = chars.len();
    proof {
        reveal_strlit("-dirty");
    }
    if n < 6 {
        return true;
    }
    let mark = chars_of("-dirty");
    let mut i: usize = 0;
    while i < 6
        invariant
            i <= 6,
            n >= 6,
            chars@ == recorded@,
            n == recorded@.len(),
            mark@ == "-dirty"@,
            mark@.len() == 6,
            recorded@ != "unknown"@,
            forall|k: int| 0 <= k < i ==> #[trigger] recorded@.skip(n - 6)[k] == mark@[k],
        decreases 6 - i,
    {
        if chars[n - 6 + i] != mark[i] {
            assert(recorded@.skip(n - 6)[i as int] != mark@[i as int]);
            return true;
        }
        i += 1;
    }
    assert(recorded@.skip(n - 6) =~= "-dirty"@);
    false
}

/// The revision that a build records as text.
pub fn recorded_commit(commit: Option<String>) -> (r: String)
    ensures
        r@ == match commit {
            Some(text) => text@,
            None => "unknown"@,
        },
{
    match commit {
        Some(text) => text,
        None => "unknown".to_owned(),
    }
}

/// A build without a revision, or of a changed tree, is not known by what it records.
pub proof fn changed_builds_are_not_known(commit: Seq<char>)
    ensures
        !known_build("unknown"@),
        !known_build(commit + "-dirty"@),
{
    reveal_strlit("-dirty");
    let marked = commit + "-dirty"@;
    assert(marked.skip(marked.len() - 6) =~= "-dirty"@);
}

/// Whether the native backend is asked for: always where it is the only one, else by the value of
/// the variable that selects it.
pub fn native_backend_requested(native_only: bool, selected: Option<&str>) -> (r: bool)
    ensures
        r == (native_only || (selected is Some && selected->Some_0@ == "native"@)),
{
    native_only || match selected {
        Some(text) => text.to_owned() == "native".to_owned(),
        None => false,
    }
}

/// The backend that runs.
pub fn runtime_backend(native_requested: bool) -> (r: &'static str)
    ensures
        r@ == if native_requested {
            "native"@
        } else {
            "oxide"@
        },
{
    if native_requested {
        "native"
    } else {
        "oxide"
    }
}

/// The short record of a build and its full identity tell the same: where revision and changes are
/// both known, the recorded revision starts with the full one, and carries the mark exactly where
/// there were changes.
pub proof fn records_agree(commit: Seq<char>, dirty: bool)
    ensures
        ({
            let recorded = if dirty {
                commit + "-dirty"@
            } else {
                commit
            };
            &&& recorded.take(commit.len() as int) == commit
            &&& dirty <==> recorded.len() > commit.len()
        }),
{
    reveal_strlit("-dirty");
    let recorded = if dirty {
        commit + "-dirty"@
    } else {
        commit
    };
    assert(recorded.take(commit.len() as int) =~= commit);
}

/// A joined path is the directory, a slash where it does not end in one, and the name. An empty
/// directory adds nothing.
pub proof fn joined_paths_have_one_slash(dir: Seq<char>, name: Seq<char>)
    ensures
        ({
            let path = joined(dir, name);
            let at = path.len() - name.len();
            &&& path.skip(at) == name
            &&& path.take(dir.len() as int) == dir
            &&& dir.len() == 0 ==> at == 0
            &&& dir.len() > 0 ==> path[at - 1] == '/' && (at == dir.len() <==> dir.last() == '/')
                && at <= dir.len() + 1
        }),
{
    reveal_strlit("/");
    let path = joined(dir, name);
    let at = path.len() - name.len();
    assert(path.skip(at) =~= name);
    assert(path.take(dir.len() as int) =~= dir);
}

/// A known build is one with a revision that is not marked as changed.
pub proof fn known_builds_are_unmarked(recorded: Seq<char>)
    ensures
        known_build(recorded) <==> recorded != "unknown"@ && !(exists|commit: Seq<char>|
            recorded == #[trigger] (commit + "-dirty"@)),
{
    reveal_strlit("-dirty");
    if recorded.len() >= 6 && recorded.skip(recorded.len() - 6) == "-dirty"@ {
        let commit = recorded.take(recorded.len() - 6);
        assert(recorded =~= commit + "-dirty"@);
    }
    if exists|commit: Seq<char>| recorded == #[trigger] (commit + "-dirty"@) {
        let commit = choose|commit: Seq<char>| recorded == #[trigger] (commit + "-dirty"@);
        assert(recorded.skip(recorded.len() - 6) =~= "-dirty"@);
    }
}

/// The backend that a build tells of is one that was built in, the native one before the others.
pub proof fn builds_tell_their_backend(features: BackendFeatures)
    ensures
        backend_text(features) == "native"@ <==> features.native,
        backend_text(features) == "oxide-parity"@ ==> features.oxide_parity,
        backend_text(features) == "oxide"@ ==> features.oxide && !features.oxide_parity,
        backend_text(features) == "cpu-only"@ <==> !features.native && !features.oxide_parity
            && !features.oxide,
{
    reveal_strlit("native");
    reveal_strlit("oxide-parity");
    reveal_strlit("oxide");
    reveal_strlit("cpu-only");
    assert("native"@[0] == 'n' && "oxide"@.len() == 5 && "cpu-only"@[0] == 'c');
    assert("oxide-parity"@[0] == 'o' && "oxide-parity"@.len() == 12 && "oxide"@[0] == 'o');
}

} // verus!
