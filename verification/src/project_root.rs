//! Finding the project a directory belongs to: the nearest ancestor that
//! holds a `.jute` directory.
use vstd::prelude::*;

use crate::error::JuteError;
use crate::text::string_from;

verus! {

/// What `Path::parent` gives for a path: the path without its final
/// component, or `None` for a root or the empty path.
pub uninterp spec fn parent_path(p: Seq<char>) -> Option<Seq<char>>;

/// What `Path::join` gives for two paths on a Unix system: an absolute
/// `rest` replaces `base`; otherwise `rest` is appended to `base`, after a
/// `/` unless `base` is empty or already ends in one.
pub open spec fn joined_path(base: Seq<char>, rest: Seq<char>) -> Seq<char> {
    if rest.len() > 0 && rest[0] == '/' {
        rest
    } else if base.len() == 0 || base.last() == '/' {
        base + rest
    } else {
        base + seq!['/'] + rest
    }
}

/// The parent of a path (`Path::parent`), taken by its text. The parent is
/// the path without its final component, so it is shorter than the path.
#[verifier::external_body]
fn path_parent(p: &str) -> (r: Option<&str>)
    ensures
        match r {
            Some(q) => parent_path(p@) == Some(q@) && q@.len() < p@.len(),
            None => parent_path(p@) is None,
        },
{
    match std::path::Path::new(p).parent() {
        Some(q) => q.to_str(),
        None => None,
    }
}

/// Two paths joined (`Path::join`), taken by their text: an absolute `rest`
/// replaces `base`, and a relative one is appended after a separator.
#[verifier::external_body]
pub(crate) fn path_join(base: &str, rest: &str) -> (r: String)
    ensures
        r@ == joined_path(base@, rest@),
{
    std::path::Path::new(base).join(rest).to_string_lossy().into_owned()
}

/// `start` and its ancestors up to `walk.last()`, each the parent of the one
/// before it.
pub open spec fn is_walk(start: Seq<char>, walk: Seq<Seq<char>>) -> bool {
    &&& walk.len() > 0
    &&& walk[0] == start
    &&& forall|i: int| 0 <= i < walk.len() - 1 ==> parent_path(#[trigger] walk[i]) == Some(walk[i + 1])
}

/// The root of a project: a directory holding a `.jute` directory.
#[derive(Debug, Clone, Copy, PartialEq)]
pub struct ProjectRoot<'a> {
    root: &'a str,
}

impl<'a> ProjectRoot<'a> {
    pub closed spec fn root(&self) -> Seq<char> {
        self.root@
    }

    /// Walks up from `cwd` (inclusive) and returns the nearest ancestor for
    /// which `has_jute_dir` answers yes; `has_jute_dir` is asked of each
    /// directory in turn, nearest first, until one answers yes.
    ///
    /// `cwd` should be absolute: a relative path's ancestors stop at the
    /// empty path rather than going on up to the filesystem root.
    pub fn find_project_root_starting_from<F: Fn(&str) -> bool>(
        cwd: &'a str,
        has_jute_dir: F,
    ) -> (r: Result<Self, JuteError>)
        requires
            forall|d: &str| #[trigger] has_jute_dir.requires((d,)),
        ensures
            match r {
                Ok(root) => exists|walk: Seq<Seq<char>>|
                    {
                        &&& is_walk(cwd@, walk)
                        &&& walk.last() == root.root()
                        &&& forall|i: int|
                            0 <= i < walk.len() - 1 ==> asked(has_jute_dir, walk[i], false)
                        &&& asked(has_jute_dir, root.root(), true)
                    },
                Err(e) => e matches JuteError::NoProjectRoot { cwd: c } && c@ == cwd@ && exists|
                    walk: Seq<Seq<char>>,
                |
                    {
                        &&& is_walk(cwd@, walk)
                        &&& parent_path(walk.last()) is None
                        &&& forall|i: int|
                            0 <= i < walk.len() ==> asked(has_jute_dir, walk[i], false)
                    },
            },
    {
        let mut dir: &'a str = cwd;
        let ghost mut walk: Seq<Seq<char>> = seq![cwd@];
        loop
            invariant
                forall|d: &str| #[trigger] has_jute_dir.requires((d,)),
                is_walk(cwd@, walk),
                walk.last() == dir@,
                forall|i: int| 0 <= i < walk.len() - 1 ==> asked(has_jute_dir, walk[i], false),
            decreases dir@.len(),
        {
            let found = has_jute_dir(dir);
            if found {
                return Ok(ProjectRoot { root: dir });
            }
            match path_parent(dir) {
                Some(parent) => {
                    proof {
                        let w = walk.push(parent@);
                        assert forall|i: int| 0 <= i < w.len() - 1 implies parent_path(
                            #[trigger] w[i],
                        ) == Some(w[i + 1]) by {
                            if i < walk.len() - 1 {
                                assert(w[i] == walk[i] && w[i + 1] == walk[i + 1]);
                            }
                        }
                        assert forall|i: int| 0 <= i < w.len() - 1 implies asked(
                            has_jute_dir,
                            w[i],
                            false,
                        ) by {
                            if i < walk.len() - 1 {
                                assert(w[i] == walk[i]);
                            }
                        }
                        walk = w;
                    }
                    dir = parent;
                },
                None => {
                    return Err(JuteError::NoProjectRoot { cwd: string_from(cwd) });
                },
            }
        }
    }

    /// The `.jute` directory of the project.
    pub fn jute_dir(&self) -> (r: String)
        ensures
            r@ == joined_path(self.root(), ".jute"@),
    {
        path_join(self.root, ".jute")
    }

    /// The project's root directory.
    pub fn path(&self) -> (r: &'a str)
        ensures
            r@ == self.root(),
    {
        self.root
    }
}

/// Whether `f`, asked about `dir`, may have answered `answer`.
pub open spec fn asked<F: Fn(&str) -> bool>(f: F, dir: Seq<char>, answer: bool) -> bool {
    exists|d: &str| d@ == dir && #[trigger] f.ensures((d,), answer)
}

} // verus!
