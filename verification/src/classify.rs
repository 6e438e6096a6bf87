//! Path classifier: decides, for every file path a diagnostic references,
//! whether it lies inside the project, inside a recognized third-party
//! dependency root, or can not be classified.
//!
//! The classifier itself is pure: the file-system answers it needs
//! (canonicalization and the regular-file test) are handed in as an
//! environment, one entry per span path of the probe at hand.

use vstd::prelude::*;

use crate::text::is_text_prefix;
use crate::text::str_eq;
use crate::text::str_starts_with;
use crate::text::string_views;

verus! {

/// How one referenced file relates to the project.
pub enum Classification {
    /// The canonical path lies under the project root.
    InProject,
    /// The canonical path of an existing regular file under a recognized
    /// third-party root.
    ThirdParty(String),
    /// Everything else, including paths that could not be canonicalized.
    Unclassifiable,
}

/// The mathematical image of a classification.
pub enum ClassificationModel {
    InProject,
    ThirdParty(Seq<char>),
    Unclassifiable,
}

impl View for Classification {
    type V = ClassificationModel;

    open spec fn view(&self) -> ClassificationModel {
        match self {
            Classification::InProject => ClassificationModel::InProject,
            Classification::ThirdParty(p) => ClassificationModel::ThirdParty(p@),
            Classification::Unclassifiable => ClassificationModel::Unclassifiable,
        }
    }
}

/// What the file system answered for one span path: the canonical
/// absolute path when canonicalization succeeded, and whether the path
/// names an existing regular file.
pub struct FsEntry {
    pub path: String,
    pub canonical: Option<String>,
    pub is_regular_file: bool,
}

pub struct FsEntryModel {
    pub path: Seq<char>,
    pub canonical: Option<Seq<char>>,
    pub is_regular_file: bool,
}

impl View for FsEntry {
    type V = FsEntryModel;

    open spec fn view(&self) -> FsEntryModel {
        FsEntryModel {
            path: self.path@,
            canonical: match self.canonical {
                Option::Some(c) => Option::Some(c@),
                Option::None => Option::None,
            },
            is_regular_file: self.is_regular_file,
        }
    }
}

/// The classification environment: the project root, the recognized
/// third-party roots, and the file-system answers for the span paths of
/// the probe at hand.
pub struct Environment {
    pub project_root: String,
    pub dep_roots: Vec<String>,
    pub fs: Vec<FsEntry>,
}

pub struct EnvironmentModel {
    pub project_root: Seq<char>,
    pub dep_roots: Seq<Seq<char>>,
    pub fs: Seq<FsEntryModel>,
}

impl View for Environment {
    type V = EnvironmentModel;

    open spec fn view(&self) -> EnvironmentModel {
        EnvironmentModel {
            project_root: self.project_root@,
            dep_roots: string_views(self.dep_roots@),
            fs: self.fs@.map_values(|e: FsEntry| e@),
        }
    }
}

/// Whether path `p` lies under directory `root`: either `p` is `root`
/// itself, or `root` is a prefix of `p` ending at a path separator.
pub open spec fn path_under(p: Seq<char>, root: Seq<char>) -> bool {
    p == root || (is_text_prefix(root, p) && p.len() > root.len() && p[root.len() as int] == '/')
}

/// Tests whether path `p` lies under directory `root`.
pub fn is_path_under(p: &str, root: &str) -> (r: bool)
    ensures
        r == path_under(p@, root@),
{
    if str_eq(p, root) {
        return true;
    }
    if !str_starts_with(p, root) {
        return false;
    }
    let p_len = p.unicode_len();
    let root_len = root.unicode_len();
    p_len > root_len && p.get_char(root_len) == '/'
}

/// Whether `p` lies under any of the recognized roots.
pub open spec fn under_any(p: Seq<char>, roots: Seq<Seq<char>>) -> bool {
    exists|i: int| 0 <= i < roots.len() && path_under(p, #[trigger] roots[i])
}

/// Tests whether `p` lies under any of the recognized roots.
pub fn is_under_any(p: &str, roots: &Vec<String>) -> (r: bool)
    ensures
        r == under_any(p@, string_views(roots@)),
{
    let mut i: usize = 0;
    while i < roots.len()
        invariant
            0 <= i <= roots@.len(),
            forall|j: int| 0 <= j < i ==> !path_under(p@, #[trigger] roots@[j]@),
        decreases roots@.len() - i,
    {
        if is_path_under(p, roots[i].as_str()) {
            proof {
                assert(path_under(p@, string_views(roots@)[i as int]));
            }
            return true;
        }
        i = i + 1;
    }
    proof {
        assert forall|j: int| 0 <= j < string_views(roots@).len() implies !path_under(
            p@,
            #[trigger] string_views(roots@)[j],
        ) by {
            assert(!path_under(p@, roots@[j]@));
        }
    }
    false
}

/// The first file-system entry recorded for `path`.
pub open spec fn fs_lookup(fs: Seq<FsEntryModel>, path: Seq<char>) -> Option<FsEntryModel>
    decreases fs.len(),
{
    if fs.len() == 0 {
        Option::None
    } else if fs[0].path == path {
        Option::Some(fs[0])
    } else {
        fs_lookup(fs.drop_first(), path)
    }
}

pub proof fn lemma_fs_lookup_found(fs: Seq<FsEntryModel>, path: Seq<char>, k: int)
    requires
        0 <= k < fs.len(),
        forall|j: int| 0 <= j < k ==> (#[trigger] fs[j]).path != path,
        fs[k].path == path,
    ensures
        fs_lookup(fs, path) == Option::Some(fs[k]),
    decreases fs.len(),
{
    if k > 0 {
        assert(fs[0].path != path);
        lemma_fs_lookup_found(fs.drop_first(), path, k - 1);
        assert forall|j: int| 0 <= j < k - 1 implies (#[trigger] fs.drop_first()[j]).path
            != path by {
            assert(fs.drop_first()[j] == fs[j + 1]);
        }
    }
}

pub proof fn lemma_fs_lookup_missing(fs: Seq<FsEntryModel>, path: Seq<char>)
    requires
        forall|j: int| 0 <= j < fs.len() ==> (#[trigger] fs[j]).path != path,
    ensures
        fs_lookup(fs, path) == Option::None::<FsEntryModel>,
    decreases fs.len(),
{
    if fs.len() > 0 {
        lemma_fs_lookup_missing(fs.drop_first(), path);
    }
}

/// The classification of one span path, as a function of the environment:
/// an unknown path, or one whose canonicalization failed, is
/// unclassifiable; a canonical path under the project root is in-project;
/// a canonical path under a recognized third-party root that names an
/// existing regular file is third-party; anything else is unclassifiable.
pub open spec fn classify_spec(env: EnvironmentModel, path: Seq<char>) -> ClassificationModel {
    match fs_lookup(env.fs, path) {
        Option::None => ClassificationModel::Unclassifiable,
        Option::Some(e) => match e.canonical {
            Option::None => ClassificationModel::Unclassifiable,
            Option::Some(c) => if path_under(c, env.project_root) {
                ClassificationModel::InProject
            } else if under_any(c, env.dep_roots) && e.is_regular_file {
                ClassificationModel::ThirdParty(c)
            } else {
                ClassificationModel::Unclassifiable
            },
        },
    }
}

/// Finds the file-system entry recorded for `path`.
fn find_fs_entry<'a>(fs: &'a Vec<FsEntry>, path: &str) -> (r: Option<&'a FsEntry>)
    ensures
        match r {
            Option::Some(e) => fs_lookup(fs@.map_values(|x: FsEntry| x@), path@)
                == Option::Some(e@),
            Option::None => fs_lookup(fs@.map_values(|x: FsEntry| x@), path@)
                == Option::None::<FsEntryModel>,
        },
{
    let ghost fvs = fs@.map_values(|x: FsEntry| x@);
    let mut i: usize = 0;
    while i < fs.len()
        invariant
            0 <= i <= fs@.len(),
            fvs == fs@.map_values(|x: FsEntry| x@),
            forall|j: int| 0 <= j < i ==> (#[trigger] fvs[j]).path != path@,
        decreases fs@.len() - i,
    {
        if str_eq(fs[i].path.as_str(), path) {
            proof {
                assert(fvs[i as int].path == path@);
                lemma_fs_lookup_found(fvs, path@, i as int);
            }
            return Option::Some(&fs[i]);
        }
        proof {
            assert(fvs[i as int].path == fs@[i as int]@.path);
        }
        i = i + 1;
    }
    proof {
        lemma_fs_lookup_missing(fvs, path@);
    }
    Option::None
}

/// Classifies one span path against the environment.
pub fn classify(env: &Environment, path: &str) -> (c: Classification)
    ensures
        c@ == classify_spec(env@, path@),
{
    let entry = find_fs_entry(&env.fs, path);
    match entry {
        Option::None => Classification::Unclassifiable,
        Option::Some(e) => match &e.canonical {
            Option::None => Classification::Unclassifiable,
            Option::Some(canonical) => {
                if is_path_under(canonical.as_str(), env.project_root.as_str()) {
                    Classification::InProject
                } else if is_under_any(canonical.as_str(), &env.dep_roots) && e.is_regular_file {
                    Classification::ThirdParty(canonical.clone())
                } else {
                    Classification::Unclassifiable
                }
            },
        },
    }
}

/// The classifier never answers third-party for a path under the project
/// root, and never for a path that the file system does not show as an
/// existing regular file: every third-party answer carries the canonical
/// path of a regular file under a recognized third-party root, outside
/// the project root.
pub proof fn lemma_classifier_sound(env: EnvironmentModel, path: Seq<char>)
    ensures
        classify_spec(env, path) matches ClassificationModel::ThirdParty(c) ==> {
            &&& !path_under(c, env.project_root)
            &&& under_any(c, env.dep_roots)
            &&& fs_lookup(env.fs, path) matches Option::Some(e) && e.canonical
                == Option::Some(c) && e.is_regular_file
        },
{
}

} // verus!
