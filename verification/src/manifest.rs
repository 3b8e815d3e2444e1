//! The project manifest (`symmetry.toml`): the project id, the color
//! preference, and the env files under management.

use vstd::prelude::*;

use crate::paths::{comps, same_path};

verus! {

pub const MANIFEST_NAME: &'static str = "symmetry.toml";

/// Terminal color: "auto" (default), "always", or "never" (boring mode).
#[derive(Clone, Copy, PartialEq, Eq, Debug)]
pub enum ColorChoice {
    /// Color when the terminal supports it, plain when piped.
    Auto,
    /// Always emit color codes.
    Always,
    /// Never emit color codes (boring mode).
    Never,
}

impl Default for ColorChoice {
    fn default() -> (r: ColorChoice)
        ensures
            r == ColorChoice::Auto,
    {
        ColorChoice::Auto
    }
}

pub struct FileEntry {
    pub path: String,
}

pub struct Manifest {
    pub version: u32,
    pub project_id: String,
    pub color: ColorChoice,
    pub files: Vec<FileEntry>,
}

/// Calls `uuid::Uuid::new_v4` and renders it with `to_string`: a random
/// UUID in its hyphenated form, which is 36 characters long.
#[verifier::external_body]
fn new_project_id() -> (r: String)
    ensures
        r@.len() == 36,
{
    uuid::Uuid::new_v4().to_string()
}

impl Manifest {
    /// The managed paths, in order.
    pub open spec fn file_paths(&self) -> Seq<Seq<char>> {
        Seq::new(self.files@.len(), |i: int| self.files@[i].path@)
    }

    /// Some managed path equals `rel` (component by component).
    pub open spec fn has(&self, rel: Seq<char>) -> bool {
        exists|i: int| 0 <= i < self.files@.len() && comps(#[trigger] self.files@[i].path@) == comps(
            rel,
        )
    }

    /// No path is managed twice.
    pub open spec fn distinct(&self) -> bool {
        forall|i: int, j: int|
            0 <= i < j < self.files@.len() ==> comps(#[trigger] self.files@[i].path@) != comps(
                #[trigger] self.files@[j].path@,
            )
    }

    /// A fresh manifest with a new random project id.
    pub fn new(files: Vec<String>) -> (r: Manifest)
        ensures
            r.version == 1,
            r.color == ColorChoice::Auto,
            r.file_paths() == files.deep_view(),
            r.project_id@.len() == 36,
    {
        let mut entries: Vec<FileEntry> = Vec::new();
        let mut k: usize = 0;
        while k < files.len()
            invariant
                k <= files@.len(),
                entries@.len() == k,
                forall|j: int| 0 <= j < k ==> (#[trigger] entries@[j]).path@ == files@[j]@,
            decreases files@.len() - k,
        {
            entries.push(FileEntry { path: files[k].clone() });
            k = k + 1;
        }
        let r = Manifest {
            version: 1,
            project_id: new_project_id(),
            color: ColorChoice::Auto,
            files: entries,
        };
        assert(r.file_paths() =~= files.deep_view());
        r
    }

    pub fn contains(&self, rel: &str) -> (r: bool)
        ensures
            r == self.has(rel@),
    {
        let mut k: usize = 0;
        while k < self.files.len()
            invariant
                k <= self.files@.len(),
                forall|j: int| 0 <= j < k ==> comps(#[trigger] self.files@[j].path@) != comps(rel@),
            decreases self.files@.len() - k,
        {
            if same_path(self.files[k].path.as_str(), rel) {
                return true;
            }
            k = k + 1;
        }
        false
    }

    /// Manage `rel` too, unless it already is.
    pub fn add(&mut self, rel: String)
        ensures
            final(self).version == old(self).version,
            final(self).project_id == old(self).project_id,
            final(self).color == old(self).color,
            old(self).has(rel@) ==> final(self).file_paths() == old(self).file_paths(),
            !old(self).has(rel@) ==> final(self).file_paths() == old(self).file_paths().push(rel@),
            final(self).has(rel@),
            old(self).distinct() ==> final(self).distinct(),
    {
        if !self.contains(rel.as_str()) {
            let ghost before = self.files@;
            self.files.push(FileEntry { path: rel });
            proof {
                assert(self.files@[before.len() as int].path@ == rel@);
                assert(self.file_paths() =~= old(self).file_paths().push(rel@));
                assert forall|i: int, j: int|
                    0 <= i < j < self.files@.len() && old(self).distinct() implies comps(
                    #[trigger] self.files@[i].path@,
                ) != comps(#[trigger] self.files@[j].path@) by {
                    if j == before.len() {
                        assert(self.files@[i] == before[i]);
                    } else {
                        assert(self.files@[i] == before[i]);
                        assert(self.files@[j] == before[j]);
                    }
                }
            }
        }
    }

    /// The managed paths, in order.
    pub fn paths(&self) -> (r: Vec<String>)
        ensures
            r.deep_view() == self.file_paths(),
    {
        let mut out: Vec<String> = Vec::new();
        let mut k: usize = 0;
        while k < self.files.len()
            invariant
                k <= self.files@.len(),
                out@.len() == k,
                forall|j: int| 0 <= j < k ==> (#[trigger] out@[j])@ == self.files@[j].path@,
            decreases self.files@.len() - k,
        {
            out.push(self.files[k].path.clone());
            k = k + 1;
        }
        assert(out.deep_view() =~= self.file_paths());
        out
    }

    /// A copy of this manifest.
    pub fn duplicate(&self) -> (r: Manifest)
        ensures
            r.version == self.version,
            r.project_id@ == self.project_id@,
            r.color == self.color,
            r.file_paths() == self.file_paths(),
    {
        let mut files: Vec<FileEntry> = Vec::new();
        let mut k: usize = 0;
        while k < self.files.len()
            invariant
                k <= self.files@.len(),
                files@.len() == k,
                forall|j: int| 0 <= j < k ==> (#[trigger] files@[j]).path@ == self.files@[j].path@,
            decreases self.files@.len() - k,
        {
            files.push(FileEntry { path: self.files[k].path.clone() });
            k = k + 1;
        }
        let r = Manifest {
            version: self.version,
            project_id: self.project_id.clone(),
            color: self.color,
            files,
        };
        assert(r.file_paths() =~= self.file_paths());
        r
    }
}

/// The project as located from the current directory.
pub enum Project {
    /// The root directory and its manifest.
    Found(String, Manifest),
    /// No manifest in this or any parent directory.
    Missing,
    /// The manifest could not be read; the message.
    Invalid(String),
}

/// Why no project is at hand.
#[derive(Debug)]
pub enum ProjectError {
    Missing,
    Invalid(String),
}

/// The color preference from the nearest manifest, or Auto if there's no
/// manifest or it can't be read.
pub fn color_choice_from_cwd(project: &Project) -> (r: ColorChoice)
    ensures
        r == (match project {
            Project::Found(_, m) => m.color,
            _ => ColorChoice::Auto,
        }),
{
    match project {
        Project::Found(_, manifest) => manifest.color,
        _ => ColorChoice::Auto,
    }
}

/// The project root and its manifest, or why there is none.
pub fn require_project(project: &Project) -> (r: Result<(String, Manifest), ProjectError>)
    ensures
        match project {
            Project::Found(root, m) => r matches Ok(rm) && rm.0@ == root@ && rm.1.version
                == m.version && rm.1.project_id@ == m.project_id@ && rm.1.color == m.color
                && rm.1.file_paths() == m.file_paths(),
            Project::Missing => r matches Err(e) && e is Missing,
            Project::Invalid(msg) => r matches Err(ProjectError::Invalid(x)) && x@ == msg@,
        },
{
    match project {
        Project::Found(root, manifest) => Ok((root.clone(), manifest.duplicate())),
        Project::Missing => Err(ProjectError::Missing),
        Project::Invalid(msg) => Err(ProjectError::Invalid(msg.clone())),
    }
}

} // verus!
