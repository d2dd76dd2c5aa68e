use vstd::prelude::*;

verus! {

/// What the detector reads of one candidate directory: its absolute path,
/// whether it is in fact a directory, and the names of the entries directly
/// inside it, split by kind. The directory walker supplies this snapshot;
/// the detection engine itself never touches the filesystem.
pub struct DirListing {
    /// Absolute path of the candidate directory.
    pub path: String,
    /// Whether `path` exists and is a directory.
    pub is_dir: bool,
    /// Names of entries inside the directory that exist but are not
    /// directories.
    pub files: Vec<String>,
    /// Names of entries inside the directory that exist and are
    /// directories.
    pub dirs: Vec<String>,
}

impl DirListing {
    /// An entry of this name exists in the directory, whatever its kind.
    pub open spec fn has_entry(self, name: Seq<char>) -> bool {
        self.files.deep_view().contains(name) || self.dirs.deep_view().contains(name)
    }

    /// A subdirectory of this name exists in the directory.
    pub open spec fn has_dir(self, name: Seq<char>) -> bool {
        self.dirs.deep_view().contains(name)
    }

    pub fn contains_entry(&self, name: &String) -> (r: bool)
        ensures
            r == self.has_entry(name@),
    {
        if vec_contains_string(&self.files, name) {
            true
        } else {
            vec_contains_string(&self.dirs, name)
        }
    }

    pub fn contains_dir(&self, name: &String) -> (r: bool)
        ensures
            r == self.has_dir(name@),
    {
        vec_contains_string(&self.dirs, name)
    }
}

/// Whether one of the strings in `v` has the same characters as `name`.
pub(crate) fn vec_contains_string(v: &Vec<String>, name: &String) -> (r: bool)
    ensures
        r == v.deep_view().contains(name@),
{
    let mut i: usize = 0;
    while i < v.len()
        invariant
            i <= v.len(),
            forall|k: int| 0 <= k < i ==> #[trigger] v.deep_view()[k] != name@,
        decreases v.len() - i,
    {
        if v[i].eq(name) {
            assert(v.deep_view()[i as int] == name@);
            return true;
        }
        i = i + 1;
    }
    false
}

} // verus!
