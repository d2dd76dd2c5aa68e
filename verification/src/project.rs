use vstd::prelude::*;
use vstd::string::StringExecFns;
use crate::listing::{DirListing, vec_contains_string};

verus! {

/// The absolute path of the entry `name` inside the directory `root`.
pub open spec fn joined(root: Seq<char>, name: Seq<char>) -> Seq<char> {
    root + seq!['/'] + name
}

/// Under one root, distinct names join to distinct absolute paths.
pub proof fn lemma_joined_injective(root: Seq<char>, a: Seq<char>, b: Seq<char>)
    requires
        joined(root, a) == joined(root, b),
    ensures
        a == b,
{
    assert(joined(root, a).len() == root.len() + 1 + a.len());
    assert(joined(root, b).len() == root.len() + 1 + b.len());
    assert(a =~= b) by {
        assert forall|k: int| 0 <= k < a.len() implies a[k] == b[k] by {
            assert(joined(root, a)[root.len() + 1 + k] == a[k]);
            assert(joined(root, b)[root.len() + 1 + k] == b[k]);
        }
    }
}

/// Builds the absolute path of `name` inside `root`.
pub fn join_path(root: &String, name: &String) -> (r: String)
    ensures
        r@ == joined(root@, name@),
{
    let mut r = root.clone();
    r.append("/");
    r.append(name.as_str());
    proof {
        reveal_strlit("/");
        assert("/"@ =~= seq!['/']);
    }
    r
}

/// A discovered cleanable project: its root directory, an optional type
/// label, the absolute paths of its cleanable subdirectories, and the most
/// recent modification time found anywhere under its root (0 until the
/// recency stage fills it in).
pub struct Project {
    pub root: String,
    pub dependency_dirs: Vec<String>,
    pub last_modified: u64,
    pub typ: Option<String>,
}

impl Project {
    /// The cleanable directories, as the sequence of their path strings.
    pub open spec fn cleanables(self) -> Seq<Seq<char>> {
        self.dependency_dirs.deep_view()
    }

    /// This absolute path is recorded as cleanable.
    pub open spec fn has_cleanable(self, path: Seq<char>) -> bool {
        self.cleanables().contains(path)
    }

    /// The cleanable set holds no path twice.
    pub open spec fn wf(self) -> bool {
        self.cleanables().no_duplicates()
    }

    /// Initialises a new, empty project rooted at `root`.
    pub fn new(root: String) -> (p: Project)
        ensures
            p.root == root,
            p.cleanables().len() == 0,
            p.last_modified == 0,
            p.typ is None,
            p.wf(),
    {
        let p = Project { root, dependency_dirs: Vec::new(), last_modified: 0, typ: None };
        assert(p.cleanables() =~= Seq::<Seq<char>>::empty());
        p
    }

    /// Records the project's type label.
    pub fn with_type(&mut self, typ: String)
        ensures
            final(self).typ == Some(typ),
            final(self).root == old(self).root,
            final(self).dependency_dirs == old(self).dependency_dirs,
            final(self).last_modified == old(self).last_modified,
    {
        self.typ = Some(typ);
    }

    /// The type label, or the empty string while none is set.
    pub fn typ(&self) -> (r: String)
        ensures
            match self.typ {
                Some(t) => r@ == t@,
                None => r@ == Seq::<char>::empty(),
            },
    {
        match &self.typ {
            Some(t) => t.clone(),
            None => String::new(),
        }
    }

    pub fn root(&self) -> (r: &String)
        ensures
            r == &self.root,
    {
        &self.root
    }

    /// Marks the subdirectory `subdir` of this project's root as cleanable,
    /// if the listing shows it exists as a directory. A missing entry and a
    /// path already recorded are both no-ops.
    pub fn add_cleanable_dir_if_exists(&mut self, listing: &DirListing, subdir: &String)
        ensures
            final(self).root == old(self).root,
            final(self).typ == old(self).typ,
            final(self).last_modified == old(self).last_modified,
            final(self).cleanables() == (
                if listing.has_dir(subdir@)
                    && !old(self).has_cleanable(joined(old(self).root@, subdir@)) {
                    old(self).cleanables().push(joined(old(self).root@, subdir@))
                } else {
                    old(self).cleanables()
                }),
            old(self).wf() ==> final(self).wf(),
    {
        if listing.contains_dir(subdir) {
            let path = join_path(&self.root, subdir);
            if !vec_contains_string(&self.dependency_dirs, &path) {
                let ghost pre = self.dependency_dirs.deep_view();
                let ghost p = path@;
                self.dependency_dirs.push(path);
                proof {
                    assert(self.dependency_dirs.deep_view() =~= pre.push(p)) by {
                        assert forall|k: int| 0 <= k < self.dependency_dirs.deep_view().len()
                            implies #[trigger] self.dependency_dirs.deep_view()[k]
                                == pre.push(p)[k] by {
                            assert(self.dependency_dirs.deep_view()[k]
                                == self.dependency_dirs@[k]@);
                        }
                    }
                    if pre.no_duplicates() {
                        assert forall|i: int, j: int|
                            0 <= i < j < pre.push(p).len() implies
                            #[trigger] pre.push(p)[i] != #[trigger] pre.push(p)[j] by {
                            if j == pre.len() {
                                assert(!pre.contains(p));
                                assert(pre[i] != p);
                            }
                        }
                    }
                }
            }
        }
    }

    /// Marks every path of an override file's list that exists as a
    /// directory, in the order given.
    pub fn load_override_paths(&mut self, listing: &DirListing, paths: &Vec<String>)
        ensures
            final(self).root == old(self).root,
            final(self).typ == old(self).typ,
            final(self).last_modified == old(self).last_modified,
            forall|x: Seq<char>| final(self).has_cleanable(x) <==>
                old(self).has_cleanable(x)
                || (exists|k: int| 0 <= k < paths.deep_view().len()
                    && listing.has_dir(#[trigger] paths.deep_view()[k])
                    && x == joined(old(self).root@, paths.deep_view()[k])),
            old(self).wf() ==> final(self).wf(),
    {
        let mut i: usize = 0;
        while i < paths.len()
            invariant
                i <= paths.len(),
                self.root == old(self).root,
                self.typ == old(self).typ,
                self.last_modified == old(self).last_modified,
                old(self).wf() ==> self.wf(),
                forall|x: Seq<char>| self.has_cleanable(x) <==>
                    old(self).has_cleanable(x)
                    || (exists|k: int| 0 <= k < i
                        && listing.has_dir(#[trigger] paths.deep_view()[k])
                        && x == joined(old(self).root@, paths.deep_view()[k])),
            decreases paths.len() - i,
        {
            let ghost before = self.cleanables();
            assert(paths.deep_view()[i as int] == paths@[i as int]@);
            self.add_cleanable_dir_if_exists(listing, &paths[i]);
            proof {
                let nm = paths.deep_view()[i as int];
                let jp = joined(old(self).root@, nm);
                assert forall|x: Seq<char>| self.has_cleanable(x) implies
                    old(self).has_cleanable(x)
                    || (exists|k: int| 0 <= k < i + 1
                        && listing.has_dir(#[trigger] paths.deep_view()[k])
                        && x == joined(old(self).root@, paths.deep_view()[k])) by {
                    if self.cleanables() == before.push(jp) {
                        if x != jp {
                            assert(before.contains(x)) by {
                                let k = choose|k: int| 0 <= k < before.push(jp).len()
                                    && before.push(jp)[k] == x;
                                assert(before[k] == x);
                            }
                        }
                    }
                }
                assert forall|x: Seq<char>|
                    old(self).has_cleanable(x)
                    || (exists|k: int| 0 <= k < i + 1
                        && listing.has_dir(#[trigger] paths.deep_view()[k])
                        && x == joined(old(self).root@, paths.deep_view()[k]))
                    implies self.has_cleanable(x) by {
                    if exists|k: int| 0 <= k < i + 1
                        && listing.has_dir(#[trigger] paths.deep_view()[k])
                        && x == joined(old(self).root@, paths.deep_view()[k]) {
                        let k = choose|k: int| 0 <= k < i + 1
                            && listing.has_dir(#[trigger] paths.deep_view()[k])
                            && x == joined(old(self).root@, paths.deep_view()[k]);
                        if k == i {
                            if self.cleanables() == before.push(jp) {
                                assert(before.push(jp)[before.len() as int] == jp);
                            } else {
                                assert(before.contains(jp));
                            }
                        }
                    }
                    if before.contains(x) {
                        if self.cleanables() == before.push(jp) {
                            let k = choose|k: int| 0 <= k < before.len() && before[k] == x;
                            assert(before.push(jp)[k] == x);
                        }
                    }
                }
            }
            i = i + 1;
        }
    }

    /// Checks if the given absolute path is recorded as cleanable.
    pub fn is_cleanable_dir(&self, path: &String) -> (r: bool)
        ensures
            r == self.has_cleanable(path@),
    {
        vec_contains_string(&self.dependency_dirs, path)
    }

    /// Consumes the project and hands back its cleanable directories.
    pub fn into_cleanable_dirs(self) -> (r: Vec<String>)
        ensures
            r.deep_view() == self.cleanables(),
    {
        self.dependency_dirs
    }
}

} // verus!
