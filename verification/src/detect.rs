use vstd::prelude::*;
use vstd::string::StringExecFns;
use crate::config::{Config, Entry};
use crate::listing::DirListing;
use crate::project::{joined, lemma_joined_injective, Project};

verus! {

/// An override file is present in the directory.
pub open spec fn override_present(l: DirListing) -> bool {
    l.has_entry(".swpfile"@) || l.has_entry(".cleanuprc"@)
}

/// The rule's trigger entry exists in the directory.
pub open spec fn entry_matches(l: DirListing, e: Entry) -> bool {
    l.has_entry(e.trigger@)
}

/// At least one rule of the sequence matches the directory.
pub open spec fn some_entry_matches(l: DirListing, entries: Seq<Entry>) -> bool {
    exists|i: int| 0 <= i < entries.len() && entry_matches(l, #[trigger] entries[i])
}

/// The type label detection stores: the name of the last matching rule,
/// or nothing when no rule matches.
pub open spec fn last_label(l: DirListing, entries: Seq<Entry>) -> Option<Seq<char>>
    decreases entries.len(),
{
    if entries.len() == 0 {
        None
    } else if entry_matches(l, entries.last()) {
        Some(entries.last().name@)
    } else {
        last_label(l, entries.drop_last())
    }
}

/// `x` is the absolute path, under `root`, of a disposable of some matching
/// rule that exists as a directory.
pub open spec fn rules_cleanable(
    l: DirListing,
    entries: Seq<Entry>,
    root: Seq<char>,
    x: Seq<char>,
) -> bool {
    exists|i: int, j: int|
        #![trigger entries[i].disposables.deep_view()[j]]
        0 <= i < entries.len()
            && entry_matches(l, entries[i])
            && 0 <= j < entries[i].disposables.deep_view().len()
            && l.has_dir(entries[i].disposables.deep_view()[j])
            && x == joined(root, entries[i].disposables.deep_view()[j])
}

/// `x` is the absolute path, under `root`, of an override-file path that
/// exists as a directory.
pub open spec fn override_cleanable(
    l: DirListing,
    paths: Seq<Seq<char>>,
    root: Seq<char>,
    x: Seq<char>,
) -> bool {
    exists|k: int|
        0 <= k < paths.len() && l.has_dir(#[trigger] paths[k]) && x == joined(root, paths[k])
}

/// The parsed override path list, as a value: present exactly when an
/// override file was found and parsed.
pub open spec fn paths_view(override_paths: Option<&Vec<String>>) -> Option<Seq<Seq<char>>> {
    match override_paths {
        Some(v) => Some(v.deep_view()),
        None => None,
    }
}

/// Everything detection decides, as a relation between the directory
/// snapshot, the rule set, the parsed override list and the result.
///
/// A non-directory and a directory with neither override file nor matching
/// rule are not projects. A present override file decides the cleanable
/// set alone — rules are never consulted. Otherwise every matching rule
/// contributes its existing disposables, and the last matching rule names
/// the type.
pub open spec fn detect_post(
    l: DirListing,
    c: Config,
    ov: Option<Seq<Seq<char>>>,
    r: Option<Project>,
) -> bool {
    if !l.is_dir {
        r is None
    } else if override_present(l) {
        &&& r is Some
        &&& r.unwrap().root@ == l.path@
        &&& r.unwrap().typ.deep_view() == Some("sweep-file"@)
        &&& forall|x: Seq<char>| #[trigger] r.unwrap().has_cleanable(x)
            <==> override_cleanable(l, ov.unwrap(), l.path@, x)
        &&& r.unwrap().wf()
        &&& r.unwrap().last_modified == 0
    } else if some_entry_matches(l, c.entries@) {
        &&& r is Some
        &&& r.unwrap().root@ == l.path@
        &&& r.unwrap().typ.deep_view() == last_label(l, c.entries@)
        &&& forall|x: Seq<char>| #[trigger] r.unwrap().has_cleanable(x)
            <==> rules_cleanable(l, c.entries@, l.path@, x)
        &&& r.unwrap().wf()
        &&& r.unwrap().last_modified == 0
    } else {
        r is None
    }
}

/// Looks for an override file in the directory, in fixed priority order.
/// The caller parses the named file and hands the paths to detection.
pub fn find_override_file(listing: &DirListing) -> (r: Option<String>)
    ensures
        match r {
            Some(name) => override_present(*listing)
                && name@ == (if listing.has_entry(".swpfile"@) { ".swpfile"@ } else { ".cleanuprc"@ }),
            None => !override_present(*listing),
        },
{
    let swp = String::from_str(".swpfile");
    if listing.contains_entry(&swp) {
        return Some(swp);
    }
    let clr = String::from_str(".cleanuprc");
    if listing.contains_entry(&clr) {
        return Some(clr);
    }
    None
}

proof fn lemma_some_entry_matches_push(l: DirListing, s: Seq<Entry>, e: Entry)
    ensures
        some_entry_matches(l, s.push(e)) <==> some_entry_matches(l, s) || entry_matches(l, e),
{
    if some_entry_matches(l, s.push(e)) {
        let i = choose|i: int| 0 <= i < s.push(e).len() && entry_matches(l, #[trigger] s.push(e)[i]);
        if i < s.len() {
            assert(s[i] == s.push(e)[i]);
        }
    }
    if some_entry_matches(l, s) {
        let i = choose|i: int| 0 <= i < s.len() && entry_matches(l, #[trigger] s[i]);
        assert(entry_matches(l, s.push(e)[i]));
    }
    if entry_matches(l, e) {
        assert(entry_matches(l, s.push(e)[s.len() as int]));
    }
}

proof fn lemma_last_label_push(l: DirListing, s: Seq<Entry>, e: Entry)
    ensures
        last_label(l, s.push(e)) == (if entry_matches(l, e) {
            Some(e.name@)
        } else {
            last_label(l, s)
        }),
{
    assert(s.push(e).last() == e);
    assert(s.push(e).drop_last() =~= s);
}

proof fn lemma_rules_cleanable_push(
    l: DirListing,
    s: Seq<Entry>,
    e: Entry,
    root: Seq<char>,
    x: Seq<char>,
)
    ensures
        rules_cleanable(l, s.push(e), root, x) <==> (rules_cleanable(l, s, root, x)
            || (entry_matches(l, e) && (exists|j: int| 0 <= j < e.disposables.deep_view().len()
                && l.has_dir(#[trigger] e.disposables.deep_view()[j])
                && x == joined(root, e.disposables.deep_view()[j])))),
{
    let t = s.push(e);
    if rules_cleanable(l, t, root, x) {
        let (i, j) = choose|i: int, j: int|
            #![trigger t[i].disposables.deep_view()[j]]
            0 <= i < t.len()
                && entry_matches(l, t[i])
                && 0 <= j < t[i].disposables.deep_view().len()
                && l.has_dir(t[i].disposables.deep_view()[j])
                && x == joined(root, t[i].disposables.deep_view()[j]);
        if i < s.len() {
            assert(t[i] == s[i]);
            assert(s[i].disposables.deep_view()[j] == t[i].disposables.deep_view()[j]);
            assert(rules_cleanable(l, s, root, x));
        } else {
            assert(t[i] == e);
        }
    }
    if rules_cleanable(l, s, root, x) {
        let (i, j) = choose|i: int, j: int|
            #![trigger s[i].disposables.deep_view()[j]]
            0 <= i < s.len()
                && entry_matches(l, s[i])
                && 0 <= j < s[i].disposables.deep_view().len()
                && l.has_dir(s[i].disposables.deep_view()[j])
                && x == joined(root, s[i].disposables.deep_view()[j]);
        assert(t[i] == s[i]);
        assert(t[i].disposables.deep_view()[j] == s[i].disposables.deep_view()[j]);
        assert(rules_cleanable(l, t, root, x));
    }
    if entry_matches(l, e) && (exists|j: int| 0 <= j < e.disposables.deep_view().len()
        && l.has_dir(#[trigger] e.disposables.deep_view()[j])
        && x == joined(root, e.disposables.deep_view()[j])) {
        let j = choose|j: int| 0 <= j < e.disposables.deep_view().len()
            && l.has_dir(#[trigger] e.disposables.deep_view()[j])
            && x == joined(root, e.disposables.deep_view()[j]);
        let i = s.len() as int;
        assert(t[i] == e);
        assert(t[i].disposables.deep_view()[j] == e.disposables.deep_view()[j]);
        assert(rules_cleanable(l, t, root, x));
    }
}

/// Checks whether a directory is a cleanable project and identifies its
/// cleanable subdirectories.
///
/// `override_paths` is the parsed content of the directory's override file;
/// the caller supplies it exactly when `find_override_file` names one (the
/// override parser itself is an external collaborator). A parse failure is
/// fatal to the whole run and never reaches detection.
pub fn detect_cleanable_project(
    listing: &DirListing,
    config: &Config,
    override_paths: Option<&Vec<String>>,
) -> (r: Option<Project>)
    requires
        (override_paths is Some) <==> (listing.is_dir && override_present(*listing)),
    ensures
        detect_post(*listing, *config, paths_view(override_paths), r),
{
    if !listing.is_dir {
        return None;
    }

    let mut project = Project::new(listing.path.clone());

    match find_override_file(listing) {
        Some(_name) => {
            project.with_type(String::from_str("sweep-file"));
            let paths = override_paths.unwrap();
            project.load_override_paths(listing, paths);
            return Some(project);
        },
        None => {},
    }

    let mut is_project = false;
    let n = config.entries.len();
    let mut i: usize = 0;
    while i < n
        invariant
            n == config.entries.len(),
            i <= n,
            listing.is_dir,
            !override_present(*listing),
            project.root@ == listing.path@,
            project.last_modified == 0,
            project.wf(),
            is_project == some_entry_matches(*listing, config.entries@.subrange(0, i as int)),
            project.typ.deep_view() == last_label(*listing, config.entries@.subrange(0, i as int)),
            forall|x: Seq<char>| #[trigger] project.has_cleanable(x)
                <==> rules_cleanable(*listing, config.entries@.subrange(0, i as int), listing.path@, x),
        decreases n - i,
    {
        let ghost prefix = config.entries@.subrange(0, i as int);
        let e = &config.entries[i];
        assert(config.entries@.subrange(0, i + 1) =~= prefix.push(config.entries@[i as int]));
        if listing.contains_entry(&e.trigger) {
            is_project = true;
            let ghost p1 = project;
            project.with_type(e.name.clone());
            proof {
                assert(project.cleanables() == p1.cleanables());
                assert forall|x: Seq<char>| #[trigger] project.has_cleanable(x)
                    <==> rules_cleanable(*listing, prefix, listing.path@, x) by {
                    assert(project.has_cleanable(x) == p1.has_cleanable(x));
                }
            }
            let m = e.disposables.len();
            let mut j: usize = 0;
            while j < m
                invariant
                    n == config.entries.len(),
                    i < n,
                    m == e.disposables.len(),
                    j <= m,
                    *e == config.entries@[i as int],
                    entry_matches(*listing, *e),
                    listing.is_dir,
                    !override_present(*listing),
                    project.root@ == listing.path@,
                    project.last_modified == 0,
                    project.wf(),
                    project.typ.deep_view() == Some(e.name@),
                    forall|x: Seq<char>| #[trigger] project.has_cleanable(x)
                        <==> rules_cleanable(*listing, prefix, listing.path@, x)
                            || (exists|k: int| 0 <= k < j
                                && listing.has_dir(#[trigger] e.disposables.deep_view()[k])
                                && x == joined(listing.path@, e.disposables.deep_view()[k])),
                decreases m - j,
            {
                let ghost p0 = project;
                let ghost before = project.cleanables();
                assert(e.disposables.deep_view()[j as int] == e.disposables@[j as int]@);
                project.add_cleanable_dir_if_exists(listing, &e.disposables[j]);
                proof {
                    let nm = e.disposables.deep_view()[j as int];
                    let jp = joined(listing.path@, nm);
                    assert forall|x: Seq<char>| #[trigger] project.has_cleanable(x) implies
                        rules_cleanable(*listing, prefix, listing.path@, x)
                            || (exists|k: int| 0 <= k < j + 1
                                && listing.has_dir(#[trigger] e.disposables.deep_view()[k])
                                && x == joined(listing.path@, e.disposables.deep_view()[k])) by {
                        if project.cleanables() == before.push(jp) {
                            if x != jp {
                                assert(before.contains(x)) by {
                                    let k = choose|k: int| 0 <= k < before.push(jp).len()
                                        && before.push(jp)[k] == x;
                                    assert(before[k] == x);
                                }
                                assert(p0.has_cleanable(x));
                            }
                        } else {
                            assert(p0.has_cleanable(x));
                        }
                    }
                    assert forall|x: Seq<char>|
                        rules_cleanable(*listing, prefix, listing.path@, x)
                            || (exists|k: int| 0 <= k < j + 1
                                && listing.has_dir(#[trigger] e.disposables.deep_view()[k])
                                && x == joined(listing.path@, e.disposables.deep_view()[k]))
                        implies #[trigger] project.has_cleanable(x) by {
                        if exists|k: int| 0 <= k < j + 1
                            && listing.has_dir(#[trigger] e.disposables.deep_view()[k])
                            && x == joined(listing.path@, e.disposables.deep_view()[k]) {
                            let k = choose|k: int| 0 <= k < j + 1
                                && listing.has_dir(#[trigger] e.disposables.deep_view()[k])
                                && x == joined(listing.path@, e.disposables.deep_view()[k]);
                            if k == j {
                                if project.cleanables() == before.push(jp) {
                                    assert(before.push(jp)[before.len() as int] == jp);
                                } else {
                                    assert(p0.has_cleanable(jp));
                                }
                            } else {
                                assert(p0.has_cleanable(x));
                                assert(before.contains(x));
                            }
                        } else {
                            assert(p0.has_cleanable(x));
                            assert(before.contains(x));
                        }
                        if before.contains(x) {
                            if project.cleanables() == before.push(jp) {
                                let k = choose|k: int| 0 <= k < before.len() && before[k] == x;
                                assert(before.push(jp)[k] == x);
                            }
                        }
                    }
                }
                j = j + 1;
            }
            proof {
                lemma_some_entry_matches_push(*listing, prefix, config.entries@[i as int]);
                lemma_last_label_push(*listing, prefix, config.entries@[i as int]);
                assert forall|x: Seq<char>| #[trigger] project.has_cleanable(x)
                    <==> rules_cleanable(*listing, config.entries@.subrange(0, i + 1), listing.path@, x) by {
                    lemma_rules_cleanable_push(*listing, prefix, config.entries@[i as int], listing.path@, x);
                }
            }
        } else {
            proof {
                lemma_some_entry_matches_push(*listing, prefix, config.entries@[i as int]);
                lemma_last_label_push(*listing, prefix, config.entries@[i as int]);
                assert forall|x: Seq<char>| #[trigger] project.has_cleanable(x)
                    <==> rules_cleanable(*listing, config.entries@.subrange(0, i + 1), listing.path@, x) by {
                    lemma_rules_cleanable_push(*listing, prefix, config.entries@[i as int], listing.path@, x);
                }
            }
        }
        i = i + 1;
    }
    proof {
        assert(config.entries@.subrange(0, n as int) =~= config.entries@);
    }
    if is_project {
        Some(project)
    } else {
        None
    }
}

/// Detection is a function of the directory snapshot, the rule set and the
/// override list alone: on unchanged inputs any two results it allows are
/// equivalent — same presence, same root, same type label, same cleanable
/// set. Running detection twice on an unchanged directory changes nothing.
pub proof fn lemma_detect_idempotent(
    l: DirListing,
    c: Config,
    ov: Option<Seq<Seq<char>>>,
    r1: Option<Project>,
    r2: Option<Project>,
)
    requires
        detect_post(l, c, ov, r1),
        detect_post(l, c, ov, r2),
    ensures
        r1 is Some <==> r2 is Some,
        r1 is Some ==> r1.unwrap().root@ == r2.unwrap().root@,
        r1 is Some ==> r1.unwrap().typ.deep_view() == r2.unwrap().typ.deep_view(),
        r1 is Some ==> forall|x: Seq<char>| #[trigger] r1.unwrap().has_cleanable(x)
            <==> r2.unwrap().has_cleanable(x),
{
}

/// A disposable of a matching rule that does not exist as a directory is
/// never recorded as cleanable.
pub proof fn lemma_missing_disposable_absent(
    l: DirListing,
    c: Config,
    r: Option<Project>,
    i: int,
    j: int,
)
    requires
        detect_post(l, c, None, r),
        l.is_dir,
        !override_present(l),
        0 <= i < c.entries@.len(),
        entry_matches(l, c.entries@[i]),
        0 <= j < c.entries@[i].disposables.deep_view().len(),
        !l.has_dir(c.entries@[i].disposables.deep_view()[j]),
    ensures
        r is Some,
        !r.unwrap().has_cleanable(joined(l.path@, c.entries@[i].disposables.deep_view()[j])),
{
    let d = c.entries@[i].disposables.deep_view()[j];
    assert(some_entry_matches(l, c.entries@));
    if r.unwrap().has_cleanable(joined(l.path@, d)) {
        let x = joined(l.path@, d);
        let entries = c.entries@;
        let (i2, j2) = choose|i2: int, j2: int|
            #![trigger entries[i2].disposables.deep_view()[j2]]
            0 <= i2 < entries.len()
                && entry_matches(l, entries[i2])
                && 0 <= j2 < entries[i2].disposables.deep_view().len()
                && l.has_dir(entries[i2].disposables.deep_view()[j2])
                && x == joined(l.path@, entries[i2].disposables.deep_view()[j2]);
        lemma_joined_injective(l.path@, entries[i2].disposables.deep_view()[j2], d);
    }
}

} // verus!
