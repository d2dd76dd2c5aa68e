use vstd::prelude::*;
use vstd::multiset::Multiset;
use crossbeam::queue::SegQueue;
use crate::bag::{bag_len, bag_of, bag_pop, bag_push, new_project_bag};
use crate::path_order::{lemma_strictly_sorted_unique, sort_dedup_paths, strictly_sorted};
use crate::project::Project;

verus! {

broadcast use vstd::multiset::group_multiset_axioms;

/// The default recency window, in seconds: projects touched within the
/// last 30 days stay out of the deletion list unless the caller opts out.
pub const DEFAULT_RECENCY_THRESHOLD_SECS: u64 = 30 * 24 * 60 * 60;

/// A project whose tree was last touched at `last_modified` is stale at
/// `now` when at least `threshold` seconds have passed since that touch.
pub open spec fn stale_at(last_modified: u64, now: u64, threshold: u64) -> bool {
    last_modified + threshold <= now
}

/// Decides whether a project is old enough to be safe to clean.
pub fn is_stale(last_modified: u64, now: u64, threshold: u64) -> (r: bool)
    ensures
        r == stale_at(last_modified, now, threshold),
{
    if now < threshold {
        false
    } else {
        last_modified <= now - threshold
    }
}

/// The projects of the bag that are stale at `now`.
pub open spec fn stale_projects(m: Multiset<Project>, now: u64, threshold: u64) -> Multiset<Project> {
    m.filter(|p: Project| stale_at(p.last_modified, now, threshold))
}

/// Retains only the projects whose trees were last modified at least
/// `threshold` seconds before `now`. The caller fills `last_modified`
/// beforehand; the recursive scan behind it is the walker's business.
pub fn filter_by_modified_date(projects: SegQueue<Project>, now: u64, threshold: u64) -> (r: SegQueue<Project>)
    ensures
        bag_of(r) == stale_projects(bag_of(projects), now, threshold),
{
    let ghost orig = bag_of(projects);
    let mut q = projects;
    let mut out = new_project_bag();
    let ghost mut processed: Multiset<Project> = Multiset::empty();
    proof {
        assert(bag_of(q).add(processed) =~= orig);
        assert(bag_of(out) =~= stale_projects(processed, now, threshold));
    }
    loop
        invariant
            bag_of(q).add(processed) == orig,
            bag_of(out) == stale_projects(processed, now, threshold),
        ensures
            bag_of(out) == stale_projects(orig, now, threshold),
        decreases bag_of(q).len(),
    {
        match bag_pop(&mut q) {
            None => {
                proof {
                    assert(bag_of(q) =~= Multiset::<Project>::empty());
                    assert(processed =~= orig);
                }
                break;
            },
            Some(p) => {
                let ghost qpre = bag_of(q).insert(p);
                let ghost ppre = processed;
                let keep = is_stale(p.last_modified, now, threshold);
                if keep {
                    bag_push(&mut out, p);
                    proof {
                        processed = ppre.insert(p);
                        assert(stale_projects(processed, now, threshold)
                            =~= stale_projects(ppre, now, threshold).insert(p));
                    }
                } else {
                    proof {
                        processed = ppre.insert(p);
                        assert(stale_projects(processed, now, threshold)
                            =~= stale_projects(ppre, now, threshold));
                    }
                }
                proof {
                    assert(bag_of(q).add(processed) =~= orig);
                    assert(bag_of(q).insert(p) =~= qpre);
                    assert(bag_of(q).len() < qpre.len());
                }
            },
        }
    }
    out
}

/// Some project of the bag records this absolute path as cleanable.
pub open spec fn cleanable_in_bag(m: Multiset<Project>, x: Seq<char>) -> bool {
    exists|p: Project| m.contains(p) && #[trigger] p.has_cleanable(x)
}

/// Everything the aggregation pipeline promises of its output: a strictly
/// sorted, duplicate-free list holding exactly the cleanable directories
/// of the projects that survive the recency filter (of all projects when
/// the filter is bypassed).
pub open spec fn analyse_post(
    m: Multiset<Project>,
    all: bool,
    now: u64,
    threshold: u64,
    r: Seq<Seq<char>>,
) -> bool {
    let kept = if all { m } else { stale_projects(m, now, threshold) };
    &&& strictly_sorted(r)
    &&& forall|x: Seq<char>| #[trigger] r.contains(x) <==> cleanable_in_bag(kept, x)
}

/// Drains the bag of detected projects into the final deletion candidate
/// list: recency-filtered unless `all` is set, flattened, deduplicated and
/// sorted lexicographically.
pub fn analyse_projects(projects: SegQueue<Project>, all: bool, now: u64, threshold: u64) -> (r: Vec<String>)
    ensures
        analyse_post(bag_of(projects), all, now, threshold, r.deep_view()),
{
    let ghost orig = bag_of(projects);
    let ghost kept = if all { orig } else { stale_projects(orig, now, threshold) };
    let mut filtered = if all {
        projects
    } else {
        filter_by_modified_date(projects, now, threshold)
    };
    if bag_len(&filtered) == 0 {
        let r: Vec<String> = Vec::new();
        proof {
            assert(r.deep_view().len() == 0);
            assert forall|x: Seq<char>| !(#[trigger] r.deep_view().contains(x)) by {}
            assert forall|x: Seq<char>| !cleanable_in_bag(kept, x) by {
                if cleanable_in_bag(kept, x) {
                    let p = choose|p: Project| kept.contains(p) && #[trigger] p.has_cleanable(x);
                    assert(kept.count(p) > 0);
                    assert(kept.len() >= kept.count(p));
                }
            }
        }
        return r;
    }
    let mut dirs: Vec<String> = Vec::new();
    let ghost mut processed: Multiset<Project> = Multiset::empty();
    proof {
        assert(bag_of(filtered).add(processed) =~= kept);
        assert(dirs.deep_view().len() == 0);
        assert forall|x: Seq<char>| !cleanable_in_bag(processed, x) by {
            if cleanable_in_bag(processed, x) {
                let p = choose|p: Project| processed.contains(p) && #[trigger] p.has_cleanable(x);
            }
        }
    }
    loop
        invariant
            bag_of(filtered).add(processed) == kept,
            forall|x: Seq<char>| #[trigger] dirs.deep_view().contains(x)
                <==> cleanable_in_bag(processed, x),
        ensures
            forall|x: Seq<char>| #[trigger] dirs.deep_view().contains(x)
                <==> cleanable_in_bag(kept, x),
        decreases bag_of(filtered).len(),
    {
        match bag_pop(&mut filtered) {
            None => {
                proof {
                    assert(bag_of(filtered) =~= Multiset::<Project>::empty());
                    assert(processed =~= kept);
                }
                break;
            },
            Some(p) => {
                let ghost qpre = bag_of(filtered).insert(p);
                let ghost ppre = processed;
                let ghost gp = p;
                let ghost pre_dirs = dirs.deep_view();
                let mut add = p.into_cleanable_dirs();
                let ghost added = add.deep_view();
                dirs.append(&mut add);
                proof {
                    processed = ppre.insert(gp);
                    assert(dirs.deep_view() =~= pre_dirs + added) by {
                        assert forall|k: int| 0 <= k < dirs.deep_view().len() implies
                            #[trigger] dirs.deep_view()[k] == (pre_dirs + added)[k] by {
                            assert(dirs.deep_view()[k] == dirs@[k]@);
                        }
                    }
                    assert forall|x: Seq<char>| #[trigger] dirs.deep_view().contains(x)
                        <==> cleanable_in_bag(processed, x) by {
                        if dirs.deep_view().contains(x) {
                            let k = choose|k: int| 0 <= k < dirs.deep_view().len()
                                && dirs.deep_view()[k] == x;
                            if k < pre_dirs.len() {
                                assert(pre_dirs[k] == x);
                                assert(pre_dirs.contains(x));
                                let w = choose|w: Project| ppre.contains(w)
                                    && #[trigger] w.has_cleanable(x);
                                assert(processed.contains(w));
                            } else {
                                assert(added[k - pre_dirs.len()] == x);
                                assert(gp.has_cleanable(x));
                                assert(processed.contains(gp));
                            }
                        }
                        if cleanable_in_bag(processed, x) {
                            let w = choose|w: Project| processed.contains(w)
                                && #[trigger] w.has_cleanable(x);
                            if w == gp {
                                let k = choose|k: int| 0 <= k < added.len() && added[k] == x;
                                assert((pre_dirs + added)[pre_dirs.len() + k] == x);
                            } else {
                                assert(ppre.contains(w));
                                assert(cleanable_in_bag(ppre, x));
                                assert(pre_dirs.contains(x));
                                let k = choose|k: int| 0 <= k < pre_dirs.len()
                                    && pre_dirs[k] == x;
                                assert((pre_dirs + added)[k] == x);
                            }
                        }
                    }
                    assert(bag_of(filtered).add(processed) =~= kept);
                    assert(bag_of(filtered).insert(gp) =~= qpre);
                    assert(bag_of(filtered).len() < qpre.len());
                }
            },
        }
    }
    let r = sort_dedup_paths(&dirs);
    r
}

/// Aggregation is order-independent: the bag has no drain order, and any
/// two outputs the pipeline allows for one bag of projects are the same
/// list.
pub proof fn lemma_analyse_order_independent(
    m: Multiset<Project>,
    all: bool,
    now: u64,
    threshold: u64,
    r1: Seq<Seq<char>>,
    r2: Seq<Seq<char>>,
)
    requires
        analyse_post(m, all, now, threshold, r1),
        analyse_post(m, all, now, threshold, r2),
    ensures
        r1 == r2,
{
    let kept = if all { m } else { stale_projects(m, now, threshold) };
    assert forall|x: Seq<char>| #[trigger] r1.contains(x) <==> #[trigger] r2.contains(x) by {
        assert(r1.contains(x) <==> cleanable_in_bag(kept, x));
        assert(r2.contains(x) <==> cleanable_in_bag(kept, x));
    }
    lemma_strictly_sorted_unique(r1, r2);
}

} // verus!
