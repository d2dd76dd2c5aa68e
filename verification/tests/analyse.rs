use crossbeam::queue::SegQueue;
use sweep::analyse::{analyse_projects, filter_by_modified_date, is_stale, DEFAULT_RECENCY_THRESHOLD_SECS};
use sweep::config::{Config, Entry};
use sweep::detect::detect_cleanable_project;
use sweep::listing::DirListing;
use sweep::project::{join_path, Project};
use sweep::settings::ArgsError;

const NOW: u64 = 1_700_000_000;

fn project(root: &str, label: &str, cleanables: &[&str], last_modified: u64) -> Project {
    Project {
        root: root.to_string(),
        dependency_dirs: cleanables.iter().map(|&c| format!("{}/{}", root, c)).collect(),
        last_modified,
        typ: Some(label.to_string()),
    }
}

#[test]
fn aggregate_is_sorted_and_deduplicated() {
    let q: SegQueue<Project> = SegQueue::new();
    q.push(project("/b", "rust", &["target", "build"], 0));
    q.push(project("/a", "npm", &["node_modules"], 0));
    q.push(project("/b", "rust", &["target"], 0));
    let dirs = analyse_projects(q, true, NOW, DEFAULT_RECENCY_THRESHOLD_SECS);
    assert_eq!(dirs, vec![
        "/a/node_modules".to_string(),
        "/b/build".to_string(),
        "/b/target".to_string(),
    ]);
}

#[test]
fn aggregate_is_order_independent() {
    let forward: SegQueue<Project> = SegQueue::new();
    let backward: SegQueue<Project> = SegQueue::new();
    forward.push(project("/x", "rust", &["target"], 0));
    forward.push(project("/y", "npm", &["node_modules", "dist"], 0));
    forward.push(project("/z", "java/pom", &["build"], 0));
    backward.push(project("/z", "java/pom", &["build"], 0));
    backward.push(project("/y", "npm", &["node_modules", "dist"], 0));
    backward.push(project("/x", "rust", &["target"], 0));
    let a = analyse_projects(forward, true, NOW, DEFAULT_RECENCY_THRESHOLD_SECS);
    let b = analyse_projects(backward, true, NOW, DEFAULT_RECENCY_THRESHOLD_SECS);
    assert_eq!(a, b);
    assert_eq!(a, vec![
        "/x/target".to_string(),
        "/y/dist".to_string(),
        "/y/node_modules".to_string(),
        "/z/build".to_string(),
    ]);
}

#[test]
fn empty_bag_yields_empty_list() {
    let q: SegQueue<Project> = SegQueue::new();
    let dirs = analyse_projects(q, false, NOW, DEFAULT_RECENCY_THRESHOLD_SECS);
    assert!(dirs.is_empty());
}

#[test]
fn recency_filter_excludes_fresh_projects() {
    // a project touched "now" is excluded under the 30-day threshold...
    let q: SegQueue<Project> = SegQueue::new();
    q.push(project("/fresh", "rust", &["target"], NOW));
    let dirs = analyse_projects(q, false, NOW, DEFAULT_RECENCY_THRESHOLD_SECS);
    assert!(dirs.is_empty());
    // ...and included when the filter is bypassed
    let q: SegQueue<Project> = SegQueue::new();
    q.push(project("/fresh", "rust", &["target"], NOW));
    let dirs = analyse_projects(q, true, NOW, DEFAULT_RECENCY_THRESHOLD_SECS);
    assert_eq!(dirs, vec!["/fresh/target".to_string()]);
}

#[test]
fn recency_filter_keeps_stale_projects() {
    let q: SegQueue<Project> = SegQueue::new();
    q.push(project("/old", "rust", &["target"], NOW - DEFAULT_RECENCY_THRESHOLD_SECS - 1));
    q.push(project("/fresh", "npm", &["node_modules"], NOW - 60));
    let filtered = filter_by_modified_date(q, NOW, DEFAULT_RECENCY_THRESHOLD_SECS);
    assert_eq!(filtered.len(), 1);
    let kept = filtered.pop().expect("one project retained");
    assert_eq!(kept.root().as_str(), "/old");
}

#[test]
fn staleness_boundary() {
    assert!(is_stale(0, NOW, DEFAULT_RECENCY_THRESHOLD_SECS));
    assert!(is_stale(NOW - DEFAULT_RECENCY_THRESHOLD_SECS, NOW, DEFAULT_RECENCY_THRESHOLD_SECS));
    assert!(!is_stale(NOW - DEFAULT_RECENCY_THRESHOLD_SECS + 1, NOW, DEFAULT_RECENCY_THRESHOLD_SECS));
    assert!(!is_stale(NOW, NOW, DEFAULT_RECENCY_THRESHOLD_SECS));
    assert!(!is_stale(NOW, 0, DEFAULT_RECENCY_THRESHOLD_SECS));
}

#[test]
fn detection_feeds_aggregation() {
    let config = Config {
        entries: vec![Entry {
            name: "rust".to_string(),
            trigger: "Cargo.toml".to_string(),
            disposables: vec!["target".to_string()],
        }],
    };
    let l = DirListing {
        path: "/proj".to_string(),
        is_dir: true,
        files: vec!["Cargo.toml".to_string()],
        dirs: vec!["src".to_string(), "target".to_string()],
    };
    let p = detect_cleanable_project(&l, &config, None).expect("No project detected");
    assert_eq!(p.typ(), "rust");
    let q: SegQueue<Project> = SegQueue::new();
    q.push(p);
    let dirs = analyse_projects(q, true, NOW, DEFAULT_RECENCY_THRESHOLD_SECS);
    assert_eq!(dirs, vec!["/proj/target".to_string()]);
}

#[test]
fn join_path_inserts_separator() {
    assert_eq!(join_path(&"/a/b".to_string(), &"c".to_string()), "/a/b/c");
}

#[test]
fn invalid_path_error_carries_path() {
    let e = ArgsError::InvalidPath("./missing".to_string());
    assert_eq!(e.path().as_str(), "./missing");
}
