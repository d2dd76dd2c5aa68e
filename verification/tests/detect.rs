use sweep::config::{Config, Entry};
use sweep::detect::{detect_cleanable_project, find_override_file};
use sweep::listing::DirListing;

const ROOT: &str = "/tmp/test_directory";

fn strings(xs: &[&str]) -> Vec<String> {
    xs.iter().map(|&x| x.to_string()).collect()
}

fn simple_config() -> Config {
    Config {
        entries: vec![
            Entry {
                name: "rust".to_string(),
                trigger: "Cargo.toml".to_string(),
                disposables: strings(&["target"]),
            },
            Entry {
                name: "npm".to_string(),
                trigger: "package.json".to_string(),
                disposables: strings(&["node_modules", ".cache", "build", "dist"]),
            },
            Entry {
                name: "java/pom".to_string(),
                trigger: "pom.xml".to_string(),
                disposables: strings(&["target", ".gradle", "build"]),
            },
        ],
    }
}

fn listing(files: &[&str], dirs: &[&str]) -> DirListing {
    DirListing {
        path: ROOT.to_string(),
        is_dir: true,
        files: strings(files),
        dirs: strings(dirs),
    }
}

/// Runs detection on a directory holding the given files and directories
/// and checks that exactly the expected cleanable directories were found.
fn check_project(files: &[&str], dirs: &[&str], cleanable: &[&str]) {
    let config = simple_config();
    let project =
        detect_cleanable_project(&listing(files, dirs), &config, None).expect("No project detected");
    for c in cleanable {
        assert!(project.is_cleanable_dir(&format!("{}/{}", ROOT, c)));
    }
    assert_eq!(project.into_cleanable_dirs().len(), cleanable.len());
}

#[test]
fn rust() {
    check_project(&["Cargo.toml"], &["src"], &[]);
    check_project(&["Cargo.toml"], &["src", "target"], &["target"]);
}

#[test]
fn nodejs() {
    check_project(&["package.json"], &["src"], &[]);
    check_project(
        &["package.json"],
        &["src", "node_modules", ".cache", ".idea", "build", "dist"],
        &["node_modules", ".cache", "build", "dist"],
    );
}

#[test]
fn java() {
    check_project(&["pom.xml"], &["src"], &[]);
    check_project(&["pom.xml"], &["src", "build"], &["build"]);
    check_project(
        &["pom.xml"],
        &["src", ".gradle", "build", "spec"],
        &[".gradle", "build"],
    );
}

#[test]
fn empty_dir() {
    let config = simple_config();
    assert!(
        detect_cleanable_project(&listing(&[], &[]), &config, None).is_none(),
        "Project detected in empty directory"
    );
}

#[test]
fn no_project() {
    let config = simple_config();
    let l = listing(
        &["no_project_here.txt"],
        &["not_a_project", "another_test_directory"],
    );
    assert!(
        detect_cleanable_project(&l, &config, None).is_none(),
        "Project detected in unrelated directory"
    );
}

#[test]
fn not_a_directory() {
    let config = simple_config();
    let l = DirListing {
        path: format!("{}/Cargo.toml", ROOT),
        is_dir: false,
        files: vec![],
        dirs: vec![],
    };
    assert!(detect_cleanable_project(&l, &config, None).is_none());
}

#[test]
fn rule_label_is_last_match() {
    let config = simple_config();
    let project = detect_cleanable_project(
        &listing(&["Cargo.toml", "pom.xml"], &["target", "build"]),
        &config,
        None,
    )
    .expect("No project detected");
    assert_eq!(project.typ(), "java/pom");
    assert!(project.is_cleanable_dir(&format!("{}/target", ROOT)));
    assert!(project.is_cleanable_dir(&format!("{}/build", ROOT)));
}

#[test]
fn override_shadows_rules() {
    let config = simple_config();
    let l = listing(
        &[".swpfile", "Cargo.toml"],
        &["src", "target", "node_modules"],
    );
    let paths = strings(&["node_modules", "does_not_exist"]);
    let project =
        detect_cleanable_project(&l, &config, Some(&paths)).expect("No project detected");
    assert_eq!(project.typ(), "sweep-file");
    assert!(project.is_cleanable_dir(&format!("{}/node_modules", ROOT)));
    // the rule for Cargo.toml would have added target; the override wins
    assert!(!project.is_cleanable_dir(&format!("{}/target", ROOT)));
    assert_eq!(project.into_cleanable_dirs(), vec![format!("{}/node_modules", ROOT)]);
}

#[test]
fn override_priority_order() {
    let both = listing(&[".swpfile", ".cleanuprc"], &[]);
    assert_eq!(find_override_file(&both), Some(".swpfile".to_string()));
    let second = listing(&[".cleanuprc"], &[]);
    assert_eq!(find_override_file(&second), Some(".cleanuprc".to_string()));
    let neither = listing(&["Cargo.toml"], &["src"]);
    assert_eq!(find_override_file(&neither), None);
}

#[test]
fn duplicate_disposables_are_recorded_once() {
    // two rules both name "build"; set semantics keep a single entry
    let config = Config {
        entries: vec![
            Entry {
                name: "npm".to_string(),
                trigger: "package.json".to_string(),
                disposables: strings(&["build", "dist"]),
            },
            Entry {
                name: "java/pom".to_string(),
                trigger: "pom.xml".to_string(),
                disposables: strings(&["build", "build"]),
            },
        ],
    };
    let l = listing(&["package.json", "pom.xml"], &["build", "dist"]);
    let project = detect_cleanable_project(&l, &config, None).expect("No project detected");
    assert!(project.is_cleanable_dir(&format!("{}/build", ROOT)));
    assert!(project.is_cleanable_dir(&format!("{}/dist", ROOT)));
    assert_eq!(project.into_cleanable_dirs().len(), 2);
}

#[test]
fn override_duplicate_paths_recorded_once() {
    let config = simple_config();
    let l = listing(&[".cleanuprc"], &["out"]);
    let paths = strings(&["out", "out"]);
    let project =
        detect_cleanable_project(&l, &config, Some(&paths)).expect("No project detected");
    assert_eq!(project.into_cleanable_dirs(), vec![format!("{}/out", ROOT)]);
}

#[test]
fn detect_is_idempotent() {
    let config = simple_config();
    let l = listing(&["Cargo.toml"], &["src", "target"]);
    let first = detect_cleanable_project(&l, &config, None).expect("No project detected");
    let second = detect_cleanable_project(&l, &config, None).expect("No project detected");
    assert_eq!(first.typ(), second.typ());
    assert_eq!(first.root(), second.root());
    assert_eq!(first.into_cleanable_dirs(), second.into_cleanable_dirs());
}
