use vstd::prelude::*;

verus! {

/// One detection rule: a directory holding an entry named `trigger` is a
/// project of type `name`, and each name in `disposables` marks a
/// subdirectory that is safe to delete when it exists.
pub struct Entry {
    pub name: String,
    pub trigger: String,
    pub disposables: Vec<String>,
}

/// The ordered rule set the detector evaluates, supplied by the
/// configuration layer.
pub struct Config {
    pub entries: Vec<Entry>,
}

} // verus!
