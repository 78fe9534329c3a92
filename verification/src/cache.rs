use vstd::prelude::*;

use crate::collections::StrMap;

verus! {

/// What was last seen of a watched file.
#[derive(Debug)]
pub struct FileState {
    pub size: u64,
    pub mtime_ns: u128,
    /// SHA-256 of the contents, in lower-case hex.
    pub hash: String,
}

/// What was recorded when a target last succeeded.
#[derive(Debug)]
pub struct TargetState {
    pub fingerprint: String,
    /// The watched files, by path relative to the project root.
    pub files: StrMap<FileState>,
}

/// The build state kept between runs, by target name.
#[derive(Debug)]
pub struct Cache {
    pub targets: StrMap<TargetState>,
}

impl Default for Cache {
    fn default() -> (c: Self)
        ensures
            c.targets.wf(),
            c.targets@ == Map::<Seq<char>, TargetState>::empty(),
    {
        Cache { targets: StrMap::new() }
    }
}

} // verus!
