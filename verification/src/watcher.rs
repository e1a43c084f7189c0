//! Keeping an index in step with a tree while it changes: which changes
//! call for an update.
//!
//! Watching the tree is the caller's part. It hands in each batch of changes
//! that it gathered and is told what to do.
use crate::config::{indexable, should_index_file, Config};
use crate::indexer::UpdateStats;
use crate::paths::{is_under, lies_under};
use vstd::prelude::*;

verus! {

/// For how long changes are gathered before they are handed in, in
/// milliseconds.
pub const DEBOUNCE_MILLIS: u64 = 500;

/// What the watch of a tree reports.
#[derive(Debug)]
pub enum WatchEvent {
    /// The paths that changed while changes were gathered.
    Changed(Vec<String>),
    /// The watch failed once; the words say how.
    Failed(String),
    /// The watch has ended.
    Closed,
}

/// What to do about a report.
#[derive(Debug, Clone, Copy, PartialEq, Eq, Structural)]
pub enum WatchAction {
    /// Bring the index in step with the tree.
    Update,
    /// Go on watching.
    Wait,
    /// Stop watching.
    Stop,
}

/// Whether a change to this path matters: the file is one that is indexed
/// and does not lie in the directory of the index.
pub open spec fn relevant(path: Seq<char>, index_dir: Seq<char>) -> bool {
    indexable(path) && !is_under(path, index_dir)
}

/// Whether one of the paths matters.
pub open spec fn any_relevant(paths: Seq<String>, index_dir: Seq<char>) -> bool {
    exists|i: int| 0 <= i < paths.len() && relevant((#[trigger] paths[i])@, index_dir)
}

/// What to do about a report: update when a path that matters has changed,
/// stop when the watch has ended, go on watching otherwise.
pub open spec fn action_for(event: WatchEvent, index_dir: Seq<char>) -> WatchAction {
    match event {
        WatchEvent::Changed(paths) => if any_relevant(paths@, index_dir) {
            WatchAction::Update
        } else {
            WatchAction::Wait
        },
        WatchEvent::Failed(_) => WatchAction::Wait,
        WatchEvent::Closed => WatchAction::Stop,
    }
}

/// Whether a change to this path matters.
pub fn is_relevant(path: &str, index_dir: &str) -> (r: bool)
    ensures
        r == relevant(path@, index_dir@),
{
    should_index_file(path) && !lies_under(path, index_dir)
}

/// Whether one of the paths matters.
pub fn has_relevant(paths: &Vec<String>, index_dir: &str) -> (r: bool)
    ensures
        r == any_relevant(paths@, index_dir@),
{
    let mut i: usize = 0;
    while i < paths.len()
        invariant
            i <= paths@.len(),
            forall|k: int| 0 <= k < i ==> !relevant((#[trigger] paths@[k])@, index_dir@),
        decreases paths@.len() - i,
    {
        if is_relevant(paths[i].as_str(), index_dir) {
            assert(relevant(paths@[i as int]@, index_dir@));
            return true;
        }
        i += 1;
    }
    false
}

/// Watches over the index of one tree.
#[derive(Debug)]
pub struct IndexWatcher {
    config: Config,
}

impl IndexWatcher {
    /// The settings of the index that is watched over.
    pub closed spec fn settings(&self) -> Config {
        self.config
    }

    /// A watcher over the index with these settings.
    pub fn new(config: Config) -> (r: IndexWatcher)
        ensures
            r.settings() == config,
    {
        IndexWatcher { config }
    }

    /// The settings of the index that is watched over.
    pub fn config(&self) -> (r: &Config)
        ensures
            *r == self.settings(),
    {
        &self.config
    }

    /// What to do about a report of the watch.
    pub fn process_events(&self, event: &WatchEvent) -> (r: WatchAction)
        ensures
            r == action_for(*event, self.settings().index_dir@),
    {
        match event {
            WatchEvent::Changed(paths) => {
                if has_relevant(paths, self.config.index_dir.as_str()) {
                    WatchAction::Update
                } else {
                    WatchAction::Wait
                }
            },
            WatchEvent::Failed(_) => WatchAction::Wait,
            WatchEvent::Closed => WatchAction::Stop,
        }
    }

    /// Whether an update is worth a line of report: whether it added,
    /// updated or removed a file.
    pub fn changed_anything(&self, stats: &UpdateStats) -> (r: bool)
        ensures
            r == (stats.added > 0 || stats.updated > 0 || stats.removed > 0),
    {
        stats.added > 0 || stats.updated > 0 || stats.removed > 0
    }
}

} // verus!
