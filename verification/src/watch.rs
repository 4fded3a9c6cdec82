//! When a change seen while watching `data.md` makes the index rebuild.
use vstd::prelude::*;

verus! {

/// The kinds of file system events that watching reports.
#[derive(Clone, Copy, Debug, PartialEq, Eq, Structural)]
pub enum FsEvent {
    Create,
    Write,
    Chmod,
    Rename,
    /// Any other event; it names no file to look at.
    Other,
}

/// What to do about one event.
#[derive(Clone, Copy, Debug, PartialEq, Eq, Structural)]
pub enum WatchAction {
    /// The event is not about the watched file.
    Ignore,
    /// The event is about the watched file but comes within two seconds of
    /// the last rebuild, which it most likely reports.
    TooSoon,
    /// Rebuild the index.
    Rebuild,
}

/// The shortest time between two rebuilds, in milliseconds.
pub const REBUILD_INTERVAL_MS: u64 = 2000;

/// An event names a file to look at.
pub open spec fn names_file(event: FsEvent) -> bool {
    event is Create || event is Write || event is Chmod || event is Rename
}

/// What to do about an event: `is_target` says whether the file it names
/// is the watched one, `elapsed_ms` how long ago the last rebuild was.
pub fn watch_action(event: FsEvent, is_target: bool, elapsed_ms: u64) -> (r: WatchAction)
    ensures
        !(names_file(event) && is_target) ==> r == WatchAction::Ignore,
        names_file(event) && is_target && elapsed_ms < REBUILD_INTERVAL_MS ==> r
            == WatchAction::TooSoon,
        names_file(event) && is_target && elapsed_ms >= REBUILD_INTERVAL_MS ==> r
            == WatchAction::Rebuild,
        event != FsEvent::Other && is_target && elapsed_ms >= 2000 ==> r == WatchAction::Rebuild,
        event != FsEvent::Other && is_target && elapsed_ms < 2000 ==> r == WatchAction::TooSoon,
        event == FsEvent::Other || !is_target ==> r == WatchAction::Ignore,
{
    let names = match event {
        FsEvent::Create | FsEvent::Write | FsEvent::Chmod | FsEvent::Rename => true,
        FsEvent::Other => false,
    };
    if !(names && is_target) {
        WatchAction::Ignore
    } else if elapsed_ms < REBUILD_INTERVAL_MS {
        WatchAction::TooSoon
    } else {
        WatchAction::Rebuild
    }
}

/// Every event but `Other` names a file: creating, writing, changing the
/// permissions of and renaming the watched file all make it rebuild.
pub proof fn lemma_events_naming_files(event: FsEvent)
    ensures
        names_file(event) <==> event != FsEvent::Other,
        event == FsEvent::Create || event == FsEvent::Write || event == FsEvent::Chmod || event
            == FsEvent::Rename ==> names_file(event),
{
}

} // verus!
