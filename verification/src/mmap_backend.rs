//! How a pool file is opened and mapped.
//!
//! Mapping a file takes a series of system calls, each of which may fail. What to do next,
//! and what to report, is decided here; the calls themselves are made by the caller, who
//! reports back what came of each.
use crate::error::FenceError;
use vstd::prelude::*;
use vstd::string::*;

verus! {

/// What to do next to map a file.
#[derive(Debug, Clone, PartialEq, Eq)]
pub enum MapAction {
    /// Open the file for reading and writing; create it if it does not exist.
    Open,
    /// Determine the file's length.
    Measure,
    /// Extend the file to the wanted length.
    Extend,
    /// Map the wanted length, shared, for reading and writing.
    MapFile,
    /// The file is mapped.
    Finish,
    /// Give up with this error, after closing the file if it is open.
    Fail { close: bool, error: FenceError },
}

/// What came of an action.
#[derive(Debug, Clone, PartialEq, Eq)]
pub enum MapEvent {
    /// The action succeeded.
    Done,
    /// The file's length was determined.
    Length(u64),
    /// The action failed, for the given reason.
    Failed { reason: String },
}

/// The action fails with `MmapFailed` and the given detail.
pub open spec fn fails(action: MapAction, close: bool, detail: Seq<char>) -> bool {
    action matches MapAction::Fail { close: c, error: FenceError::MmapFailed { detail: d } } && c
        == close && d@ == detail
}

/// Gives up with the given detail.
fn fail(close: bool, what: &str, reason: &str) -> (action: MapAction)
    ensures
        fails(action, close, what@ + reason@),
{
    let mut detail: String = String::new();
    detail.append(what);
    detail.append(reason);
    assert(detail@ =~= what@ + reason@);
    MapAction::Fail { close, error: FenceError::MmapFailed { detail } }
}

/// Whether a path contains the character that ends a path for the operating system.
fn contains_null(path: &str) -> (found: bool)
    ensures
        found == path@.contains('\0'),
{
    let n: usize = path.unicode_len();
    let mut i: usize = 0;
    while i < n
        invariant
            i <= n,
            n == path@.len(),
            forall|k: int| 0 <= k < i ==> path@[k] != '\0',
        decreases n - i,
    {
        if path.get_char(i) == '\0' {
            assert(path@[i as int] == '\0');
            return true;
        }
        i = i + 1;
    }
    false
}

/// The first action: the path must be UTF-8 (else there is none) and hold no null
/// character.
pub fn first_action(path: Option<&str>) -> (action: MapAction)
    ensures
        match path {
            None => fails(action, false, "path contains invalid UTF-8"@),
            Some(p) => if p@.contains('\0') {
                fails(action, false, "path contains null byte"@)
            } else {
                action is Open
            },
        },
{
    match path {
        None => MapAction::Fail {
            close: false,
            error: FenceError::MmapFailed { detail: "path contains invalid UTF-8".to_string() },
        },
        Some(p) => if contains_null(p) {
            MapAction::Fail {
                close: false,
                error: FenceError::MmapFailed { detail: "path contains null byte".to_string() },
            }
        } else {
            MapAction::Open
        },
    }
}

/// Whether `next` may follow `action` once `event` came of it, to map `size` bytes.
///
/// Open, measure, extend if the file is smaller than `size`, map. Whatever fails ends it,
/// and closes the file if it was opened.
pub open spec fn follows(action: MapAction, event: MapEvent, size: u64, next: MapAction) -> bool {
    match (action, event) {
        (MapAction::Open, MapEvent::Failed { reason }) => fails(
            next,
            false,
            "open() failed: "@ + reason@,
        ),
        (MapAction::Open, _) => next is Measure,
        (MapAction::Measure, MapEvent::Failed { reason }) => fails(
            next,
            true,
            "fstat() failed: "@ + reason@,
        ),
        (MapAction::Measure, MapEvent::Length(length)) => if length < size {
            next is Extend
        } else {
            next is MapFile
        },
        (MapAction::Measure, MapEvent::Done) => next is Extend,
        (MapAction::Extend, MapEvent::Failed { reason }) => fails(
            next,
            true,
            "ftruncate() failed: "@ + reason@,
        ),
        (MapAction::Extend, _) => next is MapFile,
        (MapAction::MapFile, MapEvent::Failed { reason }) => fails(
            next,
            true,
            "mmap() failed: "@ + reason@,
        ),
        (MapAction::MapFile, _) => next is Finish,
        (MapAction::Finish, _) => next is Finish,
        (MapAction::Fail { .. }, _) => next == action,
    }
}

/// What to do after `action`, once `event` came of it, to map `size` bytes.
pub fn next_action(action: MapAction, event: MapEvent, size: u64) -> (next: MapAction)
    ensures
        follows(action, event, size, next),
{
    match action {
        MapAction::Open => match event {
            MapEvent::Failed { reason } => fail(false, "open() failed: ", reason.as_str()),
            _ => MapAction::Measure,
        },
        MapAction::Measure => match event {
            MapEvent::Failed { reason } => fail(true, "fstat() failed: ", reason.as_str()),
            MapEvent::Length(length) => if length < size {
                MapAction::Extend
            } else {
                MapAction::MapFile
            },
            MapEvent::Done => MapAction::Extend,
        },
        MapAction::Extend => match event {
            MapEvent::Failed { reason } => fail(true, "ftruncate() failed: ", reason.as_str()),
            _ => MapAction::MapFile,
        },
        MapAction::MapFile => match event {
            MapEvent::Failed { reason } => fail(true, "mmap() failed: ", reason.as_str()),
            _ => MapAction::Finish,
        },
        MapAction::Finish => MapAction::Finish,
        MapAction::Fail { close, error } => MapAction::Fail { close, error },
    }
}

/// How many bytes of a pool file to map: what a fresh pool needs, or, for an existing pool,
/// all that the file holds if that is more. The header of an existing pool, not the
/// configuration, tells how large it is.
pub fn mapping_size(create: bool, file_len: u64, wanted: u64) -> (size: u64)
    ensures
        size == (if !create && file_len > wanted {
            file_len
        } else {
            wanted
        }),
{
    if !create && file_len > wanted {
        file_len
    } else {
        wanted
    }
}

/// A file is never cut short: it is extended only where it is smaller than what is mapped.
pub proof fn law_never_shrinks(length: u64, size: u64, next: MapAction)
    requires
        follows(MapAction::Measure, MapEvent::Length(length), size, next),
        next is Extend,
    ensures
        length < size,
{
}

/// Only what is long enough is mapped: a file that was measured is mapped as it is exactly if
/// it holds what is wanted, and is extended first exactly if it does not.
pub proof fn law_maps_long_enough(length: u64, size: u64, next: MapAction)
    requires
        follows(MapAction::Measure, MapEvent::Length(length), size, next),
    ensures
        next is MapFile <==> length >= size,
        next is Extend <==> length < size,
{
}

/// Steps that succeed lead to the mapping, in order; a mapping that is there stays, and what
/// has failed does not go on.
pub proof fn law_steps_lead_to_mapping(action: MapAction, size: u64, next: MapAction)
    requires
        follows(action, MapEvent::Done, size, next),
    ensures
        action is Open ==> next is Measure,
        action is Measure ==> next is Extend,
        action is Extend ==> next is MapFile,
        action is MapFile ==> next is Finish,
        action is Finish ==> next is Finish,
        action is Fail ==> next == action,
{
}

/// A step that fails ends it all: the error names the step and the reason, and the file is
/// closed if it had been opened.
pub proof fn law_failure_ends(action: MapAction, reason: String, size: u64, next: MapAction)
    requires
        action is Open || action is Measure || action is Extend || action is MapFile,
        follows(action, MapEvent::Failed { reason }, size, next),
    ensures
        next matches MapAction::Fail { close, error: FenceError::MmapFailed { detail } } && {
            &&& close == !(action is Open)
            &&& action is Open ==> detail@ == "open() failed: "@ + reason@
            &&& action is Measure ==> detail@ == "fstat() failed: "@ + reason@
            &&& action is Extend ==> detail@ == "ftruncate() failed: "@ + reason@
            &&& action is MapFile ==> detail@ == "mmap() failed: "@ + reason@
        },
{
}

} // verus!
