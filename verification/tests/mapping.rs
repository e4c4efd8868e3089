use fence::error::FenceError;
use fence::mmap_backend::{first_action, mapping_size, next_action, MapAction, MapEvent};
use fence::persistence::{first_line, next_line};

fn visited(addr: usize, len: usize) -> Vec<usize> {
    let mut lines = Vec::new();
    let mut line = first_line(addr, len);
    while let Some(l) = line {
        lines.push(l);
        line = next_line(l, addr, len);
    }
    lines
}

#[test]
fn lines_of_ranges() {
    assert_eq!(visited(0, 0), Vec::<usize>::new());
    assert_eq!(visited(0, 1), vec![0]);
    assert_eq!(visited(0, 64), vec![0]);
    assert_eq!(visited(0, 65), vec![0, 64]);
    assert_eq!(visited(63, 2), vec![0, 64]);
    assert_eq!(visited(128, 256), vec![128, 192, 256, 320]);
    assert_eq!(visited(7, 100), vec![0, 64]);
}

#[test]
fn last_line_of_the_address_space() {
    assert_eq!(visited(usize::MAX - 10, 10), vec![usize::MAX - 63]);
}

fn failed(reason: &str) -> MapEvent {
    MapEvent::Failed { reason: reason.to_string() }
}

fn failure(close: bool, detail: &str) -> MapAction {
    MapAction::Fail { close, error: FenceError::MmapFailed { detail: detail.to_string() } }
}

#[test]
fn mapping_a_small_file_extends_it() {
    let action = first_action(Some("/tmp/pool"));
    assert_eq!(action, MapAction::Open);
    let action = next_action(action, MapEvent::Done, 4096);
    assert_eq!(action, MapAction::Measure);
    let action = next_action(action, MapEvent::Length(100), 4096);
    assert_eq!(action, MapAction::Extend);
    let action = next_action(action, MapEvent::Done, 4096);
    assert_eq!(action, MapAction::MapFile);
    assert_eq!(next_action(action, MapEvent::Done, 4096), MapAction::Finish);
}

#[test]
fn mapping_a_large_file_keeps_its_length() {
    let action = next_action(MapAction::Measure, MapEvent::Length(8192), 4096);
    assert_eq!(action, MapAction::MapFile);
    let action = next_action(MapAction::Measure, MapEvent::Length(4096), 4096);
    assert_eq!(action, MapAction::MapFile);
}

#[test]
fn bad_paths_are_refused() {
    assert_eq!(first_action(None), failure(false, "path contains invalid UTF-8"));
    assert_eq!(first_action(Some("a\0b")), failure(false, "path contains null byte"));
}

#[test]
fn failed_calls_are_reported() {
    assert_eq!(
        next_action(MapAction::Open, failed("no entry"), 1),
        failure(false, "open() failed: no entry")
    );
    assert_eq!(
        next_action(MapAction::Measure, failed("bad"), 1),
        failure(true, "fstat() failed: bad")
    );
    assert_eq!(
        next_action(MapAction::Extend, failed("full"), 1),
        failure(true, "ftruncate() failed: full")
    );
    assert_eq!(
        next_action(MapAction::MapFile, failed("no memory"), 1),
        failure(true, "mmap() failed: no memory")
    );
}

#[test]
fn existing_files_are_mapped_whole() {
    assert_eq!(mapping_size(true, 9000, 4096), 4096);
    assert_eq!(mapping_size(false, 9000, 4096), 9000);
    assert_eq!(mapping_size(false, 100, 4096), 4096);
}
