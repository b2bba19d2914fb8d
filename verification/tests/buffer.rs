use temporal_scheduler::buffer::{process_buffer, Overlappable};
use temporal_scheduler::ScheduleOverlapPolicy;

#[derive(Debug, Clone, PartialEq)]
struct TestStart {
    id: &'static str,
    policy: ScheduleOverlapPolicy,
}

impl Overlappable for TestStart {
    fn overlap_policy(&self) -> ScheduleOverlapPolicy {
        self.policy
    }
}

fn make_start(id: &'static str, policy: ScheduleOverlapPolicy) -> TestStart {
    TestStart { id, policy }
}

fn resolve(p: ScheduleOverlapPolicy) -> ScheduleOverlapPolicy {
    match p {
        ScheduleOverlapPolicy::Unspecified => ScheduleOverlapPolicy::Skip,
        other => other,
    }
}

#[test]
fn test_buffer_empty() {
    let result = process_buffer::<TestStart, _>(&[], false, resolve);
    assert!(result.non_overlapping_start.is_none());
    assert!(result.overlapping_starts.is_empty());
    assert!(result.new_buffer.is_empty());
    assert!(!result.need_cancel);
    assert!(!result.need_terminate);
}

#[test]
fn test_buffer_first_goes_when_not_running() {
    let buf = vec![make_start("a", ScheduleOverlapPolicy::Skip)];
    let result = process_buffer(&buf, false, resolve);
    assert_eq!(result.non_overlapping_start.as_ref().map(|s| s.id), Some("a"));
}

#[test]
fn test_buffer_skip_when_running() {
    let buf = vec![make_start("a", ScheduleOverlapPolicy::Skip)];
    let result = process_buffer(&buf, true, resolve);
    assert!(result.non_overlapping_start.is_none());
    assert_eq!(result.overlap_skipped, 1);
}

#[test]
fn test_buffer_one() {
    let buf = vec![
        make_start("a", ScheduleOverlapPolicy::BufferOne),
        make_start("b", ScheduleOverlapPolicy::BufferOne),
    ];
    let result = process_buffer(&buf, false, resolve);
    assert_eq!(result.non_overlapping_start.as_ref().map(|s| s.id), Some("a"));
    assert_eq!(result.new_buffer.len(), 1);
    assert_eq!(result.new_buffer[0].id, "b");

    let result2 = process_buffer(&buf, true, resolve);
    assert!(result2.non_overlapping_start.is_none());
    assert_eq!(result2.new_buffer.len(), 1);
    assert_eq!(result2.new_buffer[0].id, "a");
    assert_eq!(result2.overlap_skipped, 1);
}

#[test]
fn test_buffer_all() {
    let buf = vec![
        make_start("a", ScheduleOverlapPolicy::BufferAll),
        make_start("b", ScheduleOverlapPolicy::BufferAll),
    ];
    let result = process_buffer(&buf, false, resolve);
    assert_eq!(result.non_overlapping_start.as_ref().map(|s| s.id), Some("a"));
    assert_eq!(result.new_buffer.len(), 1);
    assert_eq!(result.new_buffer[0].id, "b");

    let result2 = process_buffer(&buf, true, resolve);
    assert!(result2.non_overlapping_start.is_none());
    assert_eq!(result2.new_buffer.len(), 2);
    assert_eq!(result2.new_buffer[0].id, "a");
    assert_eq!(result2.new_buffer[1].id, "b");
}

#[test]
fn test_buffer_cancel_other() {
    let buf = vec![make_start("a", ScheduleOverlapPolicy::CancelOther)];

    let result = process_buffer(&buf, true, resolve);
    assert!(result.need_cancel);
    assert_eq!(result.new_buffer.len(), 1);
    assert_eq!(result.new_buffer[0].id, "a");

    let result2 = process_buffer(&buf, false, resolve);
    assert!(!result2.need_cancel);
    assert_eq!(result2.non_overlapping_start.as_ref().map(|s| s.id), Some("a"));
}

#[test]
fn test_buffer_terminate_other() {
    let buf = vec![make_start("a", ScheduleOverlapPolicy::TerminateOther)];

    let result = process_buffer(&buf, true, resolve);
    assert!(result.need_terminate);
    assert_eq!(result.new_buffer.len(), 1);

    let result2 = process_buffer(&buf, false, resolve);
    assert!(!result2.need_terminate);
    assert_eq!(result2.non_overlapping_start.as_ref().map(|s| s.id), Some("a"));
}

#[test]
fn test_buffer_allow_all() {
    let buf = vec![
        make_start("a", ScheduleOverlapPolicy::AllowAll),
        make_start("b", ScheduleOverlapPolicy::AllowAll),
        make_start("c", ScheduleOverlapPolicy::Skip),
    ];
    let result = process_buffer(&buf, false, resolve);
    assert_eq!(result.overlapping_starts.len(), 2);
    assert_eq!(result.overlapping_starts[0].id, "a");
    assert_eq!(result.overlapping_starts[1].id, "b");
    assert_eq!(result.non_overlapping_start.as_ref().map(|s| s.id), Some("c"));
}

#[test]
fn test_cancel_clears_allow_all() {
    let buf = vec![
        make_start("a", ScheduleOverlapPolicy::AllowAll),
        make_start("b", ScheduleOverlapPolicy::CancelOther),
    ];
    let result = process_buffer(&buf, true, resolve);
    assert!(result.overlapping_starts.is_empty());
    assert!(result.need_cancel);
}
