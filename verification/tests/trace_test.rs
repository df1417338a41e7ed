use ll::data::DataValue;
use ll::reporters::trace::{unix_ts, EventType, TraceReporter};
use ll::task_tree::TaskTree;
use ll::time::Timestamp;
use ll::uniq_id::{UniqID, UniqIDs};

fn at(unix_millis: u64) -> Timestamp {
    Timestamp { unix_millis }
}

#[test]
fn the_trace_reporter_collects_lines() {
    let mut reporter = TraceReporter::new();
    assert_eq!(reporter.take(), "");
    reporter.write("{\"a\":1}");
    reporter.write("");
    reporter.write("x");
    assert_eq!(reporter.take(), "{\"a\":1}\n\nx\n");
    assert_eq!(reporter.take(), "");
    reporter.write("y");
    assert_eq!(reporter.take(), "y\n");
}

#[test]
fn trace_events_tell_of_the_task() {
    let mut tree = TaskTree::new();
    let root = tree.create_task("root", at(5_000));
    let id = tree.create_task_internal("sub", Some(root), at(6_001));
    tree.add_data_transitive_for_task(id, "k", DataValue::Int(1));
    tree.add_data(id, "k", DataValue::Int(2));
    tree.add_data(id, "own", DataValue::Int(3));
    let reporter = TraceReporter::new();

    let running = tree.internal().get_task(id).unwrap().clone_task();
    let start = reporter.task_start(&running);
    assert_eq!(start.name, "root:sub");
    assert_eq!(start.id, 1);
    assert_eq!(start.event_type, EventType::Start);
    assert_eq!(start.unix_ts_millis, Some(6_001));
    assert_eq!(start.data.len(), 2);
    assert_eq!(start.data.get("k").unwrap().0.text(), "1");
    assert_eq!(start.data.get("own").unwrap().0.text(), "3");
    assert_eq!(reporter.task_end(&running).unix_ts_millis, None);

    tree.mark_done(id, None, at(7_500));
    let finished = tree.internal().get_task(UniqID(1)).unwrap().clone_task();
    let end = reporter.task_end(&finished);
    assert_eq!(end.event_type, EventType::End);
    assert_eq!(end.unix_ts_millis, Some(7_500));
    assert_eq!(unix_ts(at(42)), 42);
}

#[test]
fn instants_measure_time() {
    assert_eq!(at(10).duration_since(at(4)), Some(6));
    assert_eq!(at(10).duration_since(at(10)), Some(0));
    assert_eq!(at(4).duration_since(at(10)), None);
    assert_eq!(UniqID(7).as_u64(), 7);
}

#[test]
fn identifiers_count_up() {
    let mut ids = UniqIDs::new();
    assert!(ids.has_next());
    let a = ids.next_id();
    let b = ids.next_id();
    let c = ids.next_id();
    assert_eq!((a.as_u64(), b.as_u64(), c.as_u64()), (0, 1, 2));
    assert!(a < b && b < c);
}
