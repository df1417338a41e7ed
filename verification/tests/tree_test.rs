use ll::data::DataValue;
use ll::reporters::text::StringReporter;
use ll::reporters::{deliver, deliver_to, Reporter, Reporters};
use ll::task::Task;
use ll::task_internal::{TaskInternal, TaskResult, TaskStatus};
use ll::task_tree::TaskTree;
use ll::time::Timestamp;
use ll::trace::Phase;
use ll::uniq_id::UniqID;
use std::collections::BTreeSet;

fn at(unix_millis: u64) -> Timestamp {
    Timestamp { unix_millis }
}

fn ids(tasks: &[TaskInternal]) -> Vec<u64> {
    tasks.iter().map(|t| t.id.as_u64()).collect()
}

fn has(tree: &TaskTree, id: UniqID) -> bool {
    tree.internal().get_task(id).is_some()
}

#[test]
fn a_new_tree_is_empty() {
    let tree = TaskTree::new();
    assert!(!tree.force_flush_enabled());
    assert!(tree.has_free_id());
    assert!(tree.internal().root_tasks().is_empty());
    assert!(tree.internal().child_to_parent().is_empty());
    assert!(tree.internal().parent_to_children().is_empty());
    assert!(!has(&tree, UniqID(0)));
}

#[test]
fn ids_increase_and_indices_agree() {
    let mut tree = TaskTree::new();
    let a = tree.create_task("a #l2", at(10));
    let b = tree.create_task_internal("b", Some(a), at(11));
    let c = tree.create_task_internal("c", Some(a), at(12));
    let d = tree.create_task_internal("d", Some(c), at(13));
    let e = tree.create_task_internal("e", Some(UniqID(77)), at(14));
    assert_eq!(
        vec![a.as_u64(), b.as_u64(), c.as_u64(), d.as_u64(), e.as_u64()],
        vec![0, 1, 2, 3, 4]
    );
    let internal = tree.internal();
    assert_eq!(internal.root_tasks(), &BTreeSet::from([0, 4]));
    assert_eq!(internal.parent_to_children().get(&0), Some(&BTreeSet::from([1, 2])));
    assert_eq!(internal.parent_to_children().get(&2), Some(&BTreeSet::from([3])));
    assert_eq!(internal.parent_to_children().get(&1), None);
    assert_eq!(internal.child_to_parent().get(&1), Some(&0));
    assert_eq!(internal.child_to_parent().get(&2), Some(&0));
    assert_eq!(internal.child_to_parent().get(&3), Some(&2));
    assert_eq!(internal.child_to_parent().get(&0), None);
    assert_eq!(internal.child_to_parent().get(&4), None);

    let task = internal.get_task(d).unwrap();
    assert_eq!(task.name, "d");
    assert_eq!(task.parent_names, vec!["a", "c"]);
    assert_eq!(task.full_name(), "a:c:d");
    assert_eq!(task.started_at, at(13));
    assert!(matches!(task.status, TaskStatus::Running));
    let root = internal.get_task(a).unwrap();
    assert_eq!(root.name, "a");
    assert_eq!(root.tags.to_vec(), vec!["l2"]);
    assert_eq!(root.full_name(), "a");
}

#[test]
fn transitive_data_is_inherited_at_creation() {
    let mut tree = TaskTree::new();
    tree.add_data_transitive("host", DataValue::String("h".to_string()));
    tree.add_data_transitive("who", DataValue::String("tree".to_string()));
    let p = tree.create_task("p", at(1));
    tree.add_data_transitive_for_task(p, "who", DataValue::String("parent".to_string()));
    tree.add_data_transitive_for_task(p, "pid #info", DataValue::Int(123));
    let c = tree.create_task_internal("c", Some(p), at(2));
    tree.add_data_transitive_for_task(p, "late", DataValue::Int(1));
    tree.add_data(c, "own", DataValue::Int(7));

    assert_eq!(tree.get_data(c, "host").unwrap().text(), "h");
    assert_eq!(tree.get_data(c, "who").unwrap().text(), "parent");
    assert_eq!(tree.get_data(c, "pid").unwrap().text(), "123");
    assert_eq!(tree.get_data(c, "own").unwrap().text(), "7");
    assert!(tree.get_data(c, "late").is_none());
    assert_eq!(tree.get_data(p, "late").unwrap().text(), "1");
    assert!(tree.get_data(UniqID(9), "host").is_none());

    let child = tree.internal().get_task(c).unwrap();
    assert_eq!(child.data_transitive.len(), 3);
    assert_eq!(child.data_transitive.get("pid").unwrap().1.to_vec(), vec!["info"]);
}

#[test]
fn writes_to_unknown_tasks_change_nothing() {
    let mut tree = TaskTree::new();
    let a = tree.create_task("a", at(1));
    let ghost = UniqID(5);
    tree.add_data(ghost, "k", DataValue::Int(1));
    tree.add_data_transitive_for_task(ghost, "k", DataValue::Int(1));
    tree.task_progress(ghost, 1, 2);
    tree.start_trace(ghost);
    tree.hide_error_msg_for_task(ghost, Some("x".to_string()));
    tree.attach_transitive_data_to_errors_for_task(ghost, false);
    tree.mark_done(ghost, None, at(2));
    assert!(!has(&tree, ghost));
    let (starts, ends) = tree.report_all();
    assert_eq!(ids(&starts), vec![a.as_u64()]);
    assert!(ends.is_empty());
}

#[test]
fn task_settings_are_point_updates() {
    let mut tree = TaskTree::new();
    tree.hide_errors_default_msg(Some("see the top".to_string()));
    tree.attach_transitive_data_to_errors_default(false);
    let a = tree.create_task("a", at(1));
    {
        let t = tree.internal().get_task(a).unwrap();
        assert_eq!(t.hide_errors, Some("see the top".to_string()));
        assert!(!t.attach_transitive_data_to_errors);
        assert!(!t.keep_subtree_until_finished);
        assert_eq!(t.progress, None);
    }
    tree.hide_error_msg_for_task(a, None);
    tree.attach_transitive_data_to_errors_for_task(a, true);
    tree.task_progress(a, 25, 100);
    tree.start_trace(a);
    let t = tree.internal().get_task(a).unwrap();
    assert_eq!(t.hide_errors, None);
    assert!(t.attach_transitive_data_to_errors);
    assert!(t.keep_subtree_until_finished);
    assert_eq!(t.progress, Some((25, 100)));
}

#[test]
fn mark_done_keeps_the_first_end() {
    let mut tree = TaskTree::new();
    let a = tree.create_task("a", at(1));
    tree.mark_done(a, Some("broken".to_string()), at(5));
    tree.mark_done(a, None, at(9));
    let t = tree.internal().get_task(a).unwrap();
    match &t.status {
        TaskStatus::Finished(TaskResult::Failure(msg), when) => {
            assert_eq!(msg, "broken");
            assert_eq!(*when, at(5));
        }
        _ => panic!("the task must have failed"),
    }
    let (starts, ends) = tree.report_all();
    assert_eq!(ids(&starts), vec![0]);
    assert_eq!(ids(&ends), vec![0]);
    let (starts, ends) = tree.report_all();
    assert!(starts.is_empty() && ends.is_empty());
}

#[test]
fn events_are_delivered_once_and_in_order() {
    let mut tree = TaskTree::new();
    let a = tree.create_task("a", at(1));
    let b = tree.create_task_internal("b", Some(a), at(2));
    tree.mark_done(b, None, at(3));
    let (starts, ends) = tree.report_all();
    assert_eq!(ids(&starts), vec![0, 1]);
    assert_eq!(ids(&ends), vec![1]);
    assert!(matches!(starts[1].status, TaskStatus::Finished(TaskResult::Success, _)));

    let c = tree.create_task_internal("c", Some(a), at(4));
    tree.mark_done(a, None, at(5));
    tree.mark_done(c, None, at(6));
    let (starts, ends) = tree.report_all();
    assert_eq!(ids(&starts), vec![2]);
    assert_eq!(ids(&ends), vec![0, 2]);
}

#[test]
fn force_flush_hands_the_events_back_at_once() {
    let mut tree = TaskTree::new();
    assert!(tree.maybe_force_flush().is_none());
    tree.set_force_flush(true);
    assert!(tree.force_flush_enabled());
    let root = Task::create_new(&mut tree, "root", at(1));
    let (task, spawned, batch) = root.pre_spawn(&mut tree, "work", at(2));
    assert!(!task.mark_done_on_drop());
    assert_eq!(spawned.uniq_id(), task.uniq_id());
    let (starts, ends) = batch.unwrap();
    assert_eq!(ids(&starts), vec![0, 1]);
    assert!(ends.is_empty());
    let (result, batch) = tree.post_spawn(task.uniq_id(), Ok::<u8, anyhow::Error>(3), at(3));
    assert_eq!(result.unwrap(), 3);
    let (starts, ends) = batch.unwrap();
    assert!(starts.is_empty());
    assert_eq!(ids(&ends), vec![1]);
    let (starts, ends) = tree.report_all();
    assert!(starts.is_empty() && ends.is_empty());

    tree.set_force_flush(false);
    let (later, batch) = tree.pre_spawn("later", None, at(4));
    assert!(batch.is_none());
    assert_eq!(later.uniq_id(), UniqID(2));
    assert!(tree.finish_spawn(UniqID(2), None, at(5)).is_none());
    let (starts, ends) = tree.report_all();
    assert_eq!(ids(&starts), vec![2]);
    assert_eq!(ids(&ends), vec![2]);
}

#[test]
fn a_released_handle_ends_its_task() {
    let mut tree = TaskTree::new();
    let root = Task::create_new(&mut tree, "root", at(1));
    let child = root.create(&mut tree, "child", at(2));
    let (handle, spawned, _) = root.pre_spawn(&mut tree, "spawned", at(3));
    assert!(root.mark_done_on_drop() && child.mark_done_on_drop());
    let child_id = child.uniq_id();
    let spawned_id = spawned.uniq_id();
    child.release(&mut tree, at(4));
    handle.release(&mut tree, at(5));
    assert!(matches!(
        tree.internal().get_task(child_id).unwrap().status,
        TaskStatus::Finished(TaskResult::Success, Timestamp { unix_millis: 4 })
    ));
    assert!(matches!(
        tree.internal().get_task(spawned_id).unwrap().status,
        TaskStatus::Running
    ));
    assert!(spawned.abandon(&mut tree, at(6)).is_none());
    assert!(matches!(
        tree.internal().get_task(spawned_id).unwrap().status,
        TaskStatus::Finished(TaskResult::Success, Timestamp { unix_millis: 6 })
    ));
}

#[test]
fn gc_removes_a_finished_root_after_the_grace_period() {
    let mut tree = TaskTree::new();
    tree.set_remove_task_after_done_ms(100);
    let a = tree.create_task("a", at(1_000));
    tree.mark_done(a, None, at(2_000));
    tree.garbage_collect(at(2_100));
    assert!(has(&tree, a));
    assert_eq!(tree.internal().root_tasks(), &BTreeSet::from([0]));
    tree.garbage_collect(at(1_000));
    assert!(has(&tree, a));
    tree.garbage_collect(at(2_101));
    assert!(!has(&tree, a));
    assert!(tree.internal().root_tasks().is_empty());
    assert!(tree.internal().parent_to_children().is_empty());
    let b = tree.create_task("b", at(3_000));
    assert_eq!(b.as_u64(), 1);
}

#[test]
fn gc_does_not_wait_for_the_delivery() {
    let mut tree = TaskTree::new();
    tree.set_remove_task_after_done_ms(100);
    let a = tree.create_task("a", at(1_000));
    let b = tree.create_task("b", at(1_000));
    let c = tree.create_task_internal("c", Some(b), at(1_000));
    tree.mark_done(a, None, at(2_000));
    tree.mark_done(c, None, at(2_000));
    tree.garbage_collect(at(5_000));
    assert!(!has(&tree, a) && has(&tree, b) && !has(&tree, c));
    assert_eq!(tree.internal().root_tasks(), &BTreeSet::from([1]));

    let (starts, ends) = tree.report_all();
    assert_eq!(ids(&starts), vec![1]);
    assert!(ends.is_empty());
    let (starts, ends) = tree.report_all();
    assert!(starts.is_empty() && ends.is_empty());
}

#[test]
fn gc_keeps_a_task_while_a_descendant_runs() {
    let mut tree = TaskTree::new();
    let a = tree.create_task("a", at(1));
    let b = tree.create_task_internal("b", Some(a), at(2));
    let c = tree.create_task_internal("c", Some(b), at(3));
    tree.mark_done(a, None, at(4));
    tree.mark_done(b, None, at(5));
    tree.report_all();
    tree.garbage_collect(at(1_000));
    assert!(has(&tree, a) && has(&tree, b) && has(&tree, c));

    tree.mark_done(c, None, at(1_001));
    tree.garbage_collect(at(1_001));
    assert!(has(&tree, a) && has(&tree, b) && has(&tree, c));
    tree.report_all();
    tree.garbage_collect(at(1_002));
    assert!(!has(&tree, a) && !has(&tree, b) && !has(&tree, c));
    assert!(tree.internal().child_to_parent().is_empty());
    assert!(tree.internal().parent_to_children().is_empty());
    assert!(tree.internal().root_tasks().is_empty());
}

#[test]
fn gc_keeps_a_parent_with_a_late_child() {
    let mut tree = TaskTree::new();
    let a = tree.create_task("a", at(1));
    let b = tree.create_task_internal("b", Some(a), at(2));
    tree.mark_done(b, None, at(3));
    tree.mark_done(a, None, at(4));
    let late = tree.create_task_internal("late", Some(a), at(5));
    tree.report_all();
    tree.garbage_collect(at(100));
    assert!(has(&tree, a) && has(&tree, late));
    assert!(!has(&tree, b));
    assert_eq!(tree.internal().parent_to_children().get(&0), Some(&BTreeSet::from([2])));
    assert_eq!(tree.internal().child_to_parent().get(&2), Some(&0));

    tree.mark_done(late, None, at(101));
    tree.report_all();
    tree.garbage_collect(at(200));
    assert!(!has(&tree, a) && !has(&tree, late));
}

#[test]
fn a_trace_holds_its_subtree() {
    let mut tree = TaskTree::new();
    let a = tree.create_task("a", at(1));
    tree.start_trace(a);
    let b = tree.create_task_internal("b", Some(a), at(2));
    tree.mark_done(b, None, at(3));
    tree.report_all();
    tree.garbage_collect(at(1_000));
    assert!(has(&tree, b));

    tree.mark_done(a, None, at(1_001));
    tree.report_all();
    tree.garbage_collect(at(2_000));
    assert!(!has(&tree, a) && !has(&tree, b));
}

#[test]
fn a_trace_holds_what_was_marked_before_it_started() {
    let mut tree = TaskTree::new();
    let a = tree.create_task("a", at(1));
    let b = tree.create_task_internal("b", Some(a), at(2));
    let c = tree.create_task_internal("c", Some(b), at(3));
    tree.mark_done(c, None, at(4));
    tree.start_trace(a);
    tree.mark_done(b, None, at(5));
    tree.report_all();
    tree.garbage_collect(at(1_000));
    assert!(has(&tree, a) && has(&tree, b) && has(&tree, c));
    let trace = tree.dump_trace(a);
    assert_eq!(trace.tasks.len(), 3);
    assert_eq!(trace.tasks[&c.0].finished_at, Some(at(4)));

    tree.mark_done(a, None, at(1_001));
    tree.report_all();
    tree.garbage_collect(at(2_000));
    assert!(!has(&tree, a) && !has(&tree, b) && !has(&tree, c));
}

#[test]
fn dump_trace_shows_the_subtree() {
    let mut tree = TaskTree::new();
    let root = tree.create_task("root", at(1_000));
    let a = tree.create_task_internal("a", Some(root), at(2_000));
    let other = tree.create_task("other", at(2_500));
    let b = tree.create_task_internal("b #tag", Some(a), at(3_000));
    let c = tree.create_task_internal("c", Some(root), at(3_500));
    tree.add_data_transitive_for_task(a, "k", DataValue::Int(1));
    tree.add_data(a, "k", DataValue::Int(2));
    tree.add_data(a, "own", DataValue::String("x".to_string()));
    tree.mark_done(b, None, at(4_999));

    let trace = tree.dump_trace(root);
    assert_eq!(trace.root_id, 0);
    let listed: Vec<u64> = trace.tasks.keys().copied().collect();
    assert_eq!(listed, vec![0, 1, 3, 4]);
    assert_eq!(trace.tasks[&0].name, "root");
    assert_eq!(trace.tasks[&0].children, BTreeSet::from([1, 4]));
    assert_eq!(trace.tasks[&1].name, "root:a");
    assert_eq!(trace.tasks[&1].children, BTreeSet::from([3]));
    assert_eq!(trace.tasks[&1].data.get("k").unwrap().0.text(), "1");
    assert_eq!(trace.tasks[&1].data.get("own").unwrap().0.text(), "x");
    assert_eq!(trace.tasks[&1].finished_at, None);
    assert_eq!(trace.tasks[&3].name, "root:a:b");
    assert_eq!(trace.tasks[&3].start, at(3_000));
    assert_eq!(trace.tasks[&3].finished_at, Some(at(4_999)));
    assert!(trace.tasks[&3].children.is_empty());

    let sub = tree.dump_trace(a);
    let listed: Vec<u64> = sub.tasks.keys().copied().collect();
    assert_eq!(listed, vec![1, 3]);
    assert!(tree.dump_trace(UniqID(99)).tasks.is_empty());
    assert_eq!(tree.dump_trace(other).tasks.len(), 1);
    assert_eq!(tree.dump_trace(c).tasks.len(), 1);

    let events = trace.to_chrome_trace();
    let shown: Vec<String> = events
        .iter()
        .map(|e| format!("{} {:?} {} {} {}", e.name, e.ph, e.pid, e.ts, e.tid))
        .collect();
    assert_eq!(
        shown,
        vec![
            "root-0 Begin 1 1 1",
            "root:a-1 Begin 1 2 2",
            "root:a:b-3 Begin 1 3 3",
            "root:a:b-3 End 1 4 3",
            "root:c-4 Begin 1 3 4",
        ]
    );
    assert_eq!(events[1].args.get("own").unwrap().0.text(), "x");
    assert!(matches!(events[3].ph, Phase::End));
}

#[test]
fn all_data_lists_own_entries_first() {
    let mut tree = TaskTree::new();
    let p = tree.create_task("p", at(1));
    tree.add_data_transitive_for_task(p, "k", DataValue::Int(1));
    tree.add_data_transitive_for_task(p, "a #info", DataValue::Int(2));
    tree.add_data(p, "k", DataValue::Int(3));
    tree.add_data(p, "z", DataValue::Int(4));
    let all = tree.internal().get_task(p).unwrap().all_data();
    let shown: Vec<String> = all
        .iter()
        .map(|(key, entry)| format!("{}={}{:?}", key, entry.0.text(), entry.1.to_vec()))
        .collect();
    assert_eq!(shown, vec!["k=3[]", "z=4[]", "a=2[\"info\"]", "k=1[]"]);
}

#[test]
fn error_context_lists_the_data() {
    let mut tree = TaskTree::new();
    let p = tree.create_task("p", at(1));
    tree.add_data_transitive_for_task(p, "tr", DataValue::Int(1));
    let c = tree.create_task_internal("c #tag", Some(p), at(2));
    tree.add_data(c, "b", DataValue::String("two".to_string()));
    tree.add_data(c, "a", DataValue::Int(1));
    assert_eq!(
        tree.internal().get_task(c).unwrap().error_context(),
        "[Task] c\n  a: 1\n  b: two\n  tr: 1\n"
    );
    tree.attach_transitive_data_to_errors_for_task(c, false);
    assert_eq!(
        tree.internal().get_task(c).unwrap().error_context(),
        "[Task] c\n  a: 1\n  b: two\n"
    );
    assert_eq!(tree.internal().get_task(p).unwrap().error_context(), "[Task] p\n  tr: 1\n");
}

struct Upper;

impl ll::errors::ErrorFormatter for Upper {
    fn format_error(&self, err: &anyhow::Error) -> String {
        format!("{:#}", err).to_uppercase()
    }
}

#[test]
fn post_spawn_stores_the_formatted_error() {
    let mut tree = TaskTree::new();
    assert!(tree.shared_formatter().is_none());
    tree.set_error_formatter(Some(std::sync::Arc::new(Upper)));
    let shared = tree.shared_formatter().unwrap();
    assert_eq!(shared.format_error(&anyhow::Error::msg("q")), "Q");
    let (job, _) = tree.pre_spawn("job", None, at(1));
    let id = job.uniq_id();
    let (result, _) = job.finish(&mut tree, Err::<(), _>(anyhow::Error::msg("boom")), at(2));
    let err = result.unwrap_err();
    assert_eq!(format!("{}", err), "[Task] job\n");
    assert_eq!(format!("{}", err.root_cause()), "boom");
    match &tree.internal().get_task(id).unwrap().status {
        TaskStatus::Finished(TaskResult::Failure(msg), when) => {
            assert_eq!(msg, "[TASK] JOB\n: BOOM");
            assert_eq!(*when, at(2));
        }
        _ => panic!("the task must have failed"),
    }

    let (result, _) = tree.post_spawn(UniqID(50), Err::<(), _>(anyhow::Error::msg("x")), at(3));
    assert_eq!(format!("{}", result.unwrap_err()), "[Task]");
    assert_eq!(tree.internal().spawn_context(UniqID(50)), "[Task]");
    assert_eq!(tree.internal().spawn_context(id), "[Task] job\n");
}

#[test]
fn wrapped_work_ends_with_the_text_it_is_handed() {
    let mut tree = TaskTree::new();
    let (job, _) = tree.pre_spawn("job", None, at(1));
    let handle = Task::of_spawned(&job);
    assert!(!handle.mark_done_on_drop());
    assert_eq!(handle.uniq_id(), job.uniq_id());
    let context = tree.internal().spawn_context(job.uniq_id());
    let formatter: &dyn ll::errors::ErrorFormatter = &Upper;
    let (err, text) =
        ll::errors::wrap_failure(anyhow::Error::msg("boom"), context, Some(formatter));
    assert_eq!(text, "[TASK] JOB\n: BOOM");
    assert_eq!(format!("{}", err), "[Task] job\n");
    let id = job.uniq_id();
    assert!(job.finish_as(&mut tree, Some(text), at(2)).is_none());
    match &tree.internal().get_task(id).unwrap().status {
        TaskStatus::Finished(TaskResult::Failure(msg), when) => {
            assert_eq!(msg, "[TASK] JOB\n: BOOM");
            assert_eq!(*when, at(2));
        }
        _ => panic!("the task must have failed"),
    }
    let (_, text) = ll::errors::wrap_failure(anyhow::Error::msg("boom"), "ctx".to_string(), None);
    assert!(text.starts_with("ctx") && text.contains("boom"));
}

#[test]
fn a_failure_without_a_formatter_begins_with_the_context() {
    let mut tree = TaskTree::new();
    let (job, _) = tree.pre_spawn("job", None, at(1));
    let id = job.uniq_id();
    tree.add_data(id, "k", DataValue::Int(7));
    let context = tree.internal().spawn_context(id);
    assert!(context.starts_with("[Task] job\n"));
    let (result, _) = job.finish(&mut tree, Err::<(), _>(anyhow::Error::msg("boom")), at(2));
    assert_eq!(format!("{}", result.unwrap_err()), context);
    match &tree.internal().get_task(id).unwrap().status {
        TaskStatus::Finished(TaskResult::Failure(msg), _) => {
            assert!(msg.starts_with(&context));
            assert!(msg[context.len()..].contains("boom"));
        }
        _ => panic!("the task must have failed"),
    }

    let (other, _) = tree.pre_spawn("other", None, at(3));
    let other = other.uniq_id();
    let (result, _) = tree.post_spawn(other, Err::<(), _>(anyhow::Error::msg("bang")), at(4));
    assert!(result.is_err());
    match &tree.internal().get_task(other).unwrap().status {
        TaskStatus::Finished(TaskResult::Failure(msg), _) => {
            assert!(msg.starts_with("[Task] other\n"));
            assert!(msg.contains("bang"));
        }
        _ => panic!("the task must have failed"),
    }
}

struct Counting {
    log: Vec<String>,
}

impl Reporter for Counting {
    fn task_start(&mut self, task: &TaskInternal) {
        self.log.push(format!("start {}", task.name));
    }

    fn task_end(&mut self, task: &TaskInternal) {
        self.log.push(format!("end {}", task.name));
    }

    fn task_progress(&mut self, task: &TaskInternal) {
        self.log.push(format!("progress {}", task.name));
    }
}

struct Shared {
    log: std::sync::Arc<std::sync::Mutex<Vec<String>>>,
    name: &'static str,
}

impl Reporter for Shared {
    fn task_start(&mut self, task: &TaskInternal) {
        self.log.lock().unwrap().push(format!("{} start {}", self.name, task.name));
    }

    fn task_end(&mut self, task: &TaskInternal) {
        self.log.lock().unwrap().push(format!("{} end {}", self.name, task.name));
    }

    fn task_progress(&mut self, _task: &TaskInternal) {}
}

#[test]
fn every_reporter_gets_starts_then_ends() {
    let mut tree = TaskTree::new();
    let a = tree.create_task("a", at(1));
    let b = tree.create_task_internal("b #dontprint", Some(a), at(2));
    tree.mark_done(b, None, at(3));
    tree.mark_done(a, None, at(4));
    let (starts, ends) = tree.report_all();

    let mut counting = Counting { log: vec![] };
    deliver_to(&mut counting, &starts, &ends);
    assert_eq!(counting.log, vec!["start a", "start b", "end b", "end a"]);

    let mut text = StringReporter::new();
    deliver_to(&mut text, &starts, &ends);
    assert_eq!(text.text(), "[ ] | STARTING | a\n[ ] a\n");

    let mut reporters: Vec<Box<dyn Reporter>> =
        vec![Box::new(StringReporter::new()), Box::new(Counting { log: vec![] })];
    deliver(&mut reporters, &starts, &ends);
    assert_eq!(reporters.len(), 2);

    let shared = std::sync::Arc::new(std::sync::Mutex::new(Vec::<String>::new()));
    let mut registry = Reporters::new();
    registry.add_reporter(Box::new(Shared { log: shared.clone(), name: "first" }));
    registry.add_reporter(Box::new(Shared { log: shared.clone(), name: "second" }));
    registry.report(&starts, &ends);
    assert_eq!(
        *shared.lock().unwrap(),
        vec![
            "first start a",
            "first start b",
            "first end b",
            "first end a",
            "second start a",
            "second start b",
            "second end b",
            "second end a",
        ]
    );
}
