use ll::data::DataValue;
use ll::reporters::text::StringReporter;
use ll::reporters::deliver_to;
use ll::task::Task;
use ll::task_tree::TaskTree;
use ll::time::Timestamp;

fn at(unix_millis: u64) -> Timestamp {
    Timestamp { unix_millis }
}

fn setup() -> (TaskTree, StringReporter) {
    (TaskTree::new(), StringReporter::new())
}

fn flush(tree: &mut TaskTree, reporter: &mut StringReporter) {
    let (start_tasks, end_tasks) = tree.report_all();
    deliver_to(reporter, &start_tasks, &end_tasks);
}

fn spawn_sync<T, F>(tree: &mut TaskTree, parent: &Task, name: &str, f: F) -> anyhow::Result<T>
where
    F: FnOnce(&mut TaskTree, &Task) -> anyhow::Result<T>,
{
    let (task, spawned, _) = parent.pre_spawn(tree, name, at(1_000));
    let result = f(tree, &task);
    let (result, _) = spawned.finish(tree, result, at(1_005));
    result
}

#[test]
fn basic_test_basic_events_test() {
    let (mut tt, mut s) = setup();

    let root = Task::create_new(&mut tt, "root", at(1_000));

    spawn_sync(&mut tt, &root, "test", |_, _| {
        let _r = 1 + 1;
        Ok(())
    })
    .unwrap();

    spawn_sync(&mut tt, &root, "test_with_data", |tree, t| -> anyhow::Result<()> {
        t.data(tree, "hello", DataValue::String("hi".to_string()));
        t.data(tree, "int", DataValue::Int(5));
        t.data(tree, "float", DataValue::Float(format!("{}", 5.98)));
        Err(anyhow::Error::msg("here is error msg"))
    })
    .ok();

    spawn_sync(&mut tt, &root, "test_3", |_, _| Ok(())).unwrap();

    flush(&mut tt, &mut s);
    assert_eq!(
        s.text(),
        "[ ] | STARTING | root
[ ] | STARTING | root:test
[ ] | STARTING | [ERR] root:test_with_data
[ ] | STARTING | root:test_3
[ ] root:test
[ ] [ERR] root:test_with_data
  |      float: 5.98
  |      hello: hi
  |      int: 5
  |
  |  [Task] test_with_data
  |    float: 5.98
  |    hello: hi
  |    int: 5
  |  
  |  
  |  Caused by:
  |      here is error msg
[ ] root:test_3
"
    );
}

#[test]
fn basic_test_error_chain_test() {
    let (mut tt, mut s) = setup();

    let root = Task::create_new(&mut tt, "root", at(1_000));
    let result = spawn_sync(&mut tt, &root, "top_level", |tree, t| {
        t.data(tree, "top_level_data", DataValue::Int(5));

        spawn_sync(tree, t, "1_level", |tree, t| {
            t.data(tree, "1_level_data", DataValue::Int(9));
            spawn_sync(tree, t, "2_level", |_, _| -> anyhow::Result<()> {
                Err(anyhow::Error::msg("oh noes, this fails"))
            })
        })?;
        Ok(())
    });

    flush(&mut tt, &mut s);
    assert_eq!(
        format!("{:?}", result.unwrap_err()),
        "[Task] top_level
  top_level_data: 5


Caused by:
    0: [Task] 1_level
         1_level_data: 9
       
    1: [Task] 2_level
       
    2: oh noes, this fails"
    );

    assert_eq!(
        s.text(),
        "[ ] | STARTING | root
[ ] | STARTING | [ERR] root:top_level
[ ] | STARTING | [ERR] root:top_level:1_level
[ ] | STARTING | [ERR] root:top_level:1_level:2_level
[ ] [ERR] root:top_level:1_level:2_level
  |
  |  [Task] 2_level
  |  
  |  
  |  Caused by:
  |      oh noes, this fails
[ ] [ERR] root:top_level:1_level
  |      1_level_data: 9
  |
  |  [Task] 1_level
  |    1_level_data: 9
  |  
  |  
  |  Caused by:
  |      0: [Task] 2_level
  |         
  |      1: oh noes, this fails
[ ] [ERR] root:top_level
  |      top_level_data: 5
  |
  |  [Task] top_level
  |    top_level_data: 5
  |  
  |  
  |  Caused by:
  |      0: [Task] 1_level
  |           1_level_data: 9
  |         
  |      1: [Task] 2_level
  |         
  |      2: oh noes, this fails
"
    );
}

#[test]
fn basic_test_logger_data_test() {
    let (mut tt, mut s) = setup();

    let root = Task::create_new(&mut tt, "root", at(1_000));

    let t1 = root.create(&mut tt, "t1", at(1_000));
    t1.data_transitive(&mut tt, "process_id", DataValue::Int(123));

    spawn_sync(&mut tt, &t1, "has_process_id", |_, _| Ok(())).unwrap();

    let t2 = t1.create(&mut tt, "t2", at(1_000));
    t2.data_transitive(&mut tt, "request_id", DataValue::Int(234));
    spawn_sync(&mut tt, &t2, "has_process_and_request_id", |_, _| Ok(())).unwrap();

    let t3 = t2.create(&mut tt, "t3", at(1_000));
    t3.data_transitive(&mut tt, "request_id #dontprint", DataValue::Int(592));
    spawn_sync(&mut tt, &t3, "wont_print_request_id", |_, _| Ok(())).unwrap();

    let t4 = t3.create(&mut tt, "t4", at(1_000));
    spawn_sync(&mut tt, &t4, "wont_print_request_id", |_, _| Ok(())).unwrap();

    flush(&mut tt, &mut s);
    assert_eq!(
        s.text(),
        "[ ] | STARTING | root
[ ] | STARTING | root:t1
[ ] | STARTING | root:t1:has_process_id
[ ] | STARTING | root:t1:t2
[ ] | STARTING | root:t1:t2:has_process_and_request_id
[ ] | STARTING | root:t1:t2:t3
[ ] | STARTING | root:t1:t2:t3:wont_print_request_id
[ ] | STARTING | root:t1:t2:t3:t4
[ ] | STARTING | root:t1:t2:t3:t4:wont_print_request_id
[ ] root:t1:has_process_id
  |      process_id: 123
[ ] root:t1:t2:has_process_and_request_id
  |      process_id: 123
  |      request_id: 234
[ ] root:t1:t2:t3:wont_print_request_id
  |      process_id: 123
[ ] root:t1:t2:t3:t4:wont_print_request_id
  |      process_id: 123
"
    );
}

#[test]
fn basic_test_async_test() {
    let (mut tt, mut s) = setup();
    let root = Task::create_new(&mut tt, "root", at(1_000));

    spawn_sync(&mut tt, &root, "async_event", |tree, e| {
        e.data(tree, "async_data", DataValue::Int(5));
        Ok(())
    })
    .unwrap();

    flush(&mut tt, &mut s);
    assert_eq!(
        s.text(),
        "[ ] | STARTING | root
[ ] | STARTING | root:async_event
[ ] root:async_event
  |      async_data: 5
"
    );
}
