use ll::reporters::colors::Segment;
use ll::reporters::level::Level;
use ll::reporters::term_status::{
    make_indent, make_progress, stdout, task_row, Paint, TermStatus, TermStatusInternal, NOSTATUS_TAG,
    PROGRESS_BAR_LEN,
};
use ll::task_internal::TaskInternal;
use ll::task_tree::TaskTree;
use ll::time::Timestamp;
use ll::uniq_id::UniqID;

fn at(unix_millis: u64) -> Timestamp {
    Timestamp { unix_millis }
}

fn task(tree: &TaskTree, id: u64) -> TaskInternal {
    tree.internal().get_task(UniqID(id)).unwrap().clone_task()
}

fn plain(segments: &[Segment]) -> String {
    segments.iter().map(|s| s.text.clone()).collect()
}

fn layout(status: &TermStatusInternal, tree: &TaskTree) -> Vec<String> {
    status
        .make_layout(tree.internal())
        .iter()
        .map(|row| {
            let marks: String = row.depth.iter().map(|b| if *b { '1' } else { '0' }).collect();
            format!("{}:{}", row.id, marks)
        })
        .collect()
}

#[test]
fn constants() {
    assert_eq!(NOSTATUS_TAG, "nostatus");
    assert_eq!(PROGRESS_BAR_LEN, 30);
}

#[test]
fn indentation_glyphs() {
    assert_eq!(make_indent(&vec![]), "");
    assert_eq!(make_indent(&vec![true]), "\u{251c} ");
    assert_eq!(make_indent(&vec![false]), "\u{2570} ");
    assert_eq!(make_indent(&vec![true, false, true]), "\u{2502}   \u{251c} ");
    assert_eq!(make_indent(&vec![false, true, false]), "  \u{2502} \u{2570} ");
}

#[test]
fn progress_bar() {
    let mut tree = TaskTree::new();
    let id = tree.create_task("t", at(0));
    assert!(make_progress(&task(&tree, 0)).is_empty());
    tree.task_progress(id, 25, 100);
    let segments = make_progress(&task(&tree, 0));
    assert_eq!(plain(&segments), " [       .......................] 25/100 ");
    assert_eq!(segments[1].text.len(), 7);
    assert_eq!(segments[2].text.len(), 23);
    tree.task_progress(id, 1, 3);
    assert_eq!(plain(&make_progress(&task(&tree, 0))), format!(" [{}{}] 1/3 ", " ".repeat(9), ".".repeat(21)));
    tree.task_progress(id, 100, 100);
    assert_eq!(plain(&make_progress(&task(&tree, 0))), format!(" [{}] 100/100 ", " ".repeat(30)));
    tree.task_progress(id, 500, 100);
    assert_eq!(plain(&make_progress(&task(&tree, 0))), format!(" [{}] 500/100 ", " ".repeat(30)));
    tree.task_progress(id, 5, 0);
    assert_eq!(plain(&make_progress(&task(&tree, 0))), format!(" [{}] 5/0 ", ".".repeat(30)));
    tree.task_progress(id, -5, 10);
    assert_eq!(plain(&make_progress(&task(&tree, 0))), format!(" [{}] -5/10 ", ".".repeat(30)));
    tree.task_progress(id, 25, -100);
    assert_eq!(plain(&make_progress(&task(&tree, 0))), format!(" [{}] 25/-100 ", ".".repeat(30)));
    tree.task_progress(id, -25, -100);
    assert_eq!(
        plain(&make_progress(&task(&tree, 0))),
        format!(" [{}{}] -25/-100 ", " ".repeat(7), ".".repeat(23))
    );
    tree.task_progress(id, i64::MIN, i64::MIN);
    assert_eq!(
        plain(&make_progress(&task(&tree, 0))),
        format!(" [{}] {}/{} ", " ".repeat(30), i64::MIN, i64::MIN)
    );
    tree.task_progress(id, 0, -4);
    assert_eq!(plain(&make_progress(&task(&tree, 0))), format!(" [{}] 0/-4 ", ".".repeat(30)));
    tree.task_progress(id, i64::MAX, i64::MAX);
    assert_eq!(
        plain(&make_progress(&task(&tree, 0))),
        format!(" [{}] {}/{} ", " ".repeat(30), i64::MAX, i64::MAX)
    );
}

#[test]
fn rows_show_status_time_and_name() {
    let mut tree = TaskTree::new();
    let a = tree.create_task("a #l0", at(1_000));
    let b = tree.create_task("b", at(1_000));
    let c = tree.create_task("c", at(1_000));
    tree.mark_done(b, None, at(3_250));
    tree.mark_done(c, Some("x".to_string()), at(500));
    tree.task_progress(a, 1, 2);
    assert_eq!(
        plain(&task_row(&task(&tree, 0), &vec![true, false], at(62_999))),
        format!("\u{2502} \u{2570}  \u{25b6}  [61.9s]  [{}{}] 1/2 a", " ".repeat(15), ".".repeat(15))
    );
    assert_eq!(plain(&task_row(&task(&tree, 0), &vec![], at(10))), format!(" \u{25b6}  [0.0s]  [{}{}] 1/2 a", " ".repeat(15), ".".repeat(15)));
    assert_eq!(plain(&task_row(&task(&tree, 1), &vec![], at(99_999))), " \u{2713}  [2.2s] b");
    assert_eq!(plain(&task_row(&task(&tree, 2), &vec![false], at(99_999))), "\u{2570}  x  [0.0s] c");
}

#[test]
fn the_layout_is_depth_first_with_the_latest_root_first() {
    let mut tree = TaskTree::new();
    let r0 = tree.create_task("r0", at(1));
    let a = tree.create_task_internal("a", Some(r0), at(1));
    let _r1 = tree.create_task("r1", at(1));
    let _b = tree.create_task_internal("b", Some(r0), at(1));
    let _a1 = tree.create_task_internal("a1", Some(a), at(1));
    let _a2 = tree.create_task_internal("a2", Some(a), at(1));
    let status = TermStatusInternal::new();
    assert_eq!(
        layout(&status, &tree),
        vec!["2:", "0:", "1:1", "4:11", "5:10", "3:0"]
    );
    assert_eq!(status.make_layout(tree.internal()).len(), 6);
}

#[test]
fn children_of_a_hidden_task_move_up() {
    let mut tree = TaskTree::new();
    let root = tree.create_task("root #nostatus", at(1));
    let _c1 = tree.create_task_internal("c1", Some(root), at(1));
    let c2 = tree.create_task_internal("c2", Some(root), at(1));
    let h = tree.create_task_internal("h #nostatus", Some(c2), at(1));
    let _g1 = tree.create_task_internal("g1", Some(h), at(1));
    let _g2 = tree.create_task_internal("g2 #l3", Some(h), at(1));
    let _g3 = tree.create_task_internal("g3", Some(c2), at(1));
    let status = TermStatusInternal::new();
    assert_eq!(layout(&status, &tree), vec!["1:", "2:", "4:1", "6:0"]);

    let mut all = TermStatusInternal::new();
    all.max_log_level = Level::L3;
    assert_eq!(layout(&all, &tree), vec!["1:", "2:", "4:1", "5:1", "6:0"]);
    assert!(all.should_print(&task(&tree, 5)));
    assert!(!status.should_print(&task(&tree, 5)));
    assert!(!all.should_print(&task(&tree, 0)));

    colored::control::set_override(true);
    let styled = status.make_status_rows(tree.internal(), at(1));
    assert_eq!(
        styled[2],
        "\u{251c} \x1b[43;30m \u{25b6} \x1b[0m\x1b[2m [0.0s] \x1b[0mg1"
    );
    assert_eq!(
        status.make_plain_status_rows(tree.internal(), at(1)),
        styled.iter().map(|line| ll::reporters::text::strip_ansi(line)).collect::<Vec<String>>()
    );
    colored::control::set_override(false);
    let lines = status.make_status_rows(tree.internal(), at(1));
    assert_eq!(
        lines,
        vec![
            " \u{25b6}  [0.0s] c1",
            " \u{25b6}  [0.0s] c2",
            "\u{251c}  \u{25b6}  [0.0s] g1",
            "\u{2570}  \u{25b6}  [0.0s] g3",
        ]
    );
}

#[test]
fn a_frame_is_drawn_and_cleared() {
    let mut tree = TaskTree::new();
    let mut status = TermStatusInternal::new();
    assert_eq!(status.clear(), 0);
    assert!(matches!(status.print(tree.internal(), at(1)), Paint::Skip));
    assert_eq!(status.clear(), 0);

    let a = tree.create_task("a", at(1_000));
    let b = tree.create_task_internal("b", Some(a), at(1_000));
    match status.print(tree.internal(), at(2_500)) {
        Paint::Frame(text) => assert_eq!(text, "\n \u{25b6}  [1.5s] a\n\u{2570}  \u{25b6}  [1.5s] b\n"),
        Paint::Skip => panic!("there is a frame to draw"),
    }
    assert_eq!(status.clear(), 3);

    tree.mark_done(b, None, at(3_000));
    tree.mark_done(a, None, at(3_000));
    tree.report_all();
    tree.garbage_collect(at(4_000));
    match status.print(tree.internal(), at(4_000)) {
        Paint::Frame(text) => assert_eq!(text, "\n\n"),
        Paint::Skip => panic!("the frame that stands must be replaced"),
    }
    assert_eq!(status.clear(), 0);
    assert!(matches!(status.print(tree.internal(), at(4_000)), Paint::Skip));
}

#[test]
fn the_status_is_shown_and_hidden() {
    let mut status = TermStatus::new();
    assert!(!status.is_shown());
    let plan = stdout().write_plan(&status);
    assert!(!plan.clear_before && !plan.draw_after);
    assert!(status.show());
    assert!(status.is_shown());
    assert!(!status.show());
    let plan = stdout().write_plan(&status);
    assert!(plan.clear_before && plan.draw_after);
    status.hide_status();
    assert!(!status.is_shown());
    assert!(status.show());
}

#[test]
fn the_painter_stops_when_the_status_is_hidden() {
    let mut tree = TaskTree::new();
    tree.create_task("a", at(0));
    tree.create_task("deep #l2", at(0));
    let mut status = TermStatus::new();
    assert!(status.draw(tree.internal(), at(100)).is_none());
    assert_eq!(status.erase(), None);
    status.show();
    match status.draw(tree.internal(), at(100)) {
        Some(Paint::Frame(text)) => assert_eq!(text, "\n \u{25b6}  [0.1s] a\n"),
        _ => panic!("there is a frame to draw"),
    }
    assert_eq!(status.erase(), Some(2));
    status.set_max_log_level(Level::L2);
    match status.draw(tree.internal(), at(100)) {
        Some(Paint::Frame(text)) => {
            assert_eq!(text, "\n \u{25b6}  [0.1s] deep\n \u{25b6}  [0.1s] a\n")
        }
        _ => panic!("there is a frame to draw"),
    }
    assert_eq!(status.erase(), Some(3));
    status.hide_status();
    assert!(status.draw(tree.internal(), at(100)).is_none());
    assert_eq!(status.erase(), None);
}
