//! The live status of the terminal: the forest of tasks drawn as a tree of
//! rows, one for each task that is shown.

use crate::chars::{
    decimal, push_decimal, push_repeated, push_signed_decimal, push_text, signed_decimal,
};
use crate::reporters::colors::{
    is_rendering, plain_text, render, render_plain, Segment, segment_views, SegmentView, Style,
};
use crate::reporters::layout::{depth_of, is_listing, lemma_layout_lists_shown};
use crate::ordered::listing;
use crate::reporters::level::Level;
use crate::reporters::utils::{level_of_task, parse_level};
use crate::task_internal::{
    TaskInternal, TaskResult, TaskResultView, TaskStatus, TaskStatusView, TaskView,
};
use crate::task_tree::TaskTreeInternal;
use crate::time::Timestamp;
use crate::tree_view::{kids, TreeView};
use crate::types::texts;
use crate::uniq_id::UniqID;
use vstd::prelude::*;

verus! {

/// The tag that keeps a task out of the status.
pub const NOSTATUS_TAG: &'static str = "nostatus";

/// The cells of a progress bar.
pub const PROGRESS_BAR_LEN: u64 = 30;

/// How long, in milliseconds, the painter leaves the standard streams to
/// other writers before it draws a frame.
pub const PAINTER_GIVES_WAY_MS: u64 = 1;

/// How long, in milliseconds, a frame stands before the painter erases it.
pub const FRAME_STANDS_MS: u64 = 50;

/// Whether the status shows a task: the task does not carry the tag
/// `nostatus`, and its level does not come after `max_log_level`.
pub open spec fn is_shown(t: TaskView, max_log_level: Level) -> bool {
    !t.tags.contains(NOSTATUS_TAG@) && level_of_task(t.tags).rank() <= max_log_level.rank()
}

/// Whether the status shows the task `id` of a tree.
pub open spec fn shows(v: TreeView, id: u64, max_log_level: Level) -> bool {
    v.tasks.contains_key(id) && is_shown(v.tasks[id], max_log_level)
}

/// The place of a row: its task and its indentation, which says for each
/// shown ancestor of the task, from the top down, whether a shown task
/// follows below that ancestor's branch.
pub struct RowPlace {
    pub id: u64,
    pub depth: Seq<bool>,
}

/// The last of `ids` that the status shows.
pub open spec fn last_shown(v: TreeView, ids: Seq<u64>, max_log_level: Level) -> Option<u64>
    decreases ids.len(),
{
    if ids.len() == 0 {
        None
    } else if shows(v, ids.last(), max_log_level) {
        Some(ids.last())
    } else {
        last_shown(v, ids.drop_last(), max_log_level)
    }
}

/// The indentation of a child: that of its parent, and below a shown parent
/// one mark more, which says whether the child is followed by a shown
/// sibling. A parent that is not shown adds nothing, so that its children
/// stand where it would have stood.
pub open spec fn child_depth(
    depth: Seq<bool>,
    parent_shown: bool,
    child: u64,
    last: Option<u64>,
) -> Seq<bool> {
    if parent_shown {
        depth.push(Some(child) != last)
    } else {
        depth
    }
}

/// The rows of the subtree of `id`, the task first, where it is shown, and
/// then the subtrees of its children in the order of their identifiers.
pub open spec fn rows_of(v: TreeView, id: u64, depth: Seq<bool>, max_log_level: Level) -> Seq<RowPlace>
    decreases u64::MAX - id, 1int, 0int,
{
    let own = if shows(v, id, max_log_level) {
        seq![RowPlace { id, depth }]
    } else {
        Seq::<RowPlace>::empty()
    };
    own + rows_of_children(v, kids(v, id), id, depth, max_log_level, kids(v, id).len() as int)
}

/// The rows of the subtrees of the first `n` children of the task `parent`.
pub open spec fn rows_of_children(
    v: TreeView,
    children: Seq<u64>,
    parent: u64,
    depth: Seq<bool>,
    max_log_level: Level,
    n: int,
) -> Seq<RowPlace>
    decreases u64::MAX - parent, 0int, n,
{
    if n <= 0 || n > children.len() {
        Seq::<RowPlace>::empty()
    } else {
        let c = children[n - 1];
        rows_of_children(v, children, parent, depth, max_log_level, n - 1) + (if c > parent {
            rows_of(
                v,
                c,
                child_depth(
                    depth,
                    shows(v, parent, max_log_level),
                    c,
                    last_shown(v, children, max_log_level),
                ),
                max_log_level,
            )
        } else {
            Seq::<RowPlace>::empty()
        })
    }
}

/// The rows of the subtrees of the last `n` of the roots, the latest root
/// first.
pub open spec fn rows_of_roots(v: TreeView, max_log_level: Level, n: int) -> Seq<RowPlace>
    decreases n,
{
    if n <= 0 || n > v.roots.len() {
        Seq::<RowPlace>::empty()
    } else {
        rows_of_roots(v, max_log_level, n - 1) + rows_of(
            v,
            v.roots[v.roots.len() - n],
            Seq::<bool>::empty(),
            max_log_level,
        )
    }
}

/// The rows of the status of a tree: the subtrees of the roots, the latest
/// root first.
pub open spec fn layout(v: TreeView, max_log_level: Level) -> Seq<RowPlace> {
    rows_of_roots(v, max_log_level, v.roots.len() as int)
}

/// A task that is not shown takes no row, and its children stand at its own
/// indentation, where it would have stood.
pub proof fn lemma_hidden_task_collapses(v: TreeView, id: u64, depth: Seq<bool>, max_log_level: Level, c: u64)
    requires
        !shows(v, id, max_log_level),
    ensures
        rows_of(v, id, depth, max_log_level) == rows_of_children(
            v,
            kids(v, id),
            id,
            depth,
            max_log_level,
            kids(v, id).len() as int,
        ),
        child_depth(
            depth,
            shows(v, id, max_log_level),
            c,
            last_shown(v, kids(v, id), max_log_level),
        ) == depth,
{
    assert(Seq::<RowPlace>::empty() + rows_of_children(
        v,
        kids(v, id),
        id,
        depth,
        max_log_level,
        kids(v, id).len() as int,
    ) =~= rows_of_children(v, kids(v, id), id, depth, max_log_level, kids(v, id).len() as int));
}

/// The indentation of a row, as text: for each mark but the last a
/// vertical line where it is set and blanks where it is not, and for the
/// last a branch where it is set and a corner where it is not.
pub open spec fn indent_text(depth: Seq<bool>) -> Seq<char> {
    if depth.len() == 0 {
        Seq::<char>::empty()
    } else {
        bars(depth.drop_last()) + (if depth.last() {
            "├ "@
        } else {
            "╰ "@
        })
    }
}

/// The vertical lines of an indentation.
pub open spec fn bars(depth: Seq<bool>) -> Seq<char>
    decreases depth.len(),
{
    if depth.len() == 0 {
        Seq::<char>::empty()
    } else {
        bars(depth.drop_last()) + (if depth.last() {
            "│ "@
        } else {
            "  "@
        })
    }
}

/// The mark of the status of a task.
pub open spec fn glyph(status: TaskStatusView) -> SegmentView {
    match status {
        TaskStatusView::Running => SegmentView { text: " ▶ "@, style: Style::BlackOnYellow },
        TaskStatusView::Finished(TaskResultView::Success, _) => SegmentView {
            text: " ✓ "@,
            style: Style::BlackOnGreen,
        },
        TaskStatusView::Finished(TaskResultView::Failure(_), _) => SegmentView {
            text: " x "@,
            style: Style::WhiteOnRed,
        },
    }
}

/// The milliseconds that a task has taken at `now`: up to its end where it
/// has finished, up to `now` where it runs, and none where the clock went
/// back.
pub open spec fn elapsed_millis(t: TaskView, now: Timestamp) -> u64 {
    let d = match t.status {
        TaskStatusView::Finished(_, at) => at.since(t.started_at),
        TaskStatusView::Running => now.since(t.started_at),
    };
    match d {
        Some(ms) => ms,
        None => 0,
    }
}

/// How long a task has taken, as text: seconds and tenths of a second.
pub open spec fn elapsed_text(ms: u64) -> Seq<char> {
    " ["@ + decimal((ms / 1000) as nat) + "."@ + decimal(((ms % 1000) / 100) as nat) + "s] "@
}

/// A number without its sign.
pub open spec fn magnitude(x: i64) -> int {
    if x < 0 {
        -x
    } else {
        x as int
    }
}

/// The cells of the progress bar that are filled: as many of the thirty as
/// the whole percents of the work that is done make out. Two negative
/// numbers count as their magnitudes do. No cell is filled where the total
/// is zero or the two numbers differ in sign.
pub open spec fn filled_cells(done: i64, total: i64) -> nat {
    if (total > 0 && done >= 0) || (total < 0 && done <= 0) {
        let pct = (magnitude(done) * 100) / magnitude(total);
        let cells = (30 * pct) / 100;
        if cells > 30 {
            30
        } else {
            cells as nat
        }
    } else {
        0
    }
}

/// The progress of a task: a bar of thirty cells, the filled ones blank on
/// green and the others dots, and the numbers.
pub open spec fn progress_segments(progress: Option<(i64, i64)>) -> Seq<SegmentView> {
    match progress {
        Some((done, total)) => seq![
            SegmentView { text: " ["@, style: Style::Plain },
            SegmentView {
                text: Seq::new(filled_cells(done, total), |i: int| ' '),
                style: Style::OnBrightGreen,
            },
            SegmentView {
                text: Seq::new((30 - filled_cells(done, total)) as nat, |i: int| '.'),
                style: Style::OnBlack,
            },
            SegmentView {
                text: "] "@ + signed_decimal(done as int) + "/"@ + signed_decimal(total as int)
                    + " "@,
                style: Style::Plain,
            },
        ],
        None => Seq::<SegmentView>::empty(),
    }
}

/// The segments of the row of a task: the indentation, the mark of the
/// status, the time taken, the progress, and the name.
pub open spec fn row_segments(t: TaskView, depth: Seq<bool>, now: Timestamp) -> Seq<SegmentView> {
    seq![
        SegmentView { text: indent_text(depth), style: Style::Plain },
        glyph(t.status),
        SegmentView { text: elapsed_text(elapsed_millis(t, now)), style: Style::Dimmed },
    ] + progress_segments(t.progress) + seq![SegmentView { text: t.name, style: Style::Plain }]
}

/// The progress of a task.
pub fn make_progress(task: &TaskInternal) -> (segs: Vec<Segment>)
    ensures
        segment_views(segs@) == progress_segments(task@.progress),
{
    let mut segs: Vec<Segment> = Vec::new();
    match task.progress {
        Some((done, total)) => {
            let mut filled: usize = 0;
            if (total > 0 && done >= 0) || (total < 0 && done <= 0) {
                let done_size: i128 = if done < 0 {
                    -(done as i128)
                } else {
                    done as i128
                };
                let total_size: i128 = if total < 0 {
                    -(total as i128)
                } else {
                    total as i128
                };
                let pct: i128 = (done_size * 100) / total_size;
                let cells: i128 = (30 * pct) / 100;
                if cells > 30 {
                    filled = 30;
                } else {
                    assert(cells >= 0) by (nonlinear_arith)
                        requires
                            cells == (30 * pct) / 100,
                            pct == (done_size * 100) / (total_size as int),
                            done_size >= 0,
                            total_size > 0,
                    ;
                    filled = cells as usize;
                }
            }
            assert(filled == filled_cells(done, total));
            let mut done_blocks = String::new();
            push_repeated(&mut done_blocks, ' ', filled);
            let mut todo_blocks = String::new();
            push_repeated(&mut todo_blocks, '.', 30 - filled);
            let mut numbers = String::new();
            push_text(&mut numbers, "] ");
            push_signed_decimal(&mut numbers, done);
            push_text(&mut numbers, "/");
            push_signed_decimal(&mut numbers, total);
            push_text(&mut numbers, " ");
            assert(done_blocks@ =~= Seq::new(filled as nat, |i: int| ' '));
            assert(todo_blocks@ =~= Seq::new((30 - filled) as nat, |i: int| '.'));
            assert(numbers@ =~= "] "@ + signed_decimal(done as int) + "/"@ + signed_decimal(
                total as int,
            ) + " "@);
            segs.push(Segment { text: " [".to_owned(), style: Style::Plain });
            segs.push(Segment { text: done_blocks, style: Style::OnBrightGreen });
            segs.push(Segment { text: todo_blocks, style: Style::OnBlack });
            segs.push(Segment { text: numbers, style: Style::Plain });
            assert(segment_views(segs@) =~= progress_segments(task@.progress));
        },
        None => {
            assert(segment_views(segs@) =~= progress_segments(task@.progress));
        },
    }
    segs
}

/// The indentation of a row, as text.
pub fn make_indent(depth: &Vec<bool>) -> (s: String)
    ensures
        s@ == indent_text(depth@),
{
    let mut indent = String::new();
    if depth.len() == 0 {
        return indent;
    }
    let n = depth.len() - 1;
    let mut i: usize = 0;
    assert(depth@.drop_last().take(0) =~= Seq::<bool>::empty());
    while i < n
        invariant
            i <= n,
            n == depth.len() - 1,
            indent@ == bars(depth@.drop_last().take(i as int)),
        decreases n - i,
    {
        proof {
            let d = depth@.drop_last();
            assert(d.take(i + 1).drop_last() =~= d.take(i as int));
            assert(d.take(i + 1).last() == depth@[i as int]);
        }
        if depth[i] {
            push_text(&mut indent, "│ ");
        } else {
            push_text(&mut indent, "  ");
        }
        i += 1;
    }
    assert(depth@.drop_last().take(n as int) =~= depth@.drop_last());
    if depth[n] {
        push_text(&mut indent, "├ ");
    } else {
        push_text(&mut indent, "╰ ");
    }
    indent
}

/// The segments of the row of a task at `now`.
pub fn task_row(task_internal: &TaskInternal, depth: &Vec<bool>, now: Timestamp) -> (segs: Vec<
    Segment,
>)
    ensures
        segment_views(segs@) == row_segments(task_internal@, depth@, now),
{
    let mut segs: Vec<Segment> = Vec::new();
    segs.push(Segment { text: make_indent(depth), style: Style::Plain });
    let status = match &task_internal.status {
        TaskStatus::Running => Segment { text: " ▶ ".to_owned(), style: Style::BlackOnYellow },
        TaskStatus::Finished(TaskResult::Success, _) => Segment {
            text: " ✓ ".to_owned(),
            style: Style::BlackOnGreen,
        },
        TaskStatus::Finished(TaskResult::Failure(_), _) => Segment {
            text: " x ".to_owned(),
            style: Style::WhiteOnRed,
        },
    };
    segs.push(status);
    let duration = match &task_internal.status {
        TaskStatus::Finished(_, finished_at) => finished_at.duration_since(
            task_internal.started_at,
        ),
        TaskStatus::Running => now.duration_since(task_internal.started_at),
    };
    let ms: u64 = match duration {
        Some(ms) => ms,
        None => 0,
    };
    let mut ts = String::new();
    push_text(&mut ts, " [");
    push_decimal(&mut ts, ms / 1000);
    push_text(&mut ts, ".");
    push_decimal(&mut ts, (ms % 1000) / 100);
    push_text(&mut ts, "s] ");
    assert(ts@ =~= elapsed_text(elapsed_millis(task_internal@, now)));
    segs.push(Segment { text: ts, style: Style::Dimmed });
    let mut progress = make_progress(task_internal);
    let ghost v1 = segment_views(segs@);
    let ghost vp = segment_views(progress@);
    segs.append(&mut progress);
    assert(segment_views(segs@) =~= v1 + vp);
    segs.push(Segment { text: task_internal.name.clone(), style: Style::Plain });
    assert(segment_views(segs@) =~= row_segments(task_internal@, depth@, now));
    segs
}

/// The lines with line breaks in between.
pub open spec fn joined_lines(lines: Seq<Seq<char>>) -> Seq<char>
    decreases lines.len(),
{
    if lines.len() == 0 {
        Seq::<char>::empty()
    } else if lines.len() == 1 {
        lines[0]
    } else {
        joined_lines(lines.drop_last()) + "\n"@ + lines.last()
    }
}

/// A row of the status: its task and its indentation.
#[derive(Debug)]
pub struct Row {
    pub id: u64,
    pub depth: Vec<bool>,
}

impl View for Row {
    type V = RowPlace;

    open spec fn view(&self) -> RowPlace {
        RowPlace { id: self.id, depth: self.depth@ }
    }
}

/// The views of a list of rows.
pub open spec fn row_views(rows: Seq<Row>) -> Seq<RowPlace> {
    rows.map_values(|r: Row| r@)
}

/// The state of the status of a terminal.
pub struct TermStatusInternal {
    current_height: usize,
    pub max_log_level: Level,
    enabled: bool,
}

/// What the painter of the status does to the terminal.
#[derive(Debug)]
pub enum Paint {
    /// Nothing.
    Skip,
    /// Write the frame.
    Frame(String),
}

impl TermStatusInternal {
    /// The number of rows of the frame that stands on the terminal.
    pub closed spec fn height(&self) -> nat {
        self.current_height as nat
    }

    /// Whether the status is shown.
    pub closed spec fn shown(&self) -> bool {
        self.enabled
    }

    /// The highest level of the tasks that the status shows.
    pub closed spec fn level(&self) -> Level {
        self.max_log_level
    }

    /// A status that is hidden and has drawn nothing, for tasks up to level
    /// `L1`.
    pub fn new() -> (s: TermStatusInternal)
        ensures
            s.height() == 0,
            !s.shown(),
            s.level() == Level::L1,
    {
        Self { current_height: 0, max_log_level: Level::L1, enabled: false }
    }

    /// Whether the status shows a task.
    pub fn should_print(&self, task: &TaskInternal) -> (b: bool)
        requires
            task.tags.wf(),
        ensures
            b == is_shown(task@, self.level()),
    {
        let level = parse_level(task);
        !task.tags.contains(NOSTATUS_TAG) && level.at_most(self.max_log_level)
    }

    /// The last of the first `n` of `ids` that the status shows.
    fn last_visible(&self, tree: &TaskTreeInternal, ids: &Vec<u64>) -> (last: Option<u64>)
        requires
            tree.wf(),
        ensures
            last == last_shown(tree@, ids@, self.level()),
    {
        let mut i: usize = ids.len();
        assert(ids@.take(i as int) =~= ids@);
        while i > 0
            invariant
                i <= ids.len(),
                tree.wf(),
                last_shown(tree@, ids@, self.level()) == last_shown(
                    tree@,
                    ids@.take(i as int),
                    self.level(),
                ),
            decreases i,
        {
            proof {
                assert(ids@.take(i as int).drop_last() =~= ids@.take(i - 1));
                assert(ids@.take(i as int).last() == ids@[i - 1]);
            }
            match tree.get_task(UniqID(ids[i - 1])) {
                Some(task) => {
                    if self.should_print(task) {
                        return Some(ids[i - 1]);
                    }
                },
                None => {},
            }
            i -= 1;
        }
        None
    }

    /// Adds the rows of the subtree of `id` to `rows`.
    fn push_rows(&self, tree: &TaskTreeInternal, id: u64, depth: Vec<bool>, rows: &mut Vec<Row>)
        requires
            tree.wf(),
        ensures
            row_views(final(rows)@) == row_views(old(rows)@) + rows_of(
                tree@,
                id,
                depth@,
                self.level(),
            ),
        decreases u64::MAX - id, 1int,
    {
        let ghost v = tree@;
        let ghost start = row_views(rows@);
        let visible = match tree.get_task(UniqID(id)) {
            Some(task) => self.should_print(task),
            None => false,
        };
        if visible {
            rows.push(Row { id, depth: depth.clone() });
            assert(row_views(rows@) =~= start + seq![RowPlace { id, depth: depth@ }]);
        }
        let ghost own = row_views(rows@);
        match tree.parent_to_children().get(&id) {
            Some(set) => {
                let children = listing(set);
                assert(v.children.contains_key(id) && v.children[id] == children@);
                let last = self.last_visible(tree, &children);
                let mut k: usize = 0;
                while k < children.len()
                    invariant
                        k <= children.len(),
                        tree.wf(),
                        v == tree@,
                        kids(v, id) == children@,
                        last == last_shown(v, children@, self.level()),
                        visible == shows(v, id, self.level()),
                        row_views(rows@) == own + rows_of_children(
                            v,
                            children@,
                            id,
                            depth@,
                            self.level(),
                            k as int,
                        ),
                    decreases children.len() - k,
                {
                    let c = children[k];
                    let mut new_depth = depth.clone();
                    if visible {
                        new_depth.push(Some(c) != last);
                    }
                    assert(new_depth@ == child_depth(depth@, visible, c, last));
                    if c > id {
                        self.push_rows(tree, c, new_depth, rows);
                    }
                    k += 1;
                }
            },
            None => {
                assert(kids(v, id) =~= Seq::<u64>::empty());
            },
        }
    }

    /// The rows of the status of a tree: a row for every task that is shown,
    /// for no task two, in the order of [`layout`] and indented as
    /// [`depth_of`] says.
    pub fn make_layout(&self, tree: &TaskTreeInternal) -> (rows: Vec<Row>)
        requires
            tree.wf(),
        ensures
            row_views(rows@) == layout(tree@, self.level()),
            is_listing(
                tree@,
                self.level(),
                row_views(rows@),
                Set::new(|d: u64| tree@.tasks.contains_key(d)),
            ),
    {
        proof {
            tree.lemma_invariant();
            lemma_layout_lists_shown(tree@, self.level());
        }
        let mut rows: Vec<Row> = Vec::new();
        let roots = listing(tree.root_tasks());
        let mut n: usize = 0;
        assert(row_views(rows@) =~= Seq::<RowPlace>::empty());
        while n < roots.len()
            invariant
                n <= roots.len(),
                tree.wf(),
                roots@ == tree@.roots,
                row_views(rows@) == rows_of_roots(tree@, self.level(), n as int),
            decreases roots.len() - n,
        {
            n += 1;
            self.push_rows(tree, roots[roots.len() - n], Vec::new(), &mut rows);
        }
        rows
    }

    /// Whether `lines` shows a tree at `now`: one line for each row of the
    /// layout, in order, each a rendering of the segments of its row.
    pub open spec fn is_frame(&self, tree: &TaskTreeInternal, now: Timestamp, lines: Seq<String>) -> bool {
        let places = layout(tree@, self.level());
        &&& lines.len() == places.len()
        &&& forall|i: int|
            0 <= i < lines.len() ==> tree@.tasks.contains_key(places[i].id) && is_rendering(
                row_segments(tree@.tasks[places[i].id], places[i].depth, now),
                #[trigger] lines[i]@,
            )
    }

    /// The lines of the status of a tree at `now`.
    pub fn make_status_rows(&self, tree: &TaskTreeInternal, now: Timestamp) -> (lines: Vec<String>)
        requires
            tree.wf(),
        ensures
            self.is_frame(tree, now, lines@),
    {
        let rows = self.make_layout(tree);
        let ghost places = layout(tree@, self.level());
        proof {
            lemma_layout_tasks(tree@, self.level());
            tree.lemma_invariant();
        }
        let mut lines: Vec<String> = Vec::new();
        let mut i: usize = 0;
        while i < rows.len()
            invariant
                i <= rows.len(),
                tree.wf(),
                places == layout(tree@, self.level()),
                row_views(rows@) == places,
                all_shown(tree@, places, self.level()),
                lines.len() == i,
                forall|k: int|
                    0 <= k < i ==> is_rendering(
                        row_segments(tree@.tasks[places[k].id], places[k].depth, now),
                        #[trigger] lines[k]@,
                    ),
            decreases rows.len() - i,
        {
            assert(rows@[i as int]@ == places[i as int]);
            assert(shows(tree@, places[i as int].id, self.level()));
            let task = tree.get_task(UniqID(rows[i].id)).unwrap();
            let segs = task_row(task, &rows[i].depth, now);
            lines.push(render(&segs));
            i += 1;
        }
        lines
    }

    /// Whether `lines` shows a tree at `now` without any style: one line for
    /// each row of the layout, in order, each the text of the segments of
    /// its row.
    pub open spec fn is_plain_frame(
        &self,
        tree: &TaskTreeInternal,
        now: Timestamp,
        lines: Seq<String>,
    ) -> bool {
        let places = layout(tree@, self.level());
        &&& lines.len() == places.len()
        &&& forall|i: int|
            0 <= i < lines.len() ==> tree@.tasks.contains_key(places[i].id) && (#[trigger] lines[i])@
                == plain_text(row_segments(tree@.tasks[places[i].id], places[i].depth, now))
    }

    /// The lines of the status of a tree at `now`, without any style.
    pub fn make_plain_status_rows(&self, tree: &TaskTreeInternal, now: Timestamp) -> (lines: Vec<
        String,
    >)
        requires
            tree.wf(),
        ensures
            self.is_plain_frame(tree, now, lines@),
    {
        let rows = self.make_layout(tree);
        let ghost places = layout(tree@, self.level());
        proof {
            lemma_layout_tasks(tree@, self.level());
            tree.lemma_invariant();
        }
        let mut lines: Vec<String> = Vec::new();
        let mut i: usize = 0;
        while i < rows.len()
            invariant
                i <= rows.len(),
                tree.wf(),
                places == layout(tree@, self.level()),
                row_views(rows@) == places,
                all_shown(tree@, places, self.level()),
                lines.len() == i,
                forall|k: int|
                    0 <= k < i ==> (#[trigger] lines[k])@ == plain_text(
                        row_segments(tree@.tasks[places[k].id], places[k].depth, now),
                    ),
            decreases rows.len() - i,
        {
            assert(rows@[i as int]@ == places[i as int]);
            assert(shows(tree@, places[i as int].id, self.level()));
            let task = tree.get_task(UniqID(rows[i].id)).unwrap();
            let segs = task_row(task, &rows[i].depth, now);
            lines.push(render_plain(&segs));
            i += 1;
        }
        lines
    }

    /// Draws the status of a tree at `now`: the frame to write, which is a
    /// line break, the lines of the status with line breaks in between, and
    /// a line break, and which then stands on the terminal. Nothing is drawn
    /// while there is no row and none stands on the terminal.
    pub fn print(&mut self, tree: &TaskTreeInternal, now: Timestamp) -> (paint: Paint)
        requires
            tree.wf(),
        ensures
            final(self).shown() == old(self).shown(),
            final(self).level() == old(self).level(),
            ({
                let rows = layout(tree@, old(self).level()).len();
                if rows == 0 && old(self).height() == 0 {
                    paint is Skip && final(self).height() == 0
                } else {
                    final(self).height() == rows && match paint {
                        Paint::Frame(text) => exists|lines: Seq<String>| #[trigger]
                            old(self).is_frame(tree, now, lines) && text@ == "\n"@ + joined_lines(
                                texts(lines),
                            ) + "\n"@,
                        Paint::Skip => false,
                    }
                }
            }),
    {
        let rows = self.make_status_rows(tree, now);
        let height = rows.len();
        if height == 0 && self.current_height == 0 {
            return Paint::Skip;
        }
        self.current_height = height;
        let mut frame = String::new();
        push_text(&mut frame, "\n");
        let mut i: usize = 0;
        let ghost all = texts(rows@);
        assert(all.take(0) =~= Seq::<Seq<char>>::empty());
        assert(frame@ =~= "\n"@ + joined_lines(all.take(0)));
        while i < rows.len()
            invariant
                i <= rows.len(),
                all == texts(rows@),
                frame@ == "\n"@ + joined_lines(all.take(i as int)),
            decreases rows.len() - i,
        {
            proof {
                assert(all.take(i + 1).drop_last() =~= all.take(i as int));
                assert(all.take(i + 1).last() == rows@[i as int]@);
            }
            if i > 0 {
                push_text(&mut frame, "\n");
            }
            push_text(&mut frame, rows[i].as_str());
            i += 1;
            assert(frame@ =~= "\n"@ + joined_lines(all.take(i as int)));
        }
        assert(all.take(i as int) =~= all);
        push_text(&mut frame, "\n");
        assert(old(self).is_frame(tree, now, rows@));
        Paint::Frame(frame)
    }

    /// The number of lines to erase, from the cursor up, to take the frame
    /// off the terminal: one more than the frame has rows, and none where
    /// no frame stands.
    pub fn clear(&self) -> (lines: usize)
        ensures
            lines == if self.height() == 0 {
                0
            } else if self.height() < usize::MAX {
                self.height() + 1
            } else {
                usize::MAX as nat
            },
    {
        if self.current_height == 0 {
            0
        } else if self.current_height < usize::MAX {
            self.current_height + 1
        } else {
            usize::MAX
        }
    }
}

/// Whether every one of `rows` is the row of a task that the status shows.
pub open spec fn all_shown(v: TreeView, rows: Seq<RowPlace>, max_log_level: Level) -> bool {
    forall|k: int| 0 <= k < rows.len() ==> shows(v, (#[trigger] rows[k]).id, max_log_level)
}

proof fn lemma_all_shown_add(v: TreeView, a: Seq<RowPlace>, b: Seq<RowPlace>, max_log_level: Level)
    requires
        all_shown(v, a, max_log_level),
        all_shown(v, b, max_log_level),
    ensures
        all_shown(v, a + b, max_log_level),
{
    assert forall|k: int| 0 <= k < (a + b).len() implies shows(
        v,
        (#[trigger] (a + b)[k]).id,
        max_log_level,
    ) by {
        if k < a.len() {
            assert((a + b)[k] == a[k]);
        } else {
            assert((a + b)[k] == b[k - a.len()]);
        }
    }
}

/// Every row of the layout is the row of a task that the status shows.
pub proof fn lemma_layout_tasks(v: TreeView, max_log_level: Level)
    ensures
        all_shown(v, layout(v, max_log_level), max_log_level),
{
    lemma_roots_rows_shown(v, max_log_level, v.roots.len() as int);
}

proof fn lemma_roots_rows_shown(v: TreeView, max_log_level: Level, n: int)
    ensures
        all_shown(v, rows_of_roots(v, max_log_level, n), max_log_level),
    decreases n,
{
    if !(n <= 0 || n > v.roots.len()) {
        lemma_roots_rows_shown(v, max_log_level, n - 1);
        lemma_rows_shown(v, v.roots[v.roots.len() - n], Seq::<bool>::empty(), max_log_level);
        lemma_all_shown_add(
            v,
            rows_of_roots(v, max_log_level, n - 1),
            rows_of(v, v.roots[v.roots.len() - n], Seq::<bool>::empty(), max_log_level),
            max_log_level,
        );
    }
}

proof fn lemma_rows_shown(v: TreeView, id: u64, depth: Seq<bool>, max_log_level: Level)
    ensures
        all_shown(v, rows_of(v, id, depth, max_log_level), max_log_level),
    decreases u64::MAX - id, 1int, 0int,
{
    lemma_children_rows_shown(v, kids(v, id), id, depth, max_log_level, kids(v, id).len() as int);
    let own = if shows(v, id, max_log_level) {
        seq![RowPlace { id, depth }]
    } else {
        Seq::<RowPlace>::empty()
    };
    lemma_all_shown_add(
        v,
        own,
        rows_of_children(v, kids(v, id), id, depth, max_log_level, kids(v, id).len() as int),
        max_log_level,
    );
}

proof fn lemma_children_rows_shown(
    v: TreeView,
    children: Seq<u64>,
    parent: u64,
    depth: Seq<bool>,
    max_log_level: Level,
    n: int,
)
    ensures
        all_shown(
            v,
            rows_of_children(v, children, parent, depth, max_log_level, n),
            max_log_level,
        ),
    decreases u64::MAX - parent, 0int, n,
{
    if !(n <= 0 || n > children.len()) {
        lemma_children_rows_shown(v, children, parent, depth, max_log_level, n - 1);
        let c = children[n - 1];
        let d = child_depth(
            depth,
            shows(v, parent, max_log_level),
            c,
            last_shown(v, children, max_log_level),
        );
        let rest = if c > parent {
            rows_of(v, c, d, max_log_level)
        } else {
            Seq::<RowPlace>::empty()
        };
        if c > parent {
            lemma_rows_shown(v, c, d, max_log_level);
        }
        lemma_all_shown_add(
            v,
            rows_of_children(v, children, parent, depth, max_log_level, n - 1),
            rest,
            max_log_level,
        );
    }
}

/// The status of a terminal: hidden, or shown by a painter that draws it
/// again and again.
pub struct TermStatus {
    internal: TermStatusInternal,
}

impl TermStatus {
    /// Whether the status is shown.
    pub closed spec fn shown(&self) -> bool {
        self.internal.shown()
    }

    /// A hidden status that has drawn nothing, for tasks up to level `L1`.
    pub fn new() -> (s: TermStatus)
        ensures
            !s.shown(),
            s.frame().height() == 0,
            s.frame().level() == Level::L1,
    {
        Self { internal: TermStatusInternal::new() }
    }

    /// Shows the status. The result says whether a painter has to be
    /// started: it has where the status was hidden.
    pub fn show(&mut self) -> (start_painter: bool)
        ensures
            final(self).shown(),
            start_painter == !old(self).shown(),
            final(self).frame().height() == old(self).frame().height(),
            final(self).frame().level() == old(self).frame().level(),
    {
        if self.internal.enabled {
            false
        } else {
            self.internal.enabled = true;
            true
        }
    }

    /// Hides the status: the painter stops when it next looks.
    pub fn hide_status(&mut self)
        ensures
            !final(self).shown(),
            final(self).frame().height() == old(self).frame().height(),
            final(self).frame().level() == old(self).frame().level(),
    {
        self.internal.enabled = false;
    }

    /// Whether the painter goes on.
    pub fn is_shown(&self) -> (b: bool)
        ensures
            b == self.shown(),
    {
        self.internal.enabled
    }

    /// The state of the frame.
    pub closed spec fn frame(&self) -> TermStatusInternal {
        self.internal
    }

    /// Sets the highest level of the tasks that the status shows.
    pub fn set_max_log_level(&mut self, level: Level)
        ensures
            final(self).frame().level() == level,
            final(self).frame().height() == old(self).frame().height(),
            final(self).shown() == old(self).shown(),
    {
        self.internal.max_log_level = level;
    }

    /// The first half of a round of the painter: the frame to draw, see
    /// [`TermStatusInternal::print`], while the status is shown, and none
    /// once it is hidden, which tells the painter to stop.
    pub fn draw(&mut self, tree: &TaskTreeInternal, now: Timestamp) -> (paint: Option<Paint>)
        requires
            tree.wf(),
        ensures
            final(self).shown() == old(self).shown(),
            final(self).frame().level() == old(self).frame().level(),
            paint is Some <==> old(self).shown(),
            !old(self).shown() ==> final(self).frame().height() == old(self).frame().height(),
            old(self).shown() ==> ({
                let rows = layout(tree@, old(self).frame().level()).len();
                if rows == 0 && old(self).frame().height() == 0 {
                    paint == Some(Paint::Skip) && final(self).frame().height() == 0
                } else {
                    final(self).frame().height() == rows && match paint {
                        Some(Paint::Frame(text)) => exists|lines: Seq<String>| #[trigger]
                            old(self).frame().is_frame(tree, now, lines) && text@ == "\n"@
                                + joined_lines(texts(lines)) + "\n"@,
                        _ => false,
                    }
                }
            }),
    {
        if self.internal.enabled {
            Some(self.internal.print(tree, now))
        } else {
            None
        }
    }

    /// The second half of a round of the painter: the number of lines to
    /// erase, see [`TermStatusInternal::clear`], while the status is shown,
    /// and none once it is hidden, which tells the painter to stop.
    pub fn erase(&self) -> (lines: Option<usize>)
        ensures
            lines is Some <==> self.shown(),
            lines matches Some(n) ==> n == if self.frame().height() == 0 {
                0
            } else if self.frame().height() < usize::MAX {
                self.frame().height() + 1
            } else {
                usize::MAX as nat
            },
    {
        if self.internal.enabled {
            Some(self.internal.clear())
        } else {
            None
        }
    }
}

/// What is done to the terminal when text is written to the standard output
/// while the status may stand on it.
#[derive(Debug, Clone, Copy, PartialEq, Eq, Structural)]
pub struct WritePlan {
    /// Take the frame off the terminal before the text is written.
    pub clear_before: bool,
    /// Draw the frame again after the text is written.
    pub draw_after: bool,
}

/// A standard output that gives way to the status: what is written through
/// it never tears the frame.
#[derive(Debug, Clone, Copy)]
pub struct BufferedStdout {}

/// The standard output that gives way to the status.
pub fn stdout() -> BufferedStdout {
    BufferedStdout {  }
}

impl BufferedStdout {
    /// What to do around a write: take the frame off before and draw it
    /// again after, where the status is shown, and neither where it is
    /// hidden.
    pub fn write_plan(&self, status: &TermStatus) -> (plan: WritePlan)
        ensures
            plan.clear_before == status.shown(),
            plan.draw_after == status.shown(),
    {
        let shown = status.is_shown();
        WritePlan { clear_before: shown, draw_after: shown }
    }
}

} // verus!
