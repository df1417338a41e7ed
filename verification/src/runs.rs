//! Runs of a tree: what holds after every sequence of operations.

use crate::marking::{done, lemma_done_invariant};
use crate::reporters::EventKind;
use crate::sweep::{lemma_swept_invariant, swept};
use crate::task_internal::{is_finished, TaskView};
use crate::time::Timestamp;
use crate::tree_view::{
    created, empty_tree, flushed, lemma_created_invariant, lemma_flushed_invariant,
    lemma_settings_invariant, lemma_with_task_invariant, snapshots, tree_invariant, TreeView, with_task,
};
use vstd::prelude::*;

verus! {

/// An operation on a tree.
pub enum Step {
    /// A task is created.
    Create { name: Seq<char>, parent: Option<u64>, now: Timestamp },
    /// Something is attached to a task, or a setting of the task is changed:
    /// the record of the task becomes `record`.
    Update { id: u64, record: TaskView },
    /// A setting of the tree is changed: the tree becomes `tree`.
    Configure { tree: TreeView },
    /// A task is ended.
    Done { id: u64, error_message: Option<Seq<char>>, now: Timestamp },
    /// The queued events are handed to the reporters.
    Flush,
    /// The tree is swept.
    Sweep { now: Timestamp },
}

/// An event as it reaches the reporters: what it tells, and of which task.
pub struct Report {
    pub kind: EventKind,
    pub id: u64,
}

/// A tree and the events that have been handed to the reporters so far, in
/// order.
pub struct Run {
    pub tree: TreeView,
    pub delivered: Seq<Report>,
}

/// Whether an operation can be done to a tree: a task is created while
/// identifiers are left, a record is replaced by one of the same task and
/// in the same status, and a change of settings changes nothing else.
pub open spec fn legal(v: TreeView, s: Step) -> bool {
    match s {
        Step::Create { .. } => v.next_id < u64::MAX,
        Step::Update { id, record } => v.tasks.contains_key(id) ==> record.id == id
            && record.status == v.tasks[id].status,
        Step::Configure { tree } => tree == (TreeView {
            data_transitive: tree.data_transitive,
            remove_task_after_done_ms: tree.remove_task_after_done_ms,
            hide_errors_default_msg: tree.hide_errors_default_msg,
            attach_transitive_data_to_errors_default: tree.attach_transitive_data_to_errors_default,
            ..v
        }),
        _ => true,
    }
}

/// The events of one kind that tell of the tasks `ids`, in order.
pub open spec fn reports(kind: EventKind, ids: Seq<u64>) -> Seq<Report> {
    ids.map_values(|id: u64| Report { kind, id })
}

/// Those of `ids` that the tree still holds, in the order of `ids`.
pub open spec fn present(v: TreeView, ids: Seq<u64>) -> Seq<u64>
    decreases ids.len(),
{
    if ids.len() == 0 {
        Seq::<u64>::empty()
    } else if v.tasks.contains_key(ids.last()) {
        present(v, ids.drop_last()).push(ids.last())
    } else {
        present(v, ids.drop_last())
    }
}

/// The run after an operation. Handing over the queues delivers the events
/// of the tasks that the tree still holds, and drops the others.
pub open spec fn after(r: Run, s: Step) -> Run {
    match s {
        Step::Create { name, parent, now } => Run { tree: created(r.tree, name, parent, now), ..r },
        Step::Update { id, record } => Run {
            tree: if r.tree.tasks.contains_key(id) {
                with_task(r.tree, id, record)
            } else {
                r.tree
            },
            ..r
        },
        Step::Configure { tree } => Run { tree, ..r },
        Step::Done { id, error_message, now } => Run {
            tree: done(r.tree, id, error_message, now),
            ..r
        },
        Step::Flush => Run {
            tree: flushed(r.tree),
            delivered: r.delivered + reports(
                EventKind::Start,
                present(r.tree, r.tree.pending_start),
            ) + reports(EventKind::End, present(r.tree, r.tree.pending_end)),
        },
        Step::Sweep { now } => Run { tree: swept(r.tree, now), ..r },
    }
}

/// The run of a sequence of operations on an empty tree.
pub open spec fn run(steps: Seq<Step>) -> Run
    decreases steps.len(),
{
    if steps.len() == 0 {
        Run { tree: empty_tree(), delivered: Seq::<Report>::empty() }
    } else {
        after(run(steps.drop_last()), steps.last())
    }
}

/// Whether each operation of the sequence can be done when its turn comes.
pub open spec fn all_legal(steps: Seq<Step>) -> bool
    decreases steps.len(),
{
    steps.len() == 0 || (all_legal(steps.drop_last()) && legal(
        run(steps.drop_last()).tree,
        steps.last(),
    ))
}

/// The invariant of the tree holds after every sequence of operations.
pub proof fn lemma_invariant_always(steps: Seq<Step>)
    requires
        all_legal(steps),
    ensures
        tree_invariant(run(steps).tree),
    decreases steps.len(),
{
    if steps.len() > 0 {
        lemma_invariant_always(steps.drop_last());
        let r = run(steps.drop_last());
        match steps.last() {
            Step::Create { name, parent, now } => {
                lemma_created_invariant(r.tree, name, parent, now);
            },
            Step::Update { id, record } => {
                if r.tree.tasks.contains_key(id) {
                    lemma_with_task_invariant(r.tree, id, record);
                }
            },
            Step::Configure { tree } => {
                lemma_settings_invariant(r.tree, tree);
            },
            Step::Done { id, error_message, now } => {
                lemma_done_invariant(r.tree, id, error_message, now);
            },
            Step::Flush => {
                lemma_flushed_invariant(r.tree);
            },
            Step::Sweep { now } => {
                lemma_swept_invariant(r.tree, now);
            },
        }
    }
}

/// The events that a reporter receives when the queues are handed over tell
/// of the tasks that the tree still holds, with their records as they
/// stand.
pub proof fn lemma_snapshots_of_present(v: TreeView, ids: Seq<u64>)
    ensures
        snapshots(v, ids) == present(v, ids).map_values(|id: u64| v.tasks[id]),
    decreases ids.len(),
{
    if ids.len() == 0 {
        assert(snapshots(v, ids) =~= present(v, ids).map_values(|id: u64| v.tasks[id]));
    } else {
        lemma_snapshots_of_present(v, ids.drop_last());
        assert(snapshots(v, ids) =~= present(v, ids).map_values(|id: u64| v.tasks[id]));
    }
}

/// How often `id` stands in `ids`.
pub open spec fn count(ids: Seq<u64>, id: u64) -> nat
    decreases ids.len(),
{
    if ids.len() == 0 {
        0
    } else {
        count(ids.drop_last(), id) + if ids.last() == id {
            1nat
        } else {
            0nat
        }
    }
}

/// How often the event of kind `kind` of the task `id` stands in
/// `delivered`.
pub open spec fn count_reports(delivered: Seq<Report>, kind: EventKind, id: u64) -> nat
    decreases delivered.len(),
{
    if delivered.len() == 0 {
        0
    } else {
        count_reports(delivered.drop_last(), kind, id) + if delivered.last() == (Report { kind, id }) {
            1nat
        } else {
            0nat
        }
    }
}

/// How often the start of the task `id` was queued: the starts delivered
/// and those that wait.
pub open spec fn starts_of(r: Run, id: u64) -> nat {
    count_reports(r.delivered, EventKind::Start, id) + count(r.tree.pending_start, id)
}

/// How often the end of the task `id` was queued: the ends delivered and
/// those that wait.
pub open spec fn ends_of(r: Run, id: u64) -> nat {
    count_reports(r.delivered, EventKind::End, id) + count(r.tree.pending_end, id)
}

/// Whether the events of a run are as they must be.
///
/// Of a task that the tree holds, one start is delivered or waits, and one
/// end where the task has finished and none where it runs. Of no task more
/// than one start and one end is delivered or waits, and of an identifier
/// that was not handed out none. No progress is delivered, and before the
/// end of a task its start is delivered. An event is lost only where the
/// sweep removes its task while the event waits.
pub open spec fn delivery_law(r: Run) -> bool {
    &&& forall|id: u64|
        #![trigger starts_of(r, id)]
        starts_of(r, id) <= 1 && (r.tree.tasks.contains_key(id) ==> starts_of(r, id) == 1) && (id
            >= r.tree.next_id ==> starts_of(r, id) == 0)
    &&& forall|id: u64|
        #![trigger ends_of(r, id)]
        ends_of(r, id) <= 1 && (r.tree.tasks.contains_key(id) ==> ends_of(r, id) == if is_finished(
            r.tree.tasks[id].status,
        ) {
            1nat
        } else {
            0nat
        }) && (id >= r.tree.next_id ==> ends_of(r, id) == 0)
    &&& forall|j: int|
        0 <= j < r.delivered.len() ==> (#[trigger] r.delivered[j]).kind != EventKind::Progress
    &&& forall|j: int|
        0 <= j < r.delivered.len() && (#[trigger] r.delivered[j]).kind == EventKind::End
            ==> exists|i: int|
            0 <= i < j && #[trigger] r.delivered[i] == (Report {
                kind: EventKind::Start,
                id: r.delivered[j].id,
            })
}

proof fn lemma_count_push(ids: Seq<u64>, x: u64, id: u64)
    ensures
        count(ids.push(x), id) == count(ids, id) + if x == id {
            1nat
        } else {
            0nat
        },
{
    assert(ids.push(x).drop_last() =~= ids);
}

proof fn lemma_count_found(ids: Seq<u64>, id: u64) -> (i: int)
    requires
        count(ids, id) > 0,
    ensures
        0 <= i < ids.len(),
        ids[i] == id,
    decreases ids.len(),
{
    if ids.last() == id {
        ids.len() - 1
    } else {
        lemma_count_found(ids.drop_last(), id)
    }
}

proof fn lemma_count_absent(ids: Seq<u64>, id: u64)
    requires
        !ids.contains(id),
    ensures
        count(ids, id) == 0,
    decreases ids.len(),
{
    if ids.len() > 0 {
        assert(ids[ids.len() - 1] == ids.last());
        assert forall|i: int| 0 <= i < ids.drop_last().len() implies ids.drop_last()[i] != id by {
            assert(ids[i] == ids.drop_last()[i]);
        }
        lemma_count_absent(ids.drop_last(), id);
    }
}

proof fn lemma_reports_found(delivered: Seq<Report>, kind: EventKind, id: u64) -> (i: int)
    requires
        count_reports(delivered, kind, id) > 0,
    ensures
        0 <= i < delivered.len(),
        delivered[i] == (Report { kind, id }),
    decreases delivered.len(),
{
    if delivered.last() == (Report { kind, id }) {
        delivered.len() - 1
    } else {
        lemma_reports_found(delivered.drop_last(), kind, id)
    }
}

proof fn lemma_count_reports_add(a: Seq<Report>, b: Seq<Report>, kind: EventKind, id: u64)
    ensures
        count_reports(a + b, kind, id) == count_reports(a, kind, id) + count_reports(b, kind, id),
    decreases b.len(),
{
    if b.len() == 0 {
        assert(a + b =~= a);
    } else {
        assert((a + b).drop_last() =~= a + b.drop_last());
        assert((a + b).last() == b.last());
        lemma_count_reports_add(a, b.drop_last(), kind, id);
    }
}

proof fn lemma_count_reports_of(made: EventKind, ids: Seq<u64>, kind: EventKind, id: u64)
    ensures
        count_reports(reports(made, ids), kind, id) == if made == kind {
            count(ids, id)
        } else {
            0nat
        },
    decreases ids.len(),
{
    if ids.len() > 0 {
        assert(reports(made, ids).drop_last() =~= reports(made, ids.drop_last()));
        assert(reports(made, ids).last() == (Report { kind: made, id: ids.last() }));
        lemma_count_reports_of(made, ids.drop_last(), kind, id);
    }
}

proof fn lemma_count_present(v: TreeView, ids: Seq<u64>, id: u64)
    ensures
        count(present(v, ids), id) == if v.tasks.contains_key(id) {
            count(ids, id)
        } else {
            0nat
        },
        forall|k: int|
            0 <= k < present(v, ids).len() ==> v.tasks.contains_key(#[trigger] present(v, ids)[k]),
    decreases ids.len(),
{
    if ids.len() > 0 {
        lemma_count_present(v, ids.drop_last(), id);
        if v.tasks.contains_key(ids.last()) {
            lemma_count_push(present(v, ids.drop_last()), ids.last(), id);
        }
    }
}

proof fn lemma_flush_keeps_law(r: Run)
    requires
        tree_invariant(r.tree),
        delivery_law(r),
    ensures
        delivery_law(after(r, Step::Flush)),
{
    let w = after(r, Step::Flush);
    let start_ids = present(r.tree, r.tree.pending_start);
    let end_ids = present(r.tree, r.tree.pending_end);
    let starts = reports(EventKind::Start, start_ids);
    let ends = reports(EventKind::End, end_ids);
    assert(w.delivered == r.delivered + starts + ends);
    assert forall|id: u64|
        #![trigger starts_of(w, id)]
        starts_of(w, id) <= 1 && (w.tree.tasks.contains_key(id) ==> starts_of(w, id) == 1) && (id
            >= w.tree.next_id ==> starts_of(w, id) == 0) by {
        lemma_count_reports_add(r.delivered + starts, ends, EventKind::Start, id);
        lemma_count_reports_add(r.delivered, starts, EventKind::Start, id);
        lemma_count_reports_of(EventKind::Start, start_ids, EventKind::Start, id);
        lemma_count_reports_of(EventKind::End, end_ids, EventKind::Start, id);
        lemma_count_present(r.tree, r.tree.pending_start, id);
        assert(starts_of(r, id) <= 1);
    }
    assert forall|id: u64|
        #![trigger ends_of(w, id)]
        ends_of(w, id) <= 1 && (w.tree.tasks.contains_key(id) ==> ends_of(w, id) == if is_finished(
            w.tree.tasks[id].status,
        ) {
            1nat
        } else {
            0nat
        }) && (id >= w.tree.next_id ==> ends_of(w, id) == 0) by {
        lemma_count_reports_add(r.delivered + starts, ends, EventKind::End, id);
        lemma_count_reports_add(r.delivered, starts, EventKind::End, id);
        lemma_count_reports_of(EventKind::Start, start_ids, EventKind::End, id);
        lemma_count_reports_of(EventKind::End, end_ids, EventKind::End, id);
        lemma_count_present(r.tree, r.tree.pending_end, id);
        assert(ends_of(r, id) <= 1);
    }
    let n = r.delivered.len() as int;
    let m = starts.len() as int;
    assert forall|j: int| 0 <= j < w.delivered.len() implies (#[trigger] w.delivered[j]).kind
        != EventKind::Progress by {
        if j < n {
            assert(w.delivered[j] == r.delivered[j]);
        } else if j < n + m {
            assert(w.delivered[j] == starts[j - n]);
        } else {
            assert(w.delivered[j] == ends[j - n - m]);
        }
    }
    assert forall|j: int|
        0 <= j < w.delivered.len() && (#[trigger] w.delivered[j]).kind
            == EventKind::End implies exists|i: int|
        0 <= i < j && #[trigger] w.delivered[i] == (Report {
            kind: EventKind::Start,
            id: w.delivered[j].id,
        }) by {
        if j < n {
            assert(w.delivered[j] == r.delivered[j]);
            let i = choose|i: int|
                0 <= i < j && #[trigger] r.delivered[i] == (Report {
                    kind: EventKind::Start,
                    id: r.delivered[j].id,
                });
            assert(w.delivered[i] == r.delivered[i]);
        } else if j < n + m {
            assert(w.delivered[j] == starts[j - n]);
        } else {
            assert(w.delivered[j] == ends[j - n - m]);
            let id = end_ids[j - n - m];
            lemma_count_present(r.tree, r.tree.pending_end, id);
            assert(r.tree.tasks.contains_key(id));
            assert(starts_of(r, id) == 1);
            if count_reports(r.delivered, EventKind::Start, id) > 0 {
                let i = lemma_reports_found(r.delivered, EventKind::Start, id);
                assert(w.delivered[i] == r.delivered[i]);
            } else {
                lemma_count_present(r.tree, r.tree.pending_start, id);
                let k = lemma_count_found(start_ids, id);
                assert(w.delivered[n + k] == starts[k]);
            }
        }
    }
}

proof fn lemma_step_keeps_law(r: Run, s: Step)
    requires
        tree_invariant(r.tree),
        delivery_law(r),
        legal(r.tree, s),
    ensures
        delivery_law(after(r, s)),
{
    let w = after(r, s);
    match s {
        Step::Create { name, parent, now } => {
            let new = r.tree.next_id;
            assert(!r.tree.tasks.contains_key(new));
            assert forall|id: u64|
                #![trigger starts_of(w, id)]
                starts_of(w, id) <= 1 && (w.tree.tasks.contains_key(id) ==> starts_of(w, id) == 1)
                    && (id >= w.tree.next_id ==> starts_of(w, id) == 0) by {
                lemma_count_push(r.tree.pending_start, new, id);
                assert(starts_of(r, id) <= 1);
                if id != new {
                    assert(w.tree.tasks.contains_key(id) == r.tree.tasks.contains_key(id));
                }
            }
            assert forall|id: u64|
                #![trigger ends_of(w, id)]
                ends_of(w, id) <= 1 && (w.tree.tasks.contains_key(id) ==> ends_of(w, id)
                    == if is_finished(w.tree.tasks[id].status) {
                    1nat
                } else {
                    0nat
                }) && (id >= w.tree.next_id ==> ends_of(w, id) == 0) by {
                assert(ends_of(w, id) == ends_of(r, id));
                if id != new {
                    assert(w.tree.tasks.contains_key(id) == r.tree.tasks.contains_key(id));
                }
            }
        },
        Step::Done { id: finished, error_message, now } => {
            assert forall|id: u64|
                #![trigger starts_of(w, id)]
                starts_of(w, id) <= 1 && (w.tree.tasks.contains_key(id) ==> starts_of(w, id) == 1)
                    && (id >= w.tree.next_id ==> starts_of(w, id) == 0) by {
                assert(starts_of(w, id) == starts_of(r, id));
                assert(w.tree.tasks.contains_key(id) == r.tree.tasks.contains_key(id));
            }
            assert forall|id: u64|
                #![trigger ends_of(w, id)]
                ends_of(w, id) <= 1 && (w.tree.tasks.contains_key(id) ==> ends_of(w, id)
                    == if is_finished(w.tree.tasks[id].status) {
                    1nat
                } else {
                    0nat
                }) && (id >= w.tree.next_id ==> ends_of(w, id) == 0) by {
                assert(ends_of(r, id) <= 1);
                assert(w.tree.tasks.contains_key(id) == r.tree.tasks.contains_key(id));
                if r.tree.tasks.contains_key(finished) && !is_finished(
                    r.tree.tasks[finished].status,
                ) {
                    lemma_count_push(r.tree.pending_end, finished, id);
                }
            }
        },
        Step::Flush => {
            lemma_flush_keeps_law(r);
        },
        _ => {
            assert forall|id: u64|
                #![trigger starts_of(w, id)]
                starts_of(w, id) <= 1 && (w.tree.tasks.contains_key(id) ==> starts_of(w, id) == 1)
                    && (id >= w.tree.next_id ==> starts_of(w, id) == 0) by {
                assert(starts_of(w, id) == starts_of(r, id));
                if w.tree.tasks.contains_key(id) {
                    assert(r.tree.tasks.contains_key(id));
                }
            }
            assert forall|id: u64|
                #![trigger ends_of(w, id)]
                ends_of(w, id) <= 1 && (w.tree.tasks.contains_key(id) ==> ends_of(w, id)
                    == if is_finished(w.tree.tasks[id].status) {
                    1nat
                } else {
                    0nat
                }) && (id >= w.tree.next_id ==> ends_of(w, id) == 0) by {
                assert(ends_of(w, id) == ends_of(r, id));
                if w.tree.tasks.contains_key(id) {
                    assert(r.tree.tasks.contains_key(id));
                }
            }
        },
    }
}

/// After every sequence of operations the events are as [`delivery_law`]
/// says: of each task in the tree one start and, once it has finished, one
/// end is delivered or waits, never more, and the start is delivered before
/// the end.
pub proof fn lemma_every_event_once(steps: Seq<Step>)
    requires
        all_legal(steps),
    ensures
        delivery_law(run(steps)),
    decreases steps.len(),
{
    if steps.len() == 0 {
        let r = run(steps);
        assert forall|id: u64| #![trigger starts_of(r, id)] starts_of(r, id) == 0 by {}
        assert forall|id: u64| #![trigger ends_of(r, id)] ends_of(r, id) == 0 by {}
    } else {
        lemma_every_event_once(steps.drop_last());
        lemma_invariant_always(steps.drop_last());
        lemma_step_keeps_law(run(steps.drop_last()), steps.last());
    }
}

/// When the queues have been handed over, the start of every task in the
/// tree has been delivered once, and so has the end of every task in the
/// tree that has finished.
pub proof fn lemma_handed_over(steps: Seq<Step>, id: u64)
    requires
        all_legal(steps),
        steps.len() > 0,
        steps.last() == Step::Flush,
        run(steps).tree.tasks.contains_key(id),
    ensures
        count_reports(run(steps).delivered, EventKind::Start, id) == 1,
        is_finished(run(steps).tree.tasks[id].status) ==> count_reports(
            run(steps).delivered,
            EventKind::End,
            id,
        ) == 1,
{
    lemma_every_event_once(steps);
    let r = run(steps);
    assert(r.tree.pending_start =~= Seq::<u64>::empty());
    assert(r.tree.pending_end =~= Seq::<u64>::empty());
    assert(starts_of(r, id) == 1);
    assert(ends_of(r, id) <= 1);
}

} // verus!
