//! The record that a tree keeps of each task.

use crate::chars::{push_char, push_text};
use crate::data::{Data, DataEntry, DataEntryView, value_text};
use crate::time::Timestamp;
use crate::types::{Tags, texts};
use crate::uniq_id::UniqID;
use vstd::prelude::*;

verus! {

/// How a task ended.
#[derive(Debug)]
pub enum TaskResult {
    Success,
    /// The task failed; the text is what reporters show of the error.
    Failure(String),
}

/// What a [`TaskResult`] holds.
pub enum TaskResultView {
    Success,
    Failure(Seq<char>),
}

impl View for TaskResult {
    type V = TaskResultView;

    open spec fn view(&self) -> TaskResultView {
        match self {
            TaskResult::Success => TaskResultView::Success,
            TaskResult::Failure(msg) => TaskResultView::Failure(msg@),
        }
    }
}

/// Where a task stands in its life.
#[derive(Debug)]
pub enum TaskStatus {
    Running,
    Finished(TaskResult, Timestamp),
}

/// What a [`TaskStatus`] holds.
pub enum TaskStatusView {
    Running,
    Finished(TaskResultView, Timestamp),
}

impl View for TaskStatus {
    type V = TaskStatusView;

    open spec fn view(&self) -> TaskStatusView {
        match self {
            TaskStatus::Running => TaskStatusView::Running,
            TaskStatus::Finished(result, at) => TaskStatusView::Finished(result@, *at),
        }
    }
}

/// A task as the tree records it and as reporters receive it.
#[derive(Debug)]
pub struct TaskInternal {
    pub id: UniqID,
    pub name: String,
    pub parent_names: Vec<String>,
    pub started_at: Timestamp,
    pub status: TaskStatus,
    pub data: Data,
    pub data_transitive: Data,
    pub tags: Tags,
    /// How many items are done, and how many there are in all.
    pub progress: Option<(i64, i64)>,
    /// The message that reporters show in place of the task's error.
    pub hide_errors: Option<String>,
    pub attach_transitive_data_to_errors: bool,
    /// Keep the task's subtree in the tree while the task runs, so that its
    /// trace can be dumped whole.
    pub keep_subtree_until_finished: bool,
}

/// What a [`TaskInternal`] holds.
pub struct TaskView {
    pub id: u64,
    pub name: Seq<char>,
    pub parent_names: Seq<Seq<char>>,
    pub started_at: Timestamp,
    pub status: TaskStatusView,
    pub data: Map<Seq<char>, DataEntryView>,
    pub data_transitive: Map<Seq<char>, DataEntryView>,
    pub tags: Set<Seq<char>>,
    pub progress: Option<(i64, i64)>,
    pub hide_errors: Option<Seq<char>>,
    pub attach_transitive_data_to_errors: bool,
    pub keep_subtree_until_finished: bool,
}

/// The view of an optional string.
pub open spec fn opt_text(s: Option<String>) -> Option<Seq<char>> {
    match s {
        Some(t) => Some(t@),
        None => None,
    }
}

impl View for TaskInternal {
    type V = TaskView;

    open spec fn view(&self) -> TaskView {
        TaskView {
            id: self.id.0,
            name: self.name@,
            parent_names: texts(self.parent_names@),
            started_at: self.started_at,
            status: self.status@,
            data: self.data@,
            data_transitive: self.data_transitive@,
            tags: self.tags@,
            progress: self.progress,
            hide_errors: opt_text(self.hide_errors),
            attach_transitive_data_to_errors: self.attach_transitive_data_to_errors,
            keep_subtree_until_finished: self.keep_subtree_until_finished,
        }
    }
}

/// Whether a status is that of a task that has ended.
pub open spec fn is_finished(status: TaskStatusView) -> bool {
    status is Finished
}

/// The names joined by colons, each followed by one.
pub open spec fn joined_names(names: Seq<Seq<char>>) -> Seq<char>
    decreases names.len(),
{
    if names.len() == 0 {
        Seq::<char>::empty()
    } else {
        joined_names(names.drop_last()) + names.last() + seq![':']
    }
}

/// The full name of a task: the names of its ancestors, from the root down,
/// and its own, with colons in between.
pub open spec fn full_name_of(t: TaskView) -> Seq<char> {
    joined_names(t.parent_names) + t.name
}

/// The status that ending a task at `now` gives it.
pub open spec fn done_status(error_message: Option<Seq<char>>, now: Timestamp) -> TaskStatusView {
    match error_message {
        None => TaskStatusView::Finished(TaskResultView::Success, now),
        Some(msg) => TaskStatusView::Finished(TaskResultView::Failure(msg), now),
    }
}

/// The lines that an error's context shows of a data store: for each entry,
/// in the order of the keys, a line break, two spaces, the key, a colon and
/// a space, and the value.
pub open spec fn context_lines(keys: Seq<Seq<char>>, entries: Seq<DataEntryView>) -> Seq<char>
    decreases keys.len(),
{
    if keys.len() == 0 || entries.len() != keys.len() {
        Seq::<char>::empty()
    } else {
        context_lines(keys.drop_last(), entries.drop_last()) + "\n  "@ + keys.last() + ": "@
            + value_text(entries.last().value)
    }
}

/// The context that the error of a task is wrapped in: the task's name and
/// its data, and its transitive data where the task asks for that.
pub open spec fn error_context_of(t: &TaskInternal) -> Seq<char> {
    "[Task] "@ + t.name@ + context_lines(t.data.keys(), t.data.entries()) + (if t.attach_transitive_data_to_errors {
        context_lines(t.data_transitive.keys(), t.data_transitive.entries())
    } else {
        Seq::<char>::empty()
    }) + "\n"@
}

/// Appends the context lines of a data store to `s`.
pub fn push_context_lines(s: &mut String, data: &Data)
    ensures
        final(s)@ == old(s)@ + context_lines(data.keys(), data.entries()),
{
    let mut i: usize = 0;
    let ghost keys = data.keys();
    let ghost entries = data.entries();
    assert(keys.take(0) =~= Seq::<Seq<char>>::empty());
    assert(s@ =~= old(s)@ + context_lines(keys.take(0), entries.take(0)));
    let n = data.len();
    while i < n
        invariant
            i <= n,
            n == keys.len(),
            keys == data.keys(),
            entries == data.entries(),
            keys.len() == entries.len(),
            s@ == old(s)@ + context_lines(keys.take(i as int), entries.take(i as int)),
        decreases n - i,
    {
        let ghost before = s@;
        push_text(s, "\n  ");
        push_text(s, data.key_at(i).as_str());
        push_text(s, ": ");
        let text = data.entry_at(i).0.text();
        push_text(s, text.as_str());
        i += 1;
        proof {
            assert(keys.take(i as int).drop_last() =~= keys.take(i - 1));
            assert(entries.take(i as int).drop_last() =~= entries.take(i - 1));
            assert(keys.take(i as int).last() == keys[i - 1]);
            assert(entries.take(i as int).last() == entries[i - 1]);
            assert(s@ =~= old(s)@ + context_lines(keys.take(i as int), entries.take(i as int)));
        }
    }
    assert(keys.take(i as int) =~= keys);
    assert(entries.take(i as int) =~= entries);
}

/// The keys of a list of entries with their keys.
pub open spec fn item_keys(items: Seq<(String, DataEntry)>) -> Seq<Seq<char>> {
    items.map_values(|e: (String, DataEntry)| e.0@)
}

/// The entries of a list of entries with their keys.
pub open spec fn item_entries(items: Seq<(String, DataEntry)>) -> Seq<DataEntryView> {
    items.map_values(|e: (String, DataEntry)| e.1@)
}

/// Appends the entries of a data store, each with its key, to `all`.
fn push_items(all: &mut Vec<(String, DataEntry)>, data: &Data)
    ensures
        item_keys(final(all)@) == item_keys(old(all)@) + data.keys(),
        item_entries(final(all)@) == item_entries(old(all)@) + data.entries(),
{
    let ghost keys0 = item_keys(all@);
    let ghost entries0 = item_entries(all@);
    let n = data.len();
    let mut i: usize = 0;
    assert(item_keys(all@) =~= keys0 + data.keys().take(0));
    assert(item_entries(all@) =~= entries0 + data.entries().take(0));
    while i < n
        invariant
            i <= n,
            n == data.keys().len(),
            n == data.entries().len(),
            item_keys(all@) == keys0 + data.keys().take(i as int),
            item_entries(all@) == entries0 + data.entries().take(i as int),
        decreases n - i,
    {
        let key: String = data.key_at(i).clone();
        let entry = data.entry_at(i).clone_entry();
        let ghost k = key@;
        let ghost e = entry@;
        let ghost before = all@;
        all.push((key, entry));
        i += 1;
        proof {
            assert(all@ == before.push(all@[before.len() as int]));
            assert(all@[before.len() as int].0@ == k);
            assert(all@[before.len() as int].1@ == e);
            assert(item_keys(all@) =~= item_keys(before).push(k));
            assert(item_entries(all@) =~= item_entries(before).push(e));
            assert(data.keys().take(i as int) =~= data.keys().take(i - 1).push(k));
            assert(data.entries().take(i as int) =~= data.entries().take(i - 1).push(e));
            assert(item_keys(all@) =~= keys0 + data.keys().take(i as int));
            assert(item_entries(all@) =~= entries0 + data.entries().take(i as int));
        }
    }
    assert(data.keys().take(n as int) =~= data.keys());
    assert(data.entries().take(n as int) =~= data.entries());
}

/// A copy of a list of strings.
pub fn clone_strings(v: &Vec<String>) -> (r: Vec<String>)
    ensures
        texts(r@) == texts(v@),
{
    let mut r: Vec<String> = Vec::new();
    let mut i: usize = 0;
    while i < v.len()
        invariant
            i <= v.len(),
            texts(r@) == texts(v@).take(i as int),
        decreases v.len() - i,
    {
        let ghost before = texts(r@);
        let s: String = v[i].clone();
        r.push(s);
        i += 1;
        assert(texts(r@) =~= before.push(v@[i - 1]@));
        assert(texts(r@) =~= texts(v@).take(i as int));
    }
    assert(texts(v@).take(v.len() as int) =~= texts(v@));
    r
}

impl TaskResult {
    /// A copy of the result.
    pub fn clone_result(&self) -> (r: TaskResult)
        ensures
            r@ == self@,
    {
        match self {
            TaskResult::Success => TaskResult::Success,
            TaskResult::Failure(msg) => TaskResult::Failure(msg.clone()),
        }
    }
}

impl TaskStatus {
    /// A copy of the status.
    pub fn clone_status(&self) -> (s: TaskStatus)
        ensures
            s@ == self@,
    {
        match self {
            TaskStatus::Running => TaskStatus::Running,
            TaskStatus::Finished(result, at) => TaskStatus::Finished(result.clone_result(), *at),
        }
    }

    /// Whether the task has ended.
    pub fn finished(&self) -> (b: bool)
        ensures
            b == is_finished(self@),
    {
        match self {
            TaskStatus::Running => false,
            TaskStatus::Finished(_, _) => true,
        }
    }
}

impl TaskInternal {
    /// The data stores and the tags are well formed.
    pub open spec fn wf(&self) -> bool {
        &&& self.data.wf()
        &&& self.data_transitive.wf()
        &&& self.tags.wf()
    }

    /// Ends the task at `now`: with a failure where there is an error
    /// message, with success where there is none.
    pub fn mark_done(&mut self, error_message: Option<String>, now: Timestamp)
        ensures
            final(self)@ == (TaskView {
                status: done_status(opt_text(error_message), now),
                ..old(self)@
            }),
            final(self).wf() == old(self).wf(),
    {
        let task_status = match error_message {
            None => TaskResult::Success,
            Some(msg) => TaskResult::Failure(msg),
        };
        self.status = TaskStatus::Finished(task_status, now);
    }

    /// The full name: `a:b:name` for the task `name` under `b` under `a`.
    pub fn full_name(&self) -> (s: String)
        ensures
            s@ == full_name_of(self@),
    {
        let mut full_name = String::new();
        let mut i: usize = 0;
        assert(texts(self.parent_names@).take(0) =~= Seq::<Seq<char>>::empty());
        while i < self.parent_names.len()
            invariant
                i <= self.parent_names.len(),
                full_name@ == joined_names(texts(self.parent_names@).take(i as int)),
            decreases self.parent_names.len() - i,
        {
            let ghost before = full_name@;
            push_text(&mut full_name, self.parent_names[i].as_str());
            push_char(&mut full_name, ':');
            i += 1;
            proof {
                let names = texts(self.parent_names@);
                assert(names.take(i as int).drop_last() =~= names.take(i - 1));
                assert(names.take(i as int).last() == self.parent_names@[i - 1]@);
                assert(full_name@ =~= before + self.parent_names@[i - 1]@ + seq![':']);
            }
        }
        assert(texts(self.parent_names@).take(i as int) =~= texts(self.parent_names@));
        push_text(&mut full_name, self.name.as_str());
        full_name
    }

    /// The context that the error of the task is wrapped in.
    pub fn error_context(&self) -> (s: String)
        ensures
            s@ == error_context_of(self),
    {
        let mut desc = String::new();
        push_text(&mut desc, "[Task] ");
        push_text(&mut desc, self.name.as_str());
        push_context_lines(&mut desc, &self.data);
        if self.attach_transitive_data_to_errors {
            push_context_lines(&mut desc, &self.data_transitive);
        }
        push_text(&mut desc, "\n");
        assert(desc@ =~= error_context_of(self));
        desc
    }

    /// The entries of the data of the task, each with its key: its own
    /// entries in the order of their keys, then its transitive ones.
    pub fn all_data(&self) -> (all: Vec<(String, DataEntry)>)
        ensures
            item_keys(all@) == self.data.keys() + self.data_transitive.keys(),
            item_entries(all@) == self.data.entries() + self.data_transitive.entries(),
    {
        let mut all: Vec<(String, DataEntry)> = Vec::new();
        push_items(&mut all, &self.data);
        push_items(&mut all, &self.data_transitive);
        assert(item_keys(all@) =~= self.data.keys() + self.data_transitive.keys());
        assert(item_entries(all@) =~= self.data.entries() + self.data_transitive.entries());
        all
    }

    /// A copy of the record, as it is handed to reporters.
    pub fn clone_task(&self) -> (t: TaskInternal)
        ensures
            t@ == self@,
            t.wf() == self.wf(),
    {
        let hide_errors = match &self.hide_errors {
            Some(msg) => Some(msg.clone()),
            None => None,
        };
        TaskInternal {
            id: self.id,
            name: self.name.clone(),
            parent_names: clone_strings(&self.parent_names),
            started_at: self.started_at,
            status: self.status.clone_status(),
            data: self.data.clone_data(),
            data_transitive: self.data_transitive.clone_data(),
            tags: self.tags.clone_tags(),
            progress: self.progress,
            hide_errors,
            attach_transitive_data_to_errors: self.attach_transitive_data_to_errors,
            keep_subtree_until_finished: self.keep_subtree_until_finished,
        }
    }
}

} // verus!
