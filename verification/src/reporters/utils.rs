//! The level of a task.

use crate::reporters::level::Level;
use crate::task_internal::TaskInternal;
use vstd::prelude::*;

verus! {

/// The level that a set of tags gives a task: the first of `l0` to `l3`
/// that is among them, and `L1` where none is.
pub open spec fn level_of_task(tags: Set<Seq<char>>) -> Level {
    if tags.contains("l0"@) {
        Level::L0
    } else if tags.contains("l1"@) {
        Level::L1
    } else if tags.contains("l2"@) {
        Level::L2
    } else if tags.contains("l3"@) {
        Level::L3
    } else {
        Level::L1
    }
}

/// The level of a task.
pub fn parse_level(task_internal: &TaskInternal) -> (level: Level)
    requires
        task_internal.tags.wf(),
    ensures
        level == level_of_task(task_internal.tags@),
{
    if task_internal.tags.contains("l0") {
        Level::L0
    } else if task_internal.tags.contains("l1") {
        Level::L1
    } else if task_internal.tags.contains("l2") {
        Level::L2
    } else if task_internal.tags.contains("l3") {
        Level::L3
    } else {
        Level::L1
    }
}

} // verus!
