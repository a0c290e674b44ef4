//! The task-list operations: append, edit, mark and delete over an ordered
//! list of tasks whose ids are their one-based positions.

use crate::models::Task;
use vstd::prelude::*;

verus! {

/// The index of the first task with the given id, or -1 if none has it.
pub open spec fn first_task_index(s: Seq<Task>, id: u32) -> int
    decreases s.len(),
{
    if s.len() == 0 {
        -1
    } else if s[0].id == id {
        0
    } else {
        let r = first_task_index(s.drop_first(), id);
        if r < 0 {
            -1
        } else {
            r + 1
        }
    }
}

/// If no task before position `i` has the id, and the one at `i` does (or
/// `i` is the end), then `i` is where the first holder stands (or none is).
proof fn lemma_first_task_index(s: Seq<Task>, id: u32, i: int)
    requires
        0 <= i <= s.len(),
        forall|k: int| 0 <= k < i ==> #[trigger] s[k].id != id,
        i < s.len() ==> s[i].id == id,
    ensures
        first_task_index(s, id) == if i == s.len() {
            -1
        } else {
            i
        },
    decreases s.len(),
{
    if s.len() > 0 {
        if i > 0 {
            assert(s[0].id != id);
            let tail = s.drop_first();
            assert(forall|k: int| 0 <= k < i - 1 ==> #[trigger] tail[k].id != id) by {
                assert(forall|k: int| 0 <= k < tail.len() ==> tail[k] == s[k + 1]);
            }
            assert(i - 1 < tail.len() ==> tail[i - 1].id == id);
            lemma_first_task_index(tail, id, i - 1);
        }
    }
}

/// A task as it stands after a lower-numbered task was deleted: ids above
/// the deleted one move down by one.
pub open spec fn shift_down(t: Task, id: u32) -> Task {
    if t.id > id {
        Task { id: (t.id - 1) as u32, description: t.description, completed: t.completed }
    } else {
        t
    }
}

/// The list after deleting the task with the given id: every holder of the
/// id is dropped, and higher ids are renumbered down by one.
pub open spec fn delete_result(s: Seq<Task>, id: u32) -> Seq<Task> {
    s.filter(|t: Task| t.id != id).map_values(|t: Task| shift_down(t, id))
}

/// Appends a new task at the end, numbered one past the current count, not
/// yet completed.
pub fn add_task(tasks: &mut Vec<Task>, description: String)
    requires
        old(tasks)@.len() < u32::MAX,
    ensures
        final(tasks)@ == old(tasks)@.push(
            (Task {
                id: (old(tasks)@.len() + 1) as u32,
                description: description,
                completed: false,
            }),
        ),
{
    let id = (tasks.len() + 1) as u32;
    tasks.push(Task { id, description, completed: false });
}

/// Replaces the description of the first task with the given id. An id of
/// zero or above the count is rejected and nothing changes; an id in range
/// that no task holds changes nothing but is not an error, as the list is
/// renumbered only by deletion.
pub fn edit_task(tasks: &mut Vec<Task>, task_to_edit: u32, description: String) -> (r: bool)
    ensures
        r == !(task_to_edit == 0 || task_to_edit > old(tasks)@.len()),
        !r ==> final(tasks)@ == old(tasks)@,
        r ==> final(tasks)@ == ({
            let j = first_task_index(old(tasks)@, task_to_edit);
            if j < 0 {
                old(tasks)@
            } else {
                old(tasks)@.update(
                    j,
                    (Task {
                        id: task_to_edit,
                        description: description,
                        completed: old(tasks)@[j].completed,
                    }),
                )
            }
        }),
{
    let n = tasks.len();
    if task_to_edit == 0 || task_to_edit as usize > n {
        return false;
    }
    let mut i: usize = 0;
    while i < n
        invariant
            0 <= i <= n == tasks@.len(),
            tasks@ == old(tasks)@,
            task_to_edit != 0 && task_to_edit <= n,
            forall|k: int| 0 <= k < i ==> #[trigger] tasks@[k].id != task_to_edit,
        decreases n - i,
    {
        if tasks[i].id == task_to_edit {
            proof {
                lemma_first_task_index(tasks@, task_to_edit, i as int);
            }
            let completed = tasks[i].completed;
            let t = Task { id: task_to_edit, description, completed };
            tasks.remove(i);
            tasks.insert(i, t);
            proof {
                assert(final(tasks)@ =~= old(tasks)@.update(i as int, t));
            }
            return true;
        }
        i += 1;
    }
    proof {
        lemma_first_task_index(tasks@, task_to_edit, n as int);
    }
    true
}

/// Marks the first task with the given id as completed. The same id rules
/// hold as for editing.
pub fn mark_task(tasks: &mut Vec<Task>, task_to_mark: u32) -> (r: bool)
    ensures
        r == !(task_to_mark == 0 || task_to_mark > old(tasks)@.len()),
        !r ==> final(tasks)@ == old(tasks)@,
        r ==> final(tasks)@ == ({
            let j = first_task_index(old(tasks)@, task_to_mark);
            if j < 0 {
                old(tasks)@
            } else {
                old(tasks)@.update(
                    j,
                    (Task {
                        id: task_to_mark,
                        description: old(tasks)@[j].description,
                        completed: true,
                    }),
                )
            }
        }),
{
    let n = tasks.len();
    if task_to_mark == 0 || task_to_mark as usize > n {
        return false;
    }
    let mut i: usize = 0;
    while i < n
        invariant
            0 <= i <= n == tasks@.len(),
            tasks@ == old(tasks)@,
            task_to_mark != 0 && task_to_mark <= n,
            forall|k: int| 0 <= k < i ==> #[trigger] tasks@[k].id != task_to_mark,
        decreases n - i,
    {
        if tasks[i].id == task_to_mark {
            proof {
                lemma_first_task_index(tasks@, task_to_mark, i as int);
            }
            let t = Task {
                id: task_to_mark,
                description: tasks[i].description.clone(),
                completed: true,
            };
            tasks.remove(i);
            tasks.insert(i, t);
            proof {
                assert(final(tasks)@ =~= old(tasks)@.update(i as int, t));
            }
            return true;
        }
        i += 1;
    }
    proof {
        lemma_first_task_index(tasks@, task_to_mark, n as int);
    }
    true
}

/// Deletes every task with the given id and renumbers higher ids down by
/// one, so ids stay the one-based positions they were assigned as. An id of
/// zero or above the count is rejected and nothing changes.
pub fn delete_task(tasks: &mut Vec<Task>, task_to_delete: u32) -> (r: bool)
    ensures
        r == !(task_to_delete == 0 || task_to_delete > old(tasks)@.len()),
        !r ==> final(tasks)@ == old(tasks)@,
        r ==> final(tasks)@ == delete_result(old(tasks)@, task_to_delete),
{
    let n = tasks.len();
    if task_to_delete == 0 || task_to_delete as usize > n {
        return false;
    }
    let ghost keep = |t: Task| t.id != task_to_delete;
    let ghost shift = |t: Task| shift_down(t, task_to_delete);
    let mut out: Vec<Task> = Vec::new();
    let mut i: usize = 0;
    while i < n
        invariant
            0 <= i <= n == tasks@.len(),
            tasks@ == old(tasks)@,
            keep == (|t: Task| t.id != task_to_delete),
            shift == (|t: Task| shift_down(t, task_to_delete)),
            out@ == old(tasks)@.take(i as int).filter(keep).map_values(shift),
        decreases n - i,
    {
        let ghost prefix = old(tasks)@.take(i as int);
        let t = &tasks[i];
        if t.id != task_to_delete {
            let nid = if t.id > task_to_delete {
                t.id - 1
            } else {
                t.id
            };
            out.push(Task { id: nid, description: t.description.clone(), completed: t.completed });
        }
        i += 1;
        proof {
            let prefix2 = old(tasks)@.take(i as int);
            let last = old(tasks)@[i - 1];
            assert(prefix2 =~= prefix.push(last));
            assert(prefix2.drop_last() =~= prefix);
            reveal(Seq::filter);
            if keep(last) {
                assert(prefix2.filter(keep) == prefix.filter(keep).push(last));
                assert(out@ =~= prefix.filter(keep).map_values(shift).push(shift_down(
                    last,
                    task_to_delete,
                )));
            } else {
                assert(prefix2.filter(keep) == prefix.filter(keep));
            }
            assert(out@ =~= prefix2.filter(keep).map_values(shift));
        }
    }
    proof {
        assert(old(tasks)@.take(n as int) =~= old(tasks)@);
    }
    *tasks = out;
    true
}

} // verus!
