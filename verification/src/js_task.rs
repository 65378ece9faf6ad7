//! One-shot tasks that are completed from outside: a task is registered
//! under its id, polled until it is complete, and completed once.

use crate::name_map::NameMap;
use crate::text::decimal;
use crate::text::decimal_text;
use crate::text::digit;
use crate::text::is_digit;
use crate::text::joined;
use crate::text::lemma_decimal_differs;
use crate::text::lemma_decimal_digits;
use crate::text::Text;
use std::task::Waker;
use vstd::prelude::*;

verus! {

/// The handle by which a suspended computation is resumed. It is carried
/// through unopened.
#[verifier::external_type_specification]
#[verifier::external_body]
pub struct ExWaker(std::task::Waker);

/// Calls `Waker::wake`, which resumes the computation that waits on the
/// handle. Nothing is claimed of it.
#[verifier::external_body]
pub(crate) fn wake(waker: Waker) {
    waker.wake()
}

/// What the one who completes a task and the one who waits for it share.
#[derive(Debug)]
pub struct JsTaskSharedState {
    pub completed: bool,
    pub data: Option<String>,
    pub waker: Option<Waker>,
}

/// A task that is completed from outside, under its id.
#[derive(Debug)]
pub struct JsTask {
    pub id: String,
    pub state: JsTaskSharedState,
}

/// The tasks that wait to be completed, by id.
pub type JsTasksMap = NameMap<JsTaskSharedState>;

/// What a poll finds.
#[derive(Debug)]
pub enum TaskPoll {
    /// The task is complete: its payload. The task has left the registry.
    Ready(Option<String>),
    /// The task is not complete yet; the handle was kept to wake the waiter.
    Pending,
    /// No task waits under the id.
    Unknown,
}

impl JsTask {
    /// A task that nobody has completed or polled yet.
    pub fn new(id: String) -> (task: JsTask)
        ensures
            task.id == id,
            task.state == (JsTaskSharedState { completed: false, data: None, waker: None }),
    {
        JsTask { id, state: JsTaskSharedState { completed: false, data: None, waker: None } }
    }
}

impl JsTaskSharedState {
    /// One poll: a complete task is ready; on any other the handle is kept,
    /// in the place of the one kept before.
    pub fn poll(&mut self, waker: Waker) -> (ready: bool)
        ensures
            ready == old(self).completed,
            ready ==> *final(self) == *old(self),
            !ready ==> *final(self) == (JsTaskSharedState {
                completed: false,
                data: old(self).data,
                waker: Some(waker),
            }),
    {
        if self.completed {
            return true;
        }
        self.waker = Some(waker);
        false
    }

    /// Completes the task with `data` and hands out the handle that was
    /// kept, if any. A task that is complete stays as it is.
    pub fn complete(&mut self, data: String) -> (kept: Option<Waker>)
        ensures
            old(self).completed ==> *final(self) == *old(self) && kept is None,
            !old(self).completed ==> *final(self) == (JsTaskSharedState {
                completed: true,
                data: Some(data),
                waker: None,
            }) && kept == old(self).waker,
    {
        if self.completed {
            return None;
        }
        self.completed = true;
        self.data = Some(data);
        self.waker.take()
    }
}

/// Registers `task` under its id. An id under which a task waits already is
/// not taken again: the registry stays as it is.
pub fn register(tasks: &mut JsTasksMap, task: JsTask) -> (fresh: bool)
    requires
        old(tasks).wf(),
    ensures
        final(tasks).wf(),
        fresh == !old(tasks).has(task.id@),
        fresh ==> final(tasks).as_map() == old(tasks).as_map().insert(task.id@, task.state)
            && final(tasks).keys() == old(tasks).keys().push(task.id@),
        !fresh ==> final(tasks).entries@ == old(tasks).entries@,
{
    if tasks.contains_key(&task.id) {
        return false;
    }
    tasks.insert(task.id, task.state);
    true
}

/// Polls the task under `id`. A complete task is taken out of the registry
/// and its payload handed over; on a task that is not complete the handle is
/// kept.
pub fn poll_js_task(id: &String, waker: Waker, tasks: &mut JsTasksMap) -> (found: TaskPoll)
    requires
        old(tasks).wf(),
    ensures
        final(tasks).wf(),
        match found {
            TaskPoll::Unknown => !old(tasks).has(id@) && final(tasks).entries@ == old(
                tasks,
            ).entries@,
            TaskPoll::Ready(data) => {
                &&& old(tasks).has(id@)
                &&& old(tasks).value(id@).completed
                &&& data == old(tasks).value(id@).data
                &&& final(tasks).as_map() == old(tasks).as_map().remove(id@)
            },
            TaskPoll::Pending => {
                &&& old(tasks).has(id@)
                &&& !old(tasks).value(id@).completed
                &&& final(tasks).keys() == old(tasks).keys()
                &&& final(tasks).as_map() == old(tasks).as_map().insert(
                    id@,
                    JsTaskSharedState {
                        completed: false,
                        data: old(tasks).value(id@).data,
                        waker: Some(waker),
                    },
                )
            },
        },
{
    let ghost before = *tasks;
    match tasks.find(id) {
        None => TaskPoll::Unknown,
        Some(at) => {
            proof {
                before.lemma_place(at as int);
            }
            if tasks.entries[at].1.completed {
                match tasks.remove(id) {
                    Some(state) => TaskPoll::Ready(state.data),
                    None => TaskPoll::Unknown,
                }
            } else {
                tasks.entries[at].1.waker = Some(waker);
                proof {
                    NameMap::lemma_replaced(
                        before,
                        *tasks,
                        at as int,
                        JsTaskSharedState {
                            completed: false,
                            data: before.value(id@).data,
                            waker: Some(waker),
                        },
                    );
                }
                TaskPoll::Pending
            }
        },
    }
}

/// The source of task ids: it counts the ids it has handed out, and no two
/// of them are the same.
#[derive(Debug)]
pub struct TaskIds {
    pub issued: u64,
}

/// The id of the task with number `serial` that resolves the inputs of the
/// workspace `name`.
pub open spec fn task_id_of(name: Text, serial: nat) -> Text {
    name + ":resolve_inputs:"@ + decimal(serial)
}

/// Ids with different numbers differ, whatever the workspaces.
pub proof fn lemma_task_ids_differ(name: Text, serial: nat, other_name: Text, other_serial: nat)
    requires
        serial != other_serial,
    ensures
        task_id_of(name, serial) != task_id_of(other_name, other_serial),
{
    reveal_strlit(":resolve_inputs:");
    let mark = ":resolve_inputs:"@;
    let id = task_id_of(name, serial);
    let other = task_id_of(other_name, other_serial);
    let digits = decimal(serial);
    let other_digits = decimal(other_serial);
    lemma_decimal_digits(serial);
    lemma_decimal_digits(other_serial);
    lemma_decimal_differs(serial, other_serial);
    assert(mark.len() == 16 && mark[15] == ':');
    assert forall|d: nat| d < 10 implies #[trigger] digit(d) != ':' by {}
    if id == other {
        let front = name.len() + mark.len();
        let other_front = other_name.len() + mark.len();
        assert(id.len() == front + digits.len());
        assert(other.len() == other_front + other_digits.len());
        if digits.len() == other_digits.len() {
            assert forall|i: int| 0 <= i < digits.len() implies digits[i] == other_digits[i] by {
                assert(id[front + i] == digits[i]);
                assert(other[other_front + i] == other_digits[i]);
            }
            assert(digits =~= other_digits);
        } else if digits.len() < other_digits.len() {
            assert(id[front - 1] == ':');
            assert(other[front - 1] == other_digits[front - 1 - other_front]);
            assert(is_digit(other_digits[front - 1 - other_front]));
        } else {
            assert(other[other_front - 1] == ':');
            assert(id[other_front - 1] == digits[other_front - 1 - front]);
            assert(is_digit(digits[other_front - 1 - front]));
        }
    }
}

impl TaskIds {
    /// A source that has handed out no id yet.
    pub fn new() -> (ids: TaskIds)
        ensures
            ids.issued == 0,
    {
        TaskIds { issued: 0 }
    }

    /// The next id, for the task that resolves the inputs of the workspace
    /// `name`. A source that has run out of numbers hands out nothing.
    pub fn next_id(&mut self, name: &String) -> (id: Option<String>)
        ensures
            match id {
                Some(text) => {
                    &&& old(self).issued < u64::MAX
                    &&& final(self).issued == old(self).issued + 1
                    &&& text@ == task_id_of(name@, old(self).issued as nat)
                },
                None => old(self).issued == u64::MAX && final(self).issued == old(self).issued,
            },
    {
        if self.issued == u64::MAX {
            return None;
        }
        let marked = joined(name, ":resolve_inputs:");
        let number = decimal_text(self.issued);
        let id = joined(&marked, number.as_str());
        self.issued = self.issued + 1;
        Some(id)
    }
}

} // verus!
