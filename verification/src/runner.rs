//! What the runner does when the outside world answers.

use crate::js_task::wake;
use crate::js_task::JsTaskSharedState;
use crate::js_task::JsTasksMap;
use crate::name_map::NameMap;
use vstd::prelude::*;

verus! {

/// Completes the task under `id` with `data` and wakes whoever waits for it.
/// A completion for an id under which no task waits, or for a task that is
/// complete already, changes nothing. The result says whether a waiter was
/// woken.
pub fn on_complete_js_task(id: String, data: String, async_tasks: &mut JsTasksMap) -> (woken:
    bool)
    ensures
        if old(async_tasks).has(id@) && !old(async_tasks).value(id@).completed {
            &&& final(async_tasks).keys() == old(async_tasks).keys()
            &&& final(async_tasks).as_map() == old(async_tasks).as_map().insert(
                id@,
                JsTaskSharedState { completed: true, data: Some(data), waker: None },
            )
            &&& woken == old(async_tasks).value(id@).waker is Some
        } else {
            &&& final(async_tasks).entries@ == old(async_tasks).entries@
            &&& !woken
        },
{
    let ghost before = *async_tasks;
    match async_tasks.find(&id) {
        None => false,
        Some(at) => {
            proof {
                before.lemma_place(at as int);
            }
            if async_tasks.entries[at].1.completed {
                return false;
            }
            let kept = async_tasks.entries[at].1.complete(data);
            proof {
                NameMap::lemma_replaced(
                    before,
                    *async_tasks,
                    at as int,
                    JsTaskSharedState { completed: true, data: Some(data), waker: None },
                );
            }
            match kept {
                Some(waker) => {
                    wake(waker);
                    true
                },
                None => false,
            }
        },
    }
}

} // verus!
