use vstd::prelude::*;

use crate::store::{has_id, index_of, is_listing, new_task, update_ok, updated_task, TaskStore};
use crate::task::{title_ok, AppError, CreateTaskRequest, Task, UpdateTaskRequest};

verus! {

/// The state the service shares between requests: the one task store.
/// Callers that serve requests concurrently hold it behind a single exclusive
/// lock and call one operation per acquisition, so each operation is atomic.
pub struct AppState {
    tasks: TaskStore,
}

impl AppState {
    /// The store this state owns.
    pub closed spec fn store(&self) -> TaskStore {
        self.tasks
    }

    /// A state holding an empty store that has issued nothing.
    pub fn new() -> (r: AppState)
        ensures
            r.store().wf(),
            r.store().tasks() == Seq::<Task>::empty(),
            r.store().issued() == Set::<u128>::empty(),
    {
        AppState { tasks: TaskStore::new() }
    }
}

/// Every stored task, ordered by creation time, and on equal creation times by
/// insertion.
pub fn list_tasks(state: &AppState) -> (r: Vec<Task>)
    requires
        state.store().wf(),
    ensures
        is_listing(state.store().tasks(), r@),
{
    state.tasks.list()
}

/// Validates the request, then stores a new task under a fresh identifier.
/// Fails exactly when the title is unacceptable, and then changes nothing.
pub fn create_task(state: &mut AppState, payload: CreateTaskRequest) -> (r: Result<Task, AppError>)
    requires
        old(state).store().wf(),
    ensures
        final(state).store().wf(),
        title_ok(payload.title@) ==> r is Ok,
        !title_ok(payload.title@) ==> r == Err::<Task, AppError>(AppError::Validation),
        match r {
            Ok(t) => {
                &&& !old(state).store().issued().contains(t.id)
                &&& t == new_task(t.id, t.created_at, payload)
                &&& final(state).store().tasks() == old(state).store().tasks().push(t)
                &&& final(state).store().issued() == old(state).store().issued().insert(t.id)
            },
            Err(_) => {
                &&& final(state).store().tasks() == old(state).store().tasks()
                &&& final(state).store().issued() == old(state).store().issued()
            },
        },
{
    state.tasks.create(payload)
}

/// The stored task with identifier `id`.
pub fn get_task(state: &AppState, id: u128) -> (r: Result<Task, AppError>)
    requires
        state.store().wf(),
    ensures
        has_id(state.store().tasks(), id) ==> r == Ok::<Task, AppError>(
            state.store().tasks()[index_of(state.store().tasks(), id)],
        ),
        !has_id(state.store().tasks(), id) ==> r == Err::<Task, AppError>(AppError::NotFound),
{
    state.tasks.get(id)
}

/// Validates the request, then applies it to the task with identifier `id`,
/// refreshing its update time from the clock. Nothing changes on failure.
pub fn update_task(state: &mut AppState, id: u128, payload: UpdateTaskRequest) -> (r: Result<
    Task,
    AppError,
>)
    requires
        old(state).store().wf(),
    ensures
        final(state).store().wf(),
        final(state).store().issued() == old(state).store().issued(),
        !update_ok(payload) ==> r == Err::<Task, AppError>(AppError::Validation),
        update_ok(payload) && !has_id(old(state).store().tasks(), id) ==> r == Err::<
            Task,
            AppError,
        >(AppError::NotFound),
        update_ok(payload) && has_id(old(state).store().tasks(), id) ==> r is Ok && {
            let s = old(state).store().tasks();
            let i = index_of(s, id);
            let t = r->Ok_0;
            &&& t.updated_at >= s[i].updated_at
            &&& t == updated_task(s[i], t.updated_at, payload)
            &&& final(state).store().tasks() == s.update(i, t)
        },
        r is Err ==> final(state).store().tasks() == old(state).store().tasks(),
{
    state.tasks.update(id, payload)
}

/// Removes the task with identifier `id`; its identifier stays issued.
pub fn delete_task(state: &mut AppState, id: u128) -> (r: Result<(), AppError>)
    requires
        old(state).store().wf(),
    ensures
        final(state).store().wf(),
        final(state).store().issued() == old(state).store().issued(),
        has_id(old(state).store().tasks(), id) ==> {
            let s = old(state).store().tasks();
            &&& r == Ok::<(), AppError>(())
            &&& final(state).store().tasks() == s.remove(index_of(s, id))
        },
        !has_id(old(state).store().tasks(), id) ==> r == Err::<(), AppError>(AppError::NotFound)
            && final(state).store().tasks() == old(state).store().tasks(),
{
    state.tasks.delete(id)
}

} // verus!
