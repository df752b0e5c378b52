use vstd::prelude::*;

use crate::store::{has_id, index_of, is_listing, listed_before, task_ok, updated_task, TaskStore};
use crate::task::{title_ok, CreateTaskRequest, Task, UpdateTaskRequest};

verus! {

proof fn lemma_issued_grows(issued: Seq<Set<u128>>, a: int, b: int)
    requires
        0 <= a <= b < issued.len(),
        forall|k: int| 0 <= k < issued.len() - 1 ==> #[trigger] issued[k].subset_of(issued[k + 1]),
    ensures
        issued[a].subset_of(issued[b]),
    decreases b - a,
{
    if a < b {
        lemma_issued_grows(issued, a, b - 1);
        assert(issued[b - 1].subset_of(issued[(b - 1) + 1]));
    }
}

/// Identifiers returned by successive creations are pairwise distinct, with
/// any other operations in between. `issued[k]` is the store's set of issued
/// identifiers when the `k`-th creation starts: each creation returns an
/// identifier outside that set and adds it, and no operation shrinks the set.
pub proof fn created_ids_distinct(ids: Seq<u128>, issued: Seq<Set<u128>>)
    requires
        issued.len() == ids.len() + 1,
        forall|k: int| 0 <= k < ids.len() ==> !(#[trigger] issued[k]).contains(ids[k]),
        forall|k: int| 0 <= k < ids.len() ==> issued[k].insert(ids[k]).subset_of(#[trigger] issued[k + 1]),
    ensures
        forall|a: int, b: int| 0 <= a < b < ids.len() ==> ids[a] != ids[b],
{
    assert forall|k: int| 0 <= k < issued.len() - 1 implies #[trigger] issued[k].subset_of(
        issued[k + 1],
    ) by {
        assert(issued[k].insert(ids[k]).subset_of(issued[k + 1]));
    }
    assert forall|a: int, b: int| 0 <= a < b < ids.len() implies ids[a] != ids[b] by {
        assert(issued[a].insert(ids[a]).subset_of(issued[a + 1]));
        lemma_issued_grows(issued, a + 1, b);
        assert(issued[b].contains(ids[a]));
        assert(!issued[b].contains(ids[b]));
    }
}

/// After a creation appends `t` under an identifier the store had not issued,
/// looking `t.id` up finds exactly `t`.
pub proof fn create_then_get(before: TaskStore, after: TaskStore, t: Task)
    requires
        before.wf(),
        !before.issued().contains(t.id),
        after.tasks() == before.tasks().push(t),
    ensures
        has_id(after.tasks(), t.id),
        after.tasks()[index_of(after.tasks(), t.id)] == t,
{
    let s = after.tasks();
    let n = before.tasks().len();
    assert(s[n as int] == t);
    assert(has_id(s, t.id));
    let i = index_of(s, t.id);
    if i < n {
        assert(before.tasks()[i] == s[i]);
        assert(before.issued().contains(before.tasks()[i].id));
    }
}

/// A listing is ordered by non-decreasing creation time.
pub proof fn listing_sorted(s: Seq<Task>, r: Seq<Task>)
    requires
        is_listing(s, r),
    ensures
        forall|k: int, l: int| 0 <= k < l < r.len() ==> r[k].created_at <= r[l].created_at,
{
    assert forall|k: int, l: int| 0 <= k < l < r.len() implies r[k].created_at
        <= r[l].created_at by {
        assert(listed_before(s, r[k], r[l]));
    }
}

/// An update that only marks a stored task completed keeps its title and
/// description, keeps its update time at or after both its creation time and
/// its previous update time, and moves it strictly forward when the clock has.
pub proof fn complete_only_update(t: Task, now: i64, payload: UpdateTaskRequest)
    requires
        task_ok(t),
        payload.title is None,
        payload.description is None,
        payload.completed == Some(true),
    ensures
        updated_task(t, now, payload).title == t.title,
        updated_task(t, now, payload).description == t.description,
        updated_task(t, now, payload).completed,
        updated_task(t, now, payload).updated_at >= updated_task(t, now, payload).created_at,
        updated_task(t, now, payload).updated_at >= t.updated_at,
        now > t.updated_at ==> updated_task(t, now, payload).updated_at > t.updated_at,
{
}

/// Once the task with `id` is removed from a well-formed store, no task with
/// that identifier remains.
pub proof fn delete_then_get(store: TaskStore, id: u128)
    requires
        store.wf(),
        has_id(store.tasks(), id),
    ensures
        !has_id(store.tasks().remove(index_of(store.tasks(), id)), id),
{
    let s = store.tasks();
    let i = index_of(s, id);
    let t = s.remove(i);
    assert forall|a: int| 0 <= a < t.len() implies t[a].id != id by {
        if a < i {
            assert(t[a] == s[a]);
        } else {
            assert(t[a] == s[a + 1]);
        }
    }
}

/// A request with an empty title is never acceptable.
pub proof fn empty_title_rejected(payload: CreateTaskRequest)
    requires
        payload.title@.len() == 0,
    ensures
        !title_ok(payload.title@),
{
}

} // verus!
