use std::collections::{HashMap, HashSet};
use vstd::prelude::*;

use crate::system::{now_micros, random_task_id};
use crate::task::{title_ok, validate_title, AppError, CreateTaskRequest, Task, UpdateTaskRequest};

verus! {

broadcast use vstd::std_specs::hash::group_hash_axioms;

/// How many random identifiers `create` draws before it falls back to the
/// least unissued one.
pub const ID_ATTEMPTS: usize = 8;

/// Some task in `s` has identifier `id`.
pub open spec fn has_id(s: Seq<Task>, id: u128) -> bool {
    exists|i: int| 0 <= i < s.len() && s[i].id == id
}

/// The position of the task with identifier `id` in `s`.
pub open spec fn index_of(s: Seq<Task>, id: u128) -> int {
    choose|i: int| 0 <= i < s.len() && s[i].id == id
}

/// No two tasks of `s` share an identifier.
pub open spec fn ids_unique(s: Seq<Task>) -> bool {
    forall|i: int, j: int| 0 <= i < s.len() && 0 <= j < s.len() && s[i].id == s[j].id ==> i == j
}

/// What a single stored task always satisfies.
pub open spec fn task_ok(t: Task) -> bool {
    title_ok(t.title@) && t.created_at <= t.updated_at
}

/// The task that `insert_task` builds.
pub open spec fn new_task(id: u128, now: i64, payload: CreateTaskRequest) -> Task {
    Task {
        id,
        title: payload.title,
        description: payload.description,
        completed: false,
        created_at: now,
        updated_at: now,
    }
}

/// `t` with the fields of `payload` applied and its update time refreshed to
/// `now`, or kept where the clock has gone back.
pub open spec fn updated_task(t: Task, now: i64, payload: UpdateTaskRequest) -> Task {
    Task {
        id: t.id,
        title: match payload.title {
            Some(title) => title,
            None => t.title,
        },
        description: match payload.description {
            Some(d) => Some(d),
            None => t.description,
        },
        completed: match payload.completed {
            Some(c) => c,
            None => t.completed,
        },
        created_at: t.created_at,
        updated_at: if now > t.updated_at {
            now
        } else {
            t.updated_at
        },
    }
}

/// An update is accepted when any title it supplies has an acceptable length.
pub open spec fn update_ok(payload: UpdateTaskRequest) -> bool {
    match payload.title {
        Some(title) => title_ok(title@),
        None => true,
    }
}

/// `a` comes before `b` in a listing of `s`: earlier creation first, and on
/// equal creation times, earlier insertion first.
pub open spec fn listed_before(s: Seq<Task>, a: Task, b: Task) -> bool {
    a.created_at < b.created_at || (a.created_at == b.created_at && index_of(s, a.id) < index_of(
        s,
        b.id,
    ))
}

/// `r` is the listing of `s`: every task of `s`, ordered by `listed_before`.
pub open spec fn is_listing(s: Seq<Task>, r: Seq<Task>) -> bool {
    &&& r.len() == s.len()
    &&& forall|k: int| 0 <= k < r.len() ==> s.contains(#[trigger] r[k])
    &&& forall|k: int, l: int|
        0 <= k < l < r.len() ==> listed_before(s, #[trigger] r[k], #[trigger] r[l])
}

/// The order of creation times in a listing of index positions.
spec fn key_before(s: Seq<Task>, x: int, y: int) -> bool {
    s[x].created_at < s[y].created_at || (s[x].created_at == s[y].created_at && x < y)
}

/// The identifiers below `c`.
spec fn below(c: u128) -> Set<u128> {
    Set::new(|x: u128| x < c)
}

proof fn lemma_below_len(c: u128)
    ensures
        below(c).finite(),
        below(c).len() == c,
    decreases c,
{
    if c == 0 {
        assert(below(0) =~= Set::<u128>::empty());
    } else {
        let p = (c - 1) as u128;
        lemma_below_len(p);
        assert(below(c) =~= below(p).insert(p));
    }
}

proof fn lemma_index_of(s: Seq<Task>, i: int)
    requires
        ids_unique(s),
        0 <= i < s.len(),
    ensures
        has_id(s, s[i].id),
        index_of(s, s[i].id) == i,
{
    assert(has_id(s, s[i].id));
}

/// The task records keyed by identifier, the order in which they were
/// inserted, and every identifier the store has ever handed out.
pub struct TaskStore {
    by_id: HashMap<u128, Task>,
    order: Vec<u128>,
    issued: HashSet<u128>,
}

impl TaskStore {
    /// The stored tasks, in insertion order.
    pub closed spec fn tasks(&self) -> Seq<Task> {
        Seq::new(self.order@.len(), |i: int| self.by_id@[self.order@[i]])
    }

    /// Every identifier handed out so far, including those of deleted tasks.
    pub closed spec fn issued(&self) -> Set<u128> {
        self.issued@
    }

    /// The map holds exactly the identifiers of the order, each under its own key.
    pub closed spec fn layout_ok(&self) -> bool {
        &&& forall|i: int|
            0 <= i < self.order@.len() ==> #[trigger] self.by_id@.contains_key(self.order@[i])
                && self.by_id@[self.order@[i]].id == self.order@[i]
        &&& forall|k: u128| #[trigger] self.by_id@.contains_key(k) ==> self.order@.contains(k)
    }

    /// Identifiers are unique, never reused, and every task is well formed.
    pub open spec fn wf(&self) -> bool {
        &&& self.layout_ok()
        &&& self.issued().finite()
        &&& ids_unique(self.tasks())
        &&& forall|i: int|
            0 <= i < self.tasks().len() ==> #[trigger] self.issued().contains(self.tasks()[i].id)
        &&& forall|i: int| 0 <= i < self.tasks().len() ==> task_ok(#[trigger] self.tasks()[i])
    }

    proof fn lemma_order_ids(&self)
        requires
            self.wf(),
        ensures
            self.tasks().len() == self.order@.len(),
            forall|i: int| 0 <= i < self.order@.len() ==> #[trigger] self.tasks()[i].id == self.order@[i],
            forall|i: int| 0 <= i < self.order@.len() ==> #[trigger] self.tasks()[i] == self.by_id@[self.order@[i]],
    {
        assert forall|i: int| 0 <= i < self.order@.len() implies #[trigger] self.tasks()[i].id
            == self.order@[i] by {
            assert(self.by_id@.contains_key(self.order@[i]));
        }
    }

    proof fn lemma_lookup(&self, id: u128)
        requires
            self.wf(),
        ensures
            self.by_id@.contains_key(id) <==> has_id(self.tasks(), id),
            self.by_id@.contains_key(id) ==> {
                let i = index_of(self.tasks(), id);
                &&& 0 <= i < self.order@.len()
                &&& self.order@[i] == id
                &&& self.tasks()[i] == self.by_id@[id]
            },
    {
        self.lemma_order_ids();
        if self.by_id@.contains_key(id) {
            assert(self.order@.contains(id));
            let j = choose|j: int| 0 <= j < self.order@.len() && self.order@[j] == id;
            assert(self.tasks()[j].id == id);
            lemma_index_of(self.tasks(), j);
        } else {
            assert forall|j: int| 0 <= j < self.tasks().len() implies self.tasks()[j].id != id by {
                assert(self.by_id@.contains_key(self.order@[j]));
            }
        }
    }

    /// An empty store that has issued nothing.
    pub fn new() -> (r: TaskStore)
        ensures
            r.wf(),
            r.tasks() == Seq::<Task>::empty(),
            r.issued() == Set::<u128>::empty(),
    {
        let r = TaskStore { by_id: HashMap::new(), order: Vec::new(), issued: HashSet::new() };
        assert(r.tasks() =~= Seq::<Task>::empty());
        r
    }

    /// Number of stored tasks.
    pub fn len(&self) -> (r: usize)
        ensures
            r == self.tasks().len(),
    {
        self.order.len()
    }

    /// Position of identifier `id` in the insertion order, if it is stored.
    fn find(&self, id: u128) -> (r: Option<usize>)
        requires
            self.wf(),
        ensures
            match r {
                Some(i) => i < self.tasks().len() && self.tasks()[i as int].id == id && index_of(
                    self.tasks(),
                    id,
                ) == i,
                None => !has_id(self.tasks(), id),
            },
    {
        proof {
            self.lemma_order_ids();
        }
        let mut i: usize = 0;
        while i < self.order.len()
            invariant
                self.wf(),
                0 <= i <= self.tasks().len(),
                self.tasks().len() == self.order@.len(),
                forall|j: int| 0 <= j < self.order@.len() ==> #[trigger] self.tasks()[j].id == self.order@[j],
                forall|j: int| 0 <= j < i ==> self.tasks()[j].id != id,
            decreases self.tasks().len() - i,
        {
            if self.order[i] == id {
                proof {
                    lemma_index_of(self.tasks(), i as int);
                }
                return Some(i);
            }
            i = i + 1;
        }
        None
    }

    /// Stores a new task under identifier `id`, created at time `now`.
    pub fn insert_task(&mut self, id: u128, now: i64, payload: CreateTaskRequest) -> (r: Result<
        Task,
        AppError,
    >)
        requires
            old(self).wf(),
        ensures
            final(self).wf(),
            !title_ok(payload.title@) ==> r == Err::<Task, AppError>(AppError::Validation),
            title_ok(payload.title@) && old(self).issued().contains(id) ==> r == Err::<
                Task,
                AppError,
            >(AppError::Internal),
            title_ok(payload.title@) && !old(self).issued().contains(id) ==> r == Ok::<
                Task,
                AppError,
            >(new_task(id, now, payload)),
            r is Ok ==> final(self).tasks() == old(self).tasks().push(new_task(id, now, payload))
                && final(self).issued() == old(self).issued().insert(id),
            r is Err ==> final(self).tasks() == old(self).tasks() && final(self).issued() == old(
                self,
            ).issued(),
    {
        if !validate_title(&payload.title) {
            return Err(AppError::Validation);
        }
        if self.issued.contains(&id) {
            return Err(AppError::Internal);
        }
        let task = Task {
            id,
            title: payload.title,
            description: payload.description,
            completed: false,
            created_at: now,
            updated_at: now,
        };
        let out = task.clone();
        self.issued.insert(id);
        proof {
            old(self).lemma_order_ids();
            assert forall|j: int| 0 <= j < old(self).order@.len() implies old(self).order@[j]
                != id by {
                assert(old(self).issued().contains(old(self).tasks()[j].id));
            }
        }
        self.by_id.insert(id, task);
        self.order.push(id);
        proof {
            assert(self.tasks() =~= old(self).tasks().push(out));
            assert forall|k: u128| #[trigger] self.by_id@.contains_key(k) implies self.order@.contains(
                k,
            ) by {
                if k == id {
                    assert(self.order@[self.order@.len() - 1] == id);
                } else {
                    assert(old(self).by_id@.contains_key(k));
                    let j = choose|j: int| 0 <= j < old(self).order@.len() && old(self).order@[j] == k;
                    assert(self.order@[j] == k);
                }
            }
            assert forall|i: int| 0 <= i < self.order@.len() implies #[trigger] self.by_id@.contains_key(
                self.order@[i],
            ) && self.by_id@[self.order@[i]].id == self.order@[i] by {
                if i < old(self).order@.len() {
                    assert(self.order@[i] == old(self).order@[i]);
                }
            }
            let s = self.tasks();
            assert forall|i: int, j: int|
                0 <= i < s.len() && 0 <= j < s.len() && s[i].id == s[j].id implies i == j by {
                if i < s.len() - 1 {
                    assert(old(self).issued().contains(old(self).tasks()[i].id));
                }
                if j < s.len() - 1 {
                    assert(old(self).issued().contains(old(self).tasks()[j].id));
                }
            }
            assert forall|i: int| 0 <= i < s.len() implies #[trigger] self.issued().contains(
                s[i].id,
            ) by {
                if i < s.len() - 1 {
                    assert(old(self).issued().contains(old(self).tasks()[i].id));
                }
            }
        }
        Ok(out)
    }

    /// An identifier the store has not issued: the least one, which lies at
    /// most the number of issued identifiers.
    fn least_unissued_id(&self) -> (r: u128)
        requires
            self.wf(),
        ensures
            !self.issued().contains(r),
    {
        let n = self.issued.len();
        let mut c: u128 = 0;
        while self.issued.contains(&c)
            invariant
                self.wf(),
                n == self.issued().len(),
                c <= n,
                forall|x: u128| x < c ==> #[trigger] self.issued().contains(x),
            decreases n - c,
        {
            proof {
                lemma_below_len((c + 1) as u128);
                assert(below((c + 1) as u128).subset_of(self.issued()));
                vstd::set_lib::lemma_len_subset(below((c + 1) as u128), self.issued());
            }
            c = c + 1;
        }
        c
    }

    /// Stores a new task, created now, under a fresh identifier: a random one,
    /// or where every draw was already issued, the least unissued one. Fails
    /// exactly when the title is unacceptable, and then changes nothing.
    pub fn create(&mut self, payload: CreateTaskRequest) -> (r: Result<Task, AppError>)
        requires
            old(self).wf(),
        ensures
            final(self).wf(),
            title_ok(payload.title@) ==> r is Ok,
            !title_ok(payload.title@) ==> r == Err::<Task, AppError>(AppError::Validation),
            match r {
                Ok(t) => {
                    &&& !old(self).issued().contains(t.id)
                    &&& t == new_task(t.id, t.created_at, payload)
                    &&& final(self).tasks() == old(self).tasks().push(t)
                    &&& final(self).issued() == old(self).issued().insert(t.id)
                },
                Err(e) => {
                    &&& e == AppError::Validation
                    &&& final(self).tasks() == old(self).tasks()
                    &&& final(self).issued() == old(self).issued()
                },
            },
    {
        if !validate_title(&payload.title) {
            return Err(AppError::Validation);
        }
        let now = now_micros();
        let mut attempt: usize = 0;
        let mut fresh: Option<u128> = None;
        while attempt < ID_ATTEMPTS && fresh.is_none()
            invariant
                self.wf(),
                self.tasks() == old(self).tasks(),
                self.issued() == old(self).issued(),
                fresh matches Some(id) ==> !self.issued().contains(id),
            decreases ID_ATTEMPTS - attempt,
        {
            let id = random_task_id();
            if !self.issued.contains(&id) {
                fresh = Some(id);
            }
            attempt = attempt + 1;
        }
        let id = match fresh {
            Some(id) => id,
            None => self.least_unissued_id(),
        };
        self.insert_task(id, now, payload)
    }

    /// The task with identifier `id`.
    pub fn get(&self, id: u128) -> (r: Result<Task, AppError>)
        requires
            self.wf(),
        ensures
            has_id(self.tasks(), id) ==> r == Ok::<Task, AppError>(
                self.tasks()[index_of(self.tasks(), id)],
            ),
            !has_id(self.tasks(), id) ==> r == Err::<Task, AppError>(AppError::NotFound),
    {
        proof {
            self.lemma_lookup(id);
        }
        match self.by_id.get(&id) {
            Some(t) => Ok(t.clone()),
            None => Err(AppError::NotFound),
        }
    }

    /// Applies `payload` to the task with identifier `id` at time `now`.
    /// Nothing changes when the supplied title is unacceptable or the task is
    /// absent.
    pub fn update_at(&mut self, id: u128, now: i64, payload: UpdateTaskRequest) -> (r: Result<
        Task,
        AppError,
    >)
        requires
            old(self).wf(),
        ensures
            final(self).wf(),
            final(self).issued() == old(self).issued(),
            !update_ok(payload) ==> r == Err::<Task, AppError>(AppError::Validation),
            update_ok(payload) && !has_id(old(self).tasks(), id) ==> r == Err::<Task, AppError>(
                AppError::NotFound,
            ),
            update_ok(payload) && has_id(old(self).tasks(), id) ==> {
                let i = index_of(old(self).tasks(), id);
                let t = updated_task(old(self).tasks()[i], now, payload);
                &&& r == Ok::<Task, AppError>(t)
                &&& final(self).tasks() == old(self).tasks().update(i, t)
            },
            r is Err ==> final(self).tasks() == old(self).tasks(),
    {
        let valid = match &payload.title {
            Some(title) => validate_title(title),
            None => true,
        };
        if !valid {
            return Err(AppError::Validation);
        }
        proof {
            self.lemma_lookup(id);
        }
        let old_task = match self.by_id.get(&id) {
            Some(t) => t.clone(),
            None => {
                return Err(AppError::NotFound);
            },
        };
        let ghost i = index_of(old(self).tasks(), id);
        let title = match payload.title {
            Some(title) => title,
            None => old_task.title,
        };
        let description = match payload.description {
            Some(d) => Some(d),
            None => old_task.description,
        };
        let completed = match payload.completed {
            Some(c) => c,
            None => old_task.completed,
        };
        let updated_at = if now > old_task.updated_at {
            now
        } else {
            old_task.updated_at
        };
        let task = Task {
            id: old_task.id,
            title,
            description,
            completed,
            created_at: old_task.created_at,
            updated_at,
        };
        let out = task.clone();
        self.by_id.insert(id, task);
        proof {
            old(self).lemma_order_ids();
            assert forall|j: int| 0 <= j < self.order@.len() && j != i implies self.order@[j]
                != id by {
                assert(old(self).tasks()[j].id == old(self).order@[j]);
            }
            assert(self.tasks() =~= old(self).tasks().update(i, out));
            assert forall|k: u128| #[trigger] self.by_id@.contains_key(k) implies self.order@.contains(
                k,
            ) by {
                assert(old(self).by_id@.contains_key(k));
            }
            assert forall|a: int| 0 <= a < self.order@.len() implies #[trigger] self.by_id@.contains_key(
                self.order@[a],
            ) && self.by_id@[self.order@[a]].id == self.order@[a] by {
                assert(old(self).by_id@.contains_key(old(self).order@[a]));
            }
            let s = old(self).tasks();
            let t = self.tasks();
            assert forall|a: int| 0 <= a < t.len() implies #[trigger] self.issued().contains(
                t[a].id,
            ) by {
                assert(old(self).issued().contains(s[a].id));
            }
            assert forall|a: int| 0 <= a < t.len() implies task_ok(#[trigger] t[a]) by {
                assert(task_ok(s[a]));
            }
        }
        Ok(out)
    }

    /// Applies `payload` to the task with identifier `id`, refreshing its
    /// update time from the clock; the update time never moves back.
    pub fn update(&mut self, id: u128, payload: UpdateTaskRequest) -> (r: Result<Task, AppError>)
        requires
            old(self).wf(),
        ensures
            final(self).wf(),
            final(self).issued() == old(self).issued(),
            !update_ok(payload) ==> r == Err::<Task, AppError>(AppError::Validation),
            update_ok(payload) && !has_id(old(self).tasks(), id) ==> r == Err::<Task, AppError>(
                AppError::NotFound,
            ),
            update_ok(payload) && has_id(old(self).tasks(), id) ==> r is Ok && {
                let i = index_of(old(self).tasks(), id);
                let t = r->Ok_0;
                &&& t.updated_at >= old(self).tasks()[i].updated_at
                &&& t == updated_task(old(self).tasks()[i], t.updated_at, payload)
                &&& final(self).tasks() == old(self).tasks().update(i, t)
            },
            r is Err ==> final(self).tasks() == old(self).tasks(),
    {
        let now = now_micros();
        self.update_at(id, now, payload)
    }

    /// The stored tasks in insertion order, copied out of the map.
    fn snapshot(&self) -> (r: Vec<Task>)
        requires
            self.wf(),
        ensures
            r@ == self.tasks(),
    {
        proof {
            self.lemma_order_ids();
        }
        let mut r: Vec<Task> = Vec::new();
        let mut k: usize = 0;
        while k < self.order.len()
            invariant
                self.wf(),
                k <= self.order@.len(),
                r@.len() == k,
                forall|j: int| 0 <= j < k ==> r@[j] == self.tasks()[j],
            decreases self.order@.len() - k,
        {
            let id = self.order[k];
            match self.by_id.get(&id) {
                Some(t) => r.push(t.clone()),
                None => {
                    proof {
                        assert(self.by_id@.contains_key(self.order@[k as int]));
                    }
                    return r;
                },
            }
            k = k + 1;
        }
        proof {
            assert(r@ =~= self.tasks());
        }
        r
    }

    /// Every stored task, ordered by creation time, and on equal creation
    /// times by insertion.
    pub fn list(&self) -> (r: Vec<Task>)
        requires
            self.wf(),
        ensures
            is_listing(self.tasks(), r@),
    {
        let all = self.snapshot();
        let ghost s = self.tasks();
        let n = all.len();
        let mut order: Vec<usize> = Vec::new();
        let mut i: usize = 0;
        while i < n
            invariant
                s == all@,
                n == s.len(),
                i <= n,
                order@.len() == i,
                forall|a: int| 0 <= a < order@.len() ==> order@[a] < i,
                forall|a: int, b: int|
                    0 <= a < b < order@.len() ==> key_before(s, order@[a] as int, order@[b] as int),
            decreases n - i,
        {
            let c = all[i].created_at;
            let mut pos: usize = 0;
            while pos < order.len() && all[order[pos]].created_at <= c
                invariant
                    s == all@,
                    n == s.len(),
                    i < n,
                    pos <= order@.len(),
                    c == s[i as int].created_at,
                    forall|a: int| 0 <= a < order@.len() ==> order@[a] < i,
                    forall|a: int| 0 <= a < pos ==> s[order@[a] as int].created_at <= c,
                decreases order@.len() - pos,
            {
                pos = pos + 1;
            }
            let ghost prev = order@;
            order.insert(pos, i);
            proof {
                assert forall|a: int, b: int|
                    0 <= a < b < order@.len() implies key_before(
                    s,
                    order@[a] as int,
                    order@[b] as int,
                ) by {
                    if b < pos {
                    } else if b == pos {
                    } else if a < pos {
                        assert(order@[b] == prev[b - 1]);
                    } else if a == pos {
                        assert(order@[b] == prev[b - 1]);
                        assert(key_before(s, prev[pos as int] as int, prev[b - 1] as int) || b - 1
                            == pos);
                    } else {
                        assert(order@[a] == prev[a - 1]);
                        assert(order@[b] == prev[b - 1]);
                    }
                }
            }
            i = i + 1;
        }
        let mut r: Vec<Task> = Vec::new();
        let mut k: usize = 0;
        while k < n
            invariant
                s == all@,
                self.wf(),
                n == s.len(),
                order@.len() == n,
                k <= n,
                r@.len() == k,
                forall|a: int| 0 <= a < order@.len() ==> order@[a] < n,
                forall|a: int, b: int|
                    0 <= a < b < order@.len() ==> key_before(s, order@[a] as int, order@[b] as int),
                forall|a: int| 0 <= a < k ==> r@[a] == s[order@[a] as int],
            decreases n - k,
        {
            r.push(all[order[k]].clone());
            k = k + 1;
        }
        proof {
            assert forall|a: int| 0 <= a < r@.len() implies s.contains(#[trigger] r@[a]) by {
                assert(s[order@[a] as int] == r@[a]);
            }
            assert forall|a: int, b: int|
                0 <= a < b < r@.len() implies listed_before(s, #[trigger] r@[a], #[trigger] r@[b]) by {
                lemma_index_of(s, order@[a] as int);
                lemma_index_of(s, order@[b] as int);
                assert(r@[a] == s[order@[a] as int]);
                assert(r@[b] == s[order@[b] as int]);
                assert(key_before(s, order@[a] as int, order@[b] as int));
            }
        }
        r
    }

    /// Removes the task with identifier `id`. Its identifier stays issued.
    pub fn delete(&mut self, id: u128) -> (r: Result<(), AppError>)
        requires
            old(self).wf(),
        ensures
            final(self).wf(),
            final(self).issued() == old(self).issued(),
            has_id(old(self).tasks(), id) ==> r == Ok::<(), AppError>(()) && final(self).tasks()
                == old(self).tasks().remove(index_of(old(self).tasks(), id)),
            !has_id(old(self).tasks(), id) ==> r == Err::<(), AppError>(AppError::NotFound)
                && final(self).tasks() == old(self).tasks(),
    {
        match self.find(id) {
            Some(i) => {
                self.order.remove(i);
                self.by_id.remove(&id);
                proof {
                    let s = old(self).tasks();
                    old(self).lemma_order_ids();
                    assert forall|j: int| 0 <= j < old(self).order@.len() && j != i implies old(
                        self,
                    ).order@[j] != id by {
                        assert(s[j].id == old(self).order@[j]);
                    }
                    assert forall|a: int| 0 <= a < self.order@.len() implies self.order@[a] == if a
                        < i {
                        old(self).order@[a]
                    } else {
                        old(self).order@[a + 1]
                    } by {}
                    assert(self.tasks() =~= s.remove(i as int));
                    assert forall|k: u128| #[trigger] self.by_id@.contains_key(k) implies self.order@.contains(
                        k,
                    ) by {
                        assert(old(self).by_id@.contains_key(k));
                        let j = choose|j: int| 0 <= j < old(self).order@.len() && old(self).order@[j] == k;
                        if j < i {
                            assert(self.order@[j] == k);
                        } else {
                            assert(self.order@[j - 1] == k);
                        }
                    }
                    assert forall|a: int| 0 <= a < self.order@.len() implies #[trigger] self.by_id@.contains_key(
                        self.order@[a],
                    ) && self.by_id@[self.order@[a]].id == self.order@[a] by {
                        if a < i {
                            assert(old(self).by_id@.contains_key(old(self).order@[a]));
                        } else {
                            assert(old(self).by_id@.contains_key(old(self).order@[a + 1]));
                        }
                    }
                    let t = self.tasks();
                    assert forall|a: int| 0 <= a < t.len() implies #[trigger] self.issued().contains(
                        t[a].id,
                    ) by {
                        if a < i {
                            assert(t[a] == s[a]);
                            assert(old(self).issued().contains(s[a].id));
                        } else {
                            assert(t[a] == s[a + 1]);
                            assert(old(self).issued().contains(s[a + 1].id));
                        }
                    }
                    assert forall|a: int| 0 <= a < t.len() implies task_ok(#[trigger] t[a]) by {
                        if a < i {
                            assert(t[a] == s[a]);
                        } else {
                            assert(t[a] == s[a + 1]);
                        }
                    }
                    assert forall|a: int, b: int|
                        0 <= a < t.len() && 0 <= b < t.len() && t[a].id == t[b].id implies a
                        == b by {
                        let a1 = if a < i {
                            a
                        } else {
                            a + 1
                        };
                        let b1 = if b < i {
                            b
                        } else {
                            b + 1
                        };
                        assert(t[a] == s[a1]);
                        assert(t[b] == s[b1]);
                    }
                }
                Ok(())
            },
            None => Err(AppError::NotFound),
        }
    }
}

} // verus!
