use vstd::prelude::*;

use crate::errors::{ErrorView, RepositoryError};
use crate::labels::{Label, LabelView};
use crate::store::{
    entry_at, has_key, lemma_index_of_key, lemma_insert_pos_unique, lemma_store_insert,
    lemma_store_remove, sorted_by_key, store_insert, store_remove, Keyed,
};
use crate::tasks::{
    clone_labels, lemma_first_missing_at, lemma_first_missing_none, lemma_resolve_label_at,
    lemma_resolve_label_none, lemma_resolve_labels_push, merged_task, spec_first_missing,
    spec_resolve_label, spec_resolve_labels, CreateTask, CreateTaskView, TaskEntity,
    TaskEntityView, UpdateTask, UpdateTaskView,
};
use vstd::pervasive::VecAdditionalExecFns;

verus! {

impl Keyed for TaskEntityView {
    open spec fn key(&self) -> i32 {
        self.id
    }
}

/// What `create` returns and what it leaves in the store: when every label
/// id resolves, a fresh task under id `len + 1` with the resolved labels,
/// written at its place in the store; otherwise a `NotFound` failure naming
/// the first id that resolves to no label.
pub open spec fn spec_create_task(
    ts: Seq<TaskEntityView>,
    ls: Seq<LabelView>,
    p: CreateTaskView,
) -> (Result<TaskEntityView, ErrorView>, Seq<TaskEntityView>) {
    match spec_resolve_labels(ls, p.labels) {
        Some(resolved) => {
            let t = TaskEntityView {
                id: (ts.len() + 1) as i32,
                text: p.text,
                completed: false,
                labels: resolved,
            };
            (Ok(t), store_insert(ts, t))
        },
        None => (Err(ErrorView::NotFound(spec_first_missing(ls, p.labels)->0)), ts),
    }
}

/// What `find` returns: the task under the id, or a `NotFound` failure.
pub open spec fn spec_find_task(ts: Seq<TaskEntityView>, id: i32) -> Result<
    TaskEntityView,
    ErrorView,
> {
    if has_key(ts, id) {
        Ok(entry_at(ts, id))
    } else {
        Err(ErrorView::NotFound(id))
    }
}

/// What `update` returns and what it leaves in the store: the task under the
/// id with the payload's fields merged in, written back in its place. It
/// fails with `NotFound` when the id names no task, or — when the payload
/// replaces the label set — names the first label id that resolves to no
/// label.
pub open spec fn spec_update_task(
    ts: Seq<TaskEntityView>,
    ls: Seq<LabelView>,
    id: i32,
    up: UpdateTaskView,
) -> (Result<TaskEntityView, ErrorView>, Seq<TaskEntityView>) {
    if !has_key(ts, id) {
        (Err(ErrorView::NotFound(id)), ts)
    } else {
        let old_task = entry_at(ts, id);
        match up.labels {
            Some(ids) => match spec_resolve_labels(ls, ids) {
                Some(resolved) => {
                    let t = merged_task(old_task, up, resolved);
                    (Ok(t), store_insert(ts, t))
                },
                None => (Err(ErrorView::NotFound(spec_first_missing(ls, ids)->0)), ts),
            },
            None => {
                let t = merged_task(old_task, up, Seq::<LabelView>::empty());
                (Ok(t), store_insert(ts, t))
            },
        }
    }
}

/// What `delete` returns and what it leaves in the store: the store without
/// the task when the id is present, otherwise a `NotFound` failure.
pub open spec fn spec_delete_task(ts: Seq<TaskEntityView>, id: i32) -> (Result<(), ErrorView>, Seq<
    TaskEntityView,
>) {
    if has_key(ts, id) {
        (Ok(()), store_remove(ts, id))
    } else {
        (Err(ErrorView::NotFound(id)), ts)
    }
}

/// The contract every task store backend must satisfy. The backend's state
/// is exposed through `tasks()` — the stored tasks in ascending id order,
/// which is also the order `all` returns — and `label_context()`, the label
/// set that label ids are resolved against.
pub trait TaskRepository: Sized {
    spec fn wf(&self) -> bool;

    spec fn tasks(&self) -> Seq<TaskEntityView>;

    spec fn label_context(&self) -> Seq<LabelView>;

    /// Creates a task with a store-assigned id and the resolved labels; it
    /// never completes half-way: on failure the store is unchanged.
    fn create(&mut self, payload: CreateTask) -> (r: Result<TaskEntity, RepositoryError>)
        requires
            old(self).wf(),
            old(self).tasks().len() + 1 <= i32::MAX,
        ensures
            final(self).wf(),
            final(self).label_context() == old(self).label_context(),
            ({
                let (res, post) = spec_create_task(
                    old(self).tasks(),
                    old(self).label_context(),
                    payload@,
                );
                &&& final(self).tasks() == post
                &&& match r {
                    Ok(t) => res == Ok::<TaskEntityView, ErrorView>(t@),
                    Err(e) => res == Err::<TaskEntityView, ErrorView>(e@),
                }
            }),
    ;

    /// The task under the id; fails with `NotFound` when there is none.
    fn find(&self, id: i32) -> (r: Result<TaskEntity, RepositoryError>)
        requires
            self.wf(),
        ensures
            match r {
                Ok(t) => spec_find_task(self.tasks(), id) == Ok::<TaskEntityView, ErrorView>(t@),
                Err(e) => spec_find_task(self.tasks(), id) == Err::<TaskEntityView, ErrorView>(e@),
            },
    ;

    /// Every stored task, in ascending id order.
    fn all(&self) -> (r: Result<Vec<TaskEntity>, RepositoryError>)
        requires
            self.wf(),
        ensures
            match r {
                Ok(ts) => ts.deep_view() == self.tasks(),
                Err(_) => false,
            },
    ;

    /// Merges the payload into the task under the id and writes it back; on
    /// failure the store is unchanged.
    fn update(&mut self, id: i32, payload: UpdateTask) -> (r: Result<TaskEntity, RepositoryError>)
        requires
            old(self).wf(),
        ensures
            final(self).wf(),
            final(self).label_context() == old(self).label_context(),
            ({
                let (res, post) = spec_update_task(
                    old(self).tasks(),
                    old(self).label_context(),
                    id,
                    payload@,
                );
                &&& final(self).tasks() == post
                &&& match r {
                    Ok(t) => res == Ok::<TaskEntityView, ErrorView>(t@),
                    Err(e) => res == Err::<TaskEntityView, ErrorView>(e@),
                }
            }),
    ;

    /// Removes the task under the id; fails with `NotFound` when there is
    /// none.
    fn delete(&mut self, id: i32) -> (r: Result<(), RepositoryError>)
        requires
            old(self).wf(),
        ensures
            final(self).wf(),
            final(self).label_context() == old(self).label_context(),
            ({
                let (res, post) = spec_delete_task(old(self).tasks(), id);
                &&& final(self).tasks() == post
                &&& match r {
                    Ok(u) => res == Ok::<(), ErrorView>(u),
                    Err(e) => res == Err::<(), ErrorView>(e@),
                }
            }),
    ;
}

/// Round-trip law: when `create` succeeds, `find` applied to the id of the
/// task it returned — against the store it left behind — returns exactly
/// that task.
pub proof fn lemma_create_then_find(
    ts: Seq<TaskEntityView>,
    ls: Seq<LabelView>,
    p: CreateTaskView,
)
    requires
        sorted_by_key(ts),
        spec_create_task(ts, ls, p).0 is Ok,
    ensures
        ({
            let (res, post) = spec_create_task(ts, ls, p);
            spec_find_task(post, res->Ok_0.id) == Ok::<TaskEntityView, ErrorView>(res->Ok_0)
        }),
{
    let t = spec_create_task(ts, ls, p).0->Ok_0;
    lemma_store_insert(ts, t);
}

/// Idempotent-read law: `find` is a function of the store's state and the
/// id alone, so two reads without an intervening mutation return the same
/// result.
pub proof fn lemma_find_idempotent(
    ts: Seq<TaskEntityView>,
    id: i32,
    r1: Result<TaskEntityView, ErrorView>,
    r2: Result<TaskEntityView, ErrorView>,
)
    requires
        r1 == spec_find_task(ts, id),
        r2 == spec_find_task(ts, id),
    ensures
        r1 == r2,
{
}

/// Merge law, first half: an update with every field absent returns the
/// task as it stands and leaves the store exactly as it was.
pub proof fn lemma_update_noop(ts: Seq<TaskEntityView>, ls: Seq<LabelView>, id: i32)
    requires
        sorted_by_key(ts),
        has_key(ts, id),
    ensures
        ({
            let up = UpdateTaskView { text: None, completed: None, labels: None };
            let (res, post) = spec_update_task(ts, ls, id, up);
            res == Ok::<TaskEntityView, ErrorView>(entry_at(ts, id)) && post == ts
        }),
{
    let up = UpdateTaskView { text: None, completed: None, labels: None };
    let t = entry_at(ts, id);
    assert(merged_task(t, up, Seq::<LabelView>::empty()) == t);
    let j = crate::store::index_of_key(ts, id);
    assert(0 <= j < ts.len() && ts[j].key() == id);
    lemma_insert_pos_unique(ts, id, j);
    assert(store_insert(ts, t) == ts.update(j, ts[j]));
    assert(ts.update(j, ts[j]) =~= ts);
}

/// Merge law, second half: an update whose label list is present but empty
/// clears the task's labels, whatever they were.
pub proof fn lemma_update_clears_labels(
    ts: Seq<TaskEntityView>,
    ls: Seq<LabelView>,
    id: i32,
    up: UpdateTaskView,
)
    requires
        has_key(ts, id),
        up.labels == Some(Seq::<i32>::empty()),
    ensures
        ({
            let (res, post) = spec_update_task(ts, ls, id, up);
            res is Ok && res->Ok_0.labels == Seq::<LabelView>::empty()
        }),
{
    assert(spec_resolve_labels(ls, Seq::<i32>::empty()) == Some(Seq::<LabelView>::empty()));
}

/// Delete-finality law: once `delete` succeeds, the id is gone — `find`
/// fails with `NotFound`, and a second `delete` fails with `NotFound` too.
pub proof fn lemma_delete_finality(ts: Seq<TaskEntityView>, id: i32)
    requires
        sorted_by_key(ts),
    ensures
        ({
            let (res, post) = spec_delete_task(ts, id);
            res is Ok ==> spec_find_task(post, id) == Err::<TaskEntityView, ErrorView>(
                ErrorView::NotFound(id),
            ) && spec_delete_task(post, id).0 == Err::<(), ErrorView>(ErrorView::NotFound(id))
        }),
{
    if has_key(ts, id) {
        lemma_store_remove(ts, id);
    }
}

/// The in-memory backend: an owned vector of resolved tasks kept in
/// ascending id order, plus the label set known at construction time.
#[derive(Debug)]
pub struct TaskRepositoryForMemory {
    tasks: Vec<TaskEntity>,
    labels: Vec<Label>,
}

impl TaskRepositoryForMemory {
    pub fn new(labels: Vec<Label>) -> (r: Self)
        ensures
            r.wf(),
            r.tasks() == Seq::<TaskEntityView>::empty(),
            r.label_context() == labels.deep_view(),
    {
        let r = TaskRepositoryForMemory { tasks: Vec::new(), labels };
        proof {
            assert(r.tasks.deep_view() =~= Seq::<TaskEntityView>::empty());
        }
        r
    }

    /// Resolves each id against the known label set, each to the first label
    /// carrying it; fails with `NotFound` naming the first id that no label
    /// carries.
    fn resolve_labels(&self, ids: &Vec<i32>) -> (r: Result<Vec<Label>, RepositoryError>)
        ensures
            match r {
                Ok(resolved) => spec_resolve_labels(self.labels.deep_view(), ids@) == Some(
                    resolved.deep_view(),
                ),
                Err(e) => {
                    &&& spec_resolve_labels(self.labels.deep_view(), ids@) is None
                    &&& e@ == ErrorView::NotFound(
                        spec_first_missing(self.labels.deep_view(), ids@)->0,
                    )
                },
            },
    {
        let ghost ls = self.labels.deep_view();
        let mut out: Vec<Label> = Vec::new();
        let mut i: usize = 0;
        while i < ids.len()
            invariant
                i <= ids.len(),
                self.labels.deep_view() == ls,
                spec_resolve_labels(ls, ids@.take(i as int)) == Some(out.deep_view()),
                forall|k: int| 0 <= k < i ==> spec_resolve_label(ls, ids@[k]) is Some,
            decreases ids.len() - i,
        {
            let id = ids[i];
            let ghost out0 = out.deep_view();
            // first label carrying this id, if any
            let mut j: usize = 0;
            let mut found = false;
            while j < self.labels.len() && !found
                invariant
                    j <= self.labels.len(),
                    self.labels.deep_view() == ls,
                    !found ==> forall|k: int| 0 <= k < j ==> ls[k].id != id,
                    found ==> j > 0 && 0 <= j - 1 < ls.len() && ls[j - 1].id == id && forall|
                        k: int,
                    | 0 <= k < j - 1 ==> ls[k].id != id,
                decreases self.labels.len() - j + (if found { 0int } else { 1int }),
            {
                if self.labels[j].id == id {
                    found = true;
                }
                j += 1;
            }
            if !found {
                proof {
                    lemma_resolve_label_none(ls, id);
                    lemma_first_missing_at(ls, ids@, i as int);
                    lemma_first_missing_none(ls, ids@);
                }
                return Err(RepositoryError::NotFound(id));
            }
            out.push(self.labels[j - 1].clone());
            proof {
                lemma_resolve_label_at(ls, id, j - 1 as int);
                lemma_resolve_labels_push(ls, ids@.take(i as int), id);
                assert(ids@.take(i as int).push(id) =~= ids@.take(i + 1 as int));
                assert(out.deep_view() =~= out0.push(ls[j - 1 as int]));
            }
            i += 1;
        }
        proof {
            assert(ids@.take(i as int) =~= ids@);
        }
        Ok(out)
    }

    /// The position of the task carrying `id`, scanning in order; the store
    /// is sorted, so this is also the only such position.
    fn index_of(&self, id: i32) -> (r: Option<usize>)
        requires
            self.wf(),
        ensures
            match r {
                Some(j) => j < self.tasks@.len() && self.tasks.deep_view()[j as int].id == id
                    && has_key(self.tasks.deep_view(), id) && entry_at(self.tasks.deep_view(), id)
                    == self.tasks.deep_view()[j as int],
                None => !has_key(self.tasks.deep_view(), id),
            },
    {
        let ghost ts = self.tasks.deep_view();
        let mut j: usize = 0;
        while j < self.tasks.len()
            invariant
                j <= self.tasks.len(),
                self.tasks.deep_view() == ts,
                sorted_by_key(ts),
                forall|k: int| 0 <= k < j ==> ts[k].id != id,
            decreases self.tasks.len() - j,
        {
            if self.tasks[j].id == id {
                proof {
                    lemma_index_of_key(ts, id, j as int);
                }
                return Some(j);
            }
            j += 1;
        }
        None
    }

    /// Writes a task into the sorted store: over the entry with the same id,
    /// or at its sorted position when the id is new.
    fn put(&mut self, task: TaskEntity)
        requires
            old(self).wf(),
        ensures
            final(self).wf(),
            final(self).tasks.deep_view() == store_insert(old(self).tasks.deep_view(), task@),
            final(self).labels == old(self).labels,
    {
        let ghost ts = self.tasks.deep_view();
        let ghost tv = task@;
        let id = task.id;
        let mut p: usize = 0;
        while p < self.tasks.len() && self.tasks[p].id < id
            invariant
                p <= self.tasks.len(),
                self.tasks.deep_view() == ts,
                sorted_by_key(ts),
                old(self).labels == self.labels,
                forall|k: int| 0 <= k < p ==> ts[k].id < id,
            decreases self.tasks.len() - p,
        {
            p += 1;
        }
        proof {
            lemma_insert_pos_unique(ts, id, p as int);
            lemma_store_insert(ts, tv);
        }
        if p < self.tasks.len() && self.tasks[p].id == id {
            self.tasks.set(p, task);
            proof {
                assert(self.tasks.deep_view() =~= ts.update(p as int, tv));
            }
        } else {
            self.tasks.insert(p, task);
            proof {
                ts.insert_ensures(p as int, tv);
                assert(self.tasks.deep_view() =~= ts.insert(p as int, tv));
            }
        }
    }
}

impl TaskRepository for TaskRepositoryForMemory {
    closed spec fn wf(&self) -> bool {
        sorted_by_key(self.tasks.deep_view())
    }

    closed spec fn tasks(&self) -> Seq<TaskEntityView> {
        self.tasks.deep_view()
    }

    closed spec fn label_context(&self) -> Seq<LabelView> {
        self.labels.deep_view()
    }

    fn create(&mut self, payload: CreateTask) -> (r: Result<TaskEntity, RepositoryError>) {
        let resolved = match self.resolve_labels(&payload.labels) {
            Ok(resolved) => resolved,
            Err(e) => {
                return Err(e);
            },
        };
        let id = (self.tasks.len() + 1) as i32;
        let task = TaskEntity { id, text: payload.text, completed: false, labels: resolved };
        let result = task.clone();
        self.put(task);
        Ok(result)
    }

    fn find(&self, id: i32) -> (r: Result<TaskEntity, RepositoryError>) {
        match self.index_of(id) {
            Some(j) => Ok(self.tasks[j].clone()),
            None => Err(RepositoryError::NotFound(id)),
        }
    }

    fn all(&self) -> (r: Result<Vec<TaskEntity>, RepositoryError>) {
        let ghost ts = self.tasks.deep_view();
        let mut out: Vec<TaskEntity> = Vec::new();
        let mut i: usize = 0;
        while i < self.tasks.len()
            invariant
                i <= self.tasks.len(),
                self.tasks.deep_view() == ts,
                out.deep_view() =~= ts.take(i as int),
            decreases self.tasks.len() - i,
        {
            let ghost out0 = out.deep_view();
            out.push(self.tasks[i].clone());
            proof {
                assert(forall|k: int| 0 <= k < out0.len() ==> out.deep_view()[k] == out0[k]);
                assert(out.deep_view()[out0.len() as int] == ts[i as int]);
                assert(out.deep_view() =~= ts.take(i + 1 as int));
            }
            i += 1;
        }
        proof {
            assert(out.deep_view() =~= ts);
        }
        Ok(out)
    }

    fn update(&mut self, id: i32, payload: UpdateTask) -> (r: Result<TaskEntity, RepositoryError>) {
        let j = match self.index_of(id) {
            Some(j) => j,
            None => {
                return Err(RepositoryError::NotFound(id));
            },
        };
        let text = match payload.text {
            Some(t) => t,
            None => self.tasks[j].text.clone(),
        };
        let completed = match payload.completed {
            Some(c) => c,
            None => self.tasks[j].completed,
        };
        let labels = match &payload.labels {
            Some(ids) => match self.resolve_labels(ids) {
                Ok(resolved) => resolved,
                Err(e) => {
                    return Err(e);
                },
            },
            None => clone_labels(&self.tasks[j].labels),
        };
        let task = TaskEntity { id, text, completed, labels };
        let result = task.clone();
        self.put(task);
        Ok(result)
    }

    fn delete(&mut self, id: i32) -> (r: Result<(), RepositoryError>) {
        let ghost ts = self.tasks.deep_view();
        let j = match self.index_of(id) {
            Some(j) => j,
            None => {
                return Err(RepositoryError::NotFound(id));
            },
        };
        proof {
            lemma_store_remove(ts, id);
            lemma_index_of_key(ts, id, j as int);
        }
        self.tasks.remove(j);
        proof {
            ts.remove_ensures(j as int);
            assert(self.tasks.deep_view() =~= ts.remove(j as int));
        }
        Ok(())
    }
}

} // verus!
