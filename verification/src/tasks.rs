use vstd::prelude::*;

use crate::labels::{Label, LabelView};

verus! {

/// A bare task row: what the task table stores, without the label relation.
#[derive(Debug, PartialEq, Eq)]
pub struct Task {
    pub id: i32,
    pub text: String,
    pub completed: bool,
}

/// Spec-level mirror of `Task`.
pub ghost struct TaskView {
    pub id: i32,
    pub text: Seq<char>,
    pub completed: bool,
}

impl View for Task {
    type V = TaskView;

    open spec fn view(&self) -> TaskView {
        TaskView { id: self.id, text: self.text@, completed: self.completed }
    }
}

/// A task as callers see it: the row together with its labels, in the order
/// they first appear in the join-row stream (or were resolved at write time).
#[derive(Debug, PartialEq, Eq)]
pub struct TaskEntity {
    pub id: i32,
    pub text: String,
    pub completed: bool,
    pub labels: Vec<Label>,
}

/// Spec-level mirror of `TaskEntity`.
#[verifier::ext_equal]
pub ghost struct TaskEntityView {
    pub id: i32,
    pub text: Seq<char>,
    pub completed: bool,
    pub labels: Seq<LabelView>,
}

impl View for TaskEntity {
    type V = TaskEntityView;

    open spec fn view(&self) -> TaskEntityView {
        TaskEntityView {
            id: self.id,
            text: self.text@,
            completed: self.completed,
            labels: self.labels.deep_view(),
        }
    }
}

impl DeepView for TaskEntity {
    type V = TaskEntityView;

    open spec fn deep_view(&self) -> TaskEntityView {
        self.view()
    }
}

/// Clones a label vector; the copy holds the same labels.
pub fn clone_labels(v: &Vec<Label>) -> (r: Vec<Label>)
    ensures
        r@ == v@,
{
    let mut out: Vec<Label> = Vec::new();
    let mut i: usize = 0;
    while i < v.len()
        invariant
            i <= v.len(),
            out@ =~= v@.take(i as int),
        decreases v.len() - i,
    {
        out.push(v[i].clone());
        i += 1;
    }
    proof {
        assert(out@ =~= v@);
    }
    out
}

impl Clone for TaskEntity {
    fn clone(&self) -> (res: Self)
        ensures
            res@ == self@,
    {
        TaskEntity {
            id: self.id,
            text: self.text.clone(),
            completed: self.completed,
            labels: clone_labels(&self.labels),
        }
    }
}

/// The payload that creates a task: its text and the ids of the labels to
/// attach.
#[derive(Debug, PartialEq, Eq)]
pub struct CreateTask {
    pub text: String,
    pub labels: Vec<i32>,
}

/// Spec-level mirror of `CreateTask`.
pub ghost struct CreateTaskView {
    pub text: Seq<char>,
    pub labels: Seq<i32>,
}

impl View for CreateTask {
    type V = CreateTaskView;

    open spec fn view(&self) -> CreateTaskView {
        CreateTaskView { text: self.text@, labels: self.labels@ }
    }
}

/// The payload that updates a task. A field left `None` keeps the task's
/// value; `labels` present — even empty — replaces the whole label set.
#[derive(Debug, PartialEq, Eq)]
pub struct UpdateTask {
    pub text: Option<String>,
    pub completed: Option<bool>,
    pub labels: Option<Vec<i32>>,
}

/// Spec-level mirror of `UpdateTask`.
pub ghost struct UpdateTaskView {
    pub text: Option<Seq<char>>,
    pub completed: Option<bool>,
    pub labels: Option<Seq<i32>>,
}

impl View for UpdateTask {
    type V = UpdateTaskView;

    open spec fn view(&self) -> UpdateTaskView {
        UpdateTaskView {
            text: match self.text {
                Some(ref t) => Some(t@),
                None => None,
            },
            completed: self.completed,
            labels: match self.labels {
                Some(ref ls) => Some(ls@),
                None => None,
            },
        }
    }
}

/// The first label in `ls` carrying `id`, if any: how a label id is resolved
/// against the known label set.
pub open spec fn spec_resolve_label(ls: Seq<LabelView>, id: i32) -> Option<LabelView>
    decreases ls.len(),
{
    if ls.len() == 0 {
        None
    } else if ls[0].id == id {
        Some(ls[0])
    } else {
        spec_resolve_label(ls.drop_first(), id)
    }
}

/// Every id of `ids` resolved against `ls`, in order; `None` when any id has
/// no label.
pub open spec fn spec_resolve_labels(ls: Seq<LabelView>, ids: Seq<i32>) -> Option<Seq<LabelView>>
    decreases ids.len(),
{
    if ids.len() == 0 {
        Some(Seq::<LabelView>::empty())
    } else {
        match spec_resolve_label(ls, ids[0]) {
            None => None,
            Some(l) => match spec_resolve_labels(ls, ids.drop_first()) {
                None => None,
                Some(rest) => Some(seq![l] + rest),
            },
        }
    }
}

/// The first id of `ids` that resolves to no label, if any.
pub open spec fn spec_first_missing(ls: Seq<LabelView>, ids: Seq<i32>) -> Option<i32>
    decreases ids.len(),
{
    if ids.len() == 0 {
        None
    } else if spec_resolve_label(ls, ids[0]) is None {
        Some(ids[0])
    } else {
        spec_first_missing(ls, ids.drop_first())
    }
}

/// `spec_resolve_label` finds the first match and fails exactly when no
/// label carries the id.
pub proof fn lemma_resolve_label_none(ls: Seq<LabelView>, id: i32)
    requires
        forall|k: int| 0 <= k < ls.len() ==> ls[k].id != id,
    ensures
        spec_resolve_label(ls, id) is None,
    decreases ls.len(),
{
    if ls.len() > 0 {
        let rest = ls.drop_first();
        assert(forall|k: int| 0 <= k < rest.len() ==> rest[k] == ls[k + 1]);
        lemma_resolve_label_none(rest, id);
    }
}

pub proof fn lemma_resolve_label_at(ls: Seq<LabelView>, id: i32, i: int)
    requires
        0 <= i < ls.len(),
        ls[i].id == id,
        forall|k: int| 0 <= k < i ==> ls[k].id != id,
    ensures
        spec_resolve_label(ls, id) == Some(ls[i]),
    decreases ls.len(),
{
    if i > 0 {
        let rest = ls.drop_first();
        assert(forall|k: int| 0 <= k < rest.len() ==> rest[k] == ls[k + 1]);
        lemma_resolve_label_at(rest, id, i - 1);
    }
}

/// Appending one id to a resolution: it succeeds when both parts do, and
/// appends the one resolved label.
pub proof fn lemma_resolve_labels_push(ls: Seq<LabelView>, ids: Seq<i32>, id: i32)
    ensures
        spec_resolve_labels(ls, ids.push(id)) == match spec_resolve_labels(ls, ids) {
            None => None::<Seq<LabelView>>,
            Some(rest) => match spec_resolve_label(ls, id) {
                None => None::<Seq<LabelView>>,
                Some(l) => Some(rest.push(l)),
            },
        },
    decreases ids.len(),
{
    reveal_with_fuel(spec_resolve_labels, 3);
    let p = ids.push(id);
    if ids.len() == 0 {
        assert(p[0] == id);
        assert(p.drop_first() =~= Seq::<i32>::empty());
        if spec_resolve_label(ls, id) is Some {
            let l = spec_resolve_label(ls, id)->0;
            assert(seq![l] + Seq::<LabelView>::empty() =~= Seq::<LabelView>::empty().push(l));
        }
    } else {
        assert(p[0] == ids[0]);
        assert(p.drop_first() =~= ids.drop_first().push(id));
        lemma_resolve_labels_push(ls, ids.drop_first(), id);
        if spec_resolve_label(ls, ids[0]) is Some && spec_resolve_labels(ls, ids) is Some {
            let l0 = spec_resolve_label(ls, ids[0])->0;
            let rest = spec_resolve_labels(ls, ids.drop_first())->0;
            if spec_resolve_label(ls, id) is Some {
                let l = spec_resolve_label(ls, id)->0;
                assert(seq![l0] + rest.push(l) =~= (seq![l0] + rest).push(l));
            }
        }
    }
}

/// `spec_first_missing` is `None` exactly when the resolution of every id
/// succeeds.
pub proof fn lemma_first_missing_none(ls: Seq<LabelView>, ids: Seq<i32>)
    ensures
        (spec_first_missing(ls, ids) is None) <==> (spec_resolve_labels(ls, ids) is Some),
    decreases ids.len(),
{
    if ids.len() > 0 {
        lemma_first_missing_none(ls, ids.drop_first());
    }
}

/// The first unresolvable id, witnessed by its position.
pub proof fn lemma_first_missing_at(ls: Seq<LabelView>, ids: Seq<i32>, i: int)
    requires
        0 <= i < ids.len(),
        spec_resolve_label(ls, ids[i]) is None,
        forall|k: int| 0 <= k < i ==> spec_resolve_label(ls, ids[k]) is Some,
    ensures
        spec_first_missing(ls, ids) == Some(ids[i]),
    decreases ids.len(),
{
    if i > 0 {
        let rest = ids.drop_first();
        assert(forall|k: int| 0 <= k < rest.len() ==> rest[k] == ids[k + 1]);
        lemma_first_missing_at(ls, rest, i - 1);
    }
}

/// The field-level merge an update performs: a field left `None` keeps the
/// task's value; `labels` present replaces the label set with `resolved`.
pub open spec fn merged_task(
    old_task: TaskEntityView,
    up: UpdateTaskView,
    resolved: Seq<LabelView>,
) -> TaskEntityView {
    TaskEntityView {
        id: old_task.id,
        text: match up.text {
            Some(t) => t,
            None => old_task.text,
        },
        completed: match up.completed {
            Some(c) => c,
            None => old_task.completed,
        },
        labels: match up.labels {
            Some(_) => resolved,
            None => old_task.labels,
        },
    }
}

/// The merged bare row an update writes back: the task's text and completed
/// flag with the payload's fields, where present, in their place.
pub fn merged_row(current: &TaskEntity, payload: &UpdateTask) -> (t: Task)
    ensures
        t@.id == current@.id,
        t@.text == match payload@.text {
            Some(s) => s,
            None => current@.text,
        },
        t@.completed == match payload@.completed {
            Some(c) => c,
            None => current@.completed,
        },
{
    let text = match &payload.text {
        Some(t) => t.clone(),
        None => current.text.clone(),
    };
    let completed = match payload.completed {
        Some(c) => c,
        None => current.completed,
    };
    Task { id: current.id, text, completed }
}

} // verus!
