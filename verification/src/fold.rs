use vstd::prelude::*;

use crate::errors::{ErrorView, RepositoryError};
use crate::labels::{Label, LabelView};
use crate::tasks::{TaskEntity, TaskEntityView};
use vstd::pervasive::unreached;
use vstd::pervasive::VecAdditionalExecFns;

verus! {

/// One row of the relational outer join between a task and its labels: the
/// task's fields, and one associated label — or none, when the task has no
/// labels and the join padded the row with nulls.
#[derive(Debug, PartialEq, Eq)]
pub struct TaskWithLabelFromRow {
    pub id: i32,
    pub text: String,
    pub completed: bool,
    pub label_id: Option<i32>,
    pub label_name: Option<String>,
}

/// Spec-level mirror of `TaskWithLabelFromRow`.
pub ghost struct RowView {
    pub id: i32,
    pub text: Seq<char>,
    pub completed: bool,
    pub label_id: Option<i32>,
    pub label_name: Option<Seq<char>>,
}

impl View for TaskWithLabelFromRow {
    type V = RowView;

    open spec fn view(&self) -> RowView {
        RowView {
            id: self.id,
            text: self.text@,
            completed: self.completed,
            label_id: self.label_id,
            label_name: match self.label_name {
                Some(ref n) => Some(n@),
                None => None,
            },
        }
    }
}

impl DeepView for TaskWithLabelFromRow {
    type V = RowView;

    open spec fn deep_view(&self) -> RowView {
        self.view()
    }
}

/// The label a row carries; meaningful when `label_id` is present.
pub open spec fn row_label(r: RowView) -> LabelView {
    LabelView { id: r.label_id->0, name: r.label_name->0 }
}

/// What the join guarantees of a row stream: label id and name are null
/// together, and a row repeating an already-seen task id carries a label —
/// a task with no labels produces exactly one (null-padded) row.
pub open spec fn rows_wf(rows: Seq<RowView>) -> bool {
    &&& forall|i: int|
        0 <= i < rows.len() ==> (#[trigger] rows[i].label_id is Some ==> rows[i].label_name
            is Some)
    &&& forall|k: int, i: int|
        0 <= k < i < rows.len() && rows[k].id == rows[i].id ==> rows[i].label_id is Some
}

/// The first position in the accumulator holding the task id, or `-1`.
pub open spec fn entity_idx(acc: Seq<TaskEntityView>, id: i32) -> int
    decreases acc.len(),
{
    if acc.len() == 0 {
        -1
    } else if acc[0].id == id {
        0
    } else if entity_idx(acc.drop_first(), id) < 0 {
        -1
    } else {
        1 + entity_idx(acc.drop_first(), id)
    }
}

/// `entity_idx` finds the first position with the id, and `-1` exactly when
/// no entry holds it.
pub proof fn lemma_entity_idx_none(acc: Seq<TaskEntityView>, id: i32)
    requires
        forall|k: int| 0 <= k < acc.len() ==> acc[k].id != id,
    ensures
        entity_idx(acc, id) == -1,
    decreases acc.len(),
{
    if acc.len() > 0 {
        let rest = acc.drop_first();
        assert(forall|k: int| 0 <= k < rest.len() ==> rest[k] == acc[k + 1]);
        lemma_entity_idx_none(rest, id);
    }
}

pub proof fn lemma_entity_idx_at(acc: Seq<TaskEntityView>, id: i32, i: int)
    requires
        0 <= i < acc.len(),
        acc[i].id == id,
        forall|k: int| 0 <= k < i ==> acc[k].id != id,
    ensures
        entity_idx(acc, id) == i,
    decreases acc.len(),
{
    if i > 0 {
        let rest = acc.drop_first();
        assert(forall|k: int| 0 <= k < rest.len() ==> rest[k] == acc[k + 1]);
        lemma_entity_idx_at(rest, id, i - 1);
    }
}

/// One folding step. A row whose task id is already accumulated appends its
/// label to that task; a row with a new task id opens a new task, with one
/// label or none as the row carries one or not.
pub open spec fn fold_step(acc: Seq<TaskEntityView>, r: RowView) -> Seq<TaskEntityView> {
    let j = entity_idx(acc, r.id);
    if j >= 0 {
        if r.label_id is Some {
            acc.update(
                j,
                TaskEntityView {
                    id: acc[j].id,
                    text: acc[j].text,
                    completed: acc[j].completed,
                    labels: acc[j].labels.push(row_label(r)),
                },
            )
        } else {
            acc
        }
    } else {
        acc.push(
            TaskEntityView {
                id: r.id,
                text: r.text,
                completed: r.completed,
                labels: if r.label_id is Some {
                    seq![row_label(r)]
                } else {
                    Seq::<LabelView>::empty()
                },
            },
        )
    }
}

/// Folding a row stream onto an accumulator, in input order.
pub open spec fn fold_rows_from(acc: Seq<TaskEntityView>, rows: Seq<RowView>) -> Seq<
    TaskEntityView,
>
    decreases rows.len(),
{
    if rows.len() == 0 {
        acc
    } else {
        fold_rows_from(fold_step(acc, rows[0]), rows.drop_first())
    }
}

/// The tasks a row stream folds to: one task per distinct task id, in
/// first-appearance order, holding its labels in row order.
pub open spec fn fold_rows(rows: Seq<RowView>) -> Seq<TaskEntityView> {
    fold_rows_from(Seq::<TaskEntityView>::empty(), rows)
}

/// Folding one more row is one more folding step.
pub proof fn lemma_fold_rows_from_push(acc: Seq<TaskEntityView>, rows: Seq<RowView>, r: RowView)
    ensures
        fold_rows_from(acc, rows.push(r)) == fold_step(fold_rows_from(acc, rows), r),
    decreases rows.len(),
{
    reveal_with_fuel(fold_rows_from, 3);
    let p = rows.push(r);
    if rows.len() == 0 {
        assert(p[0] == r);
        assert(p.drop_first() =~= Seq::<RowView>::empty());
    } else {
        assert(p[0] == rows[0]);
        assert(p.drop_first() =~= rows.drop_first().push(r));
        lemma_fold_rows_from_push(fold_step(acc, rows[0]), rows.drop_first(), r);
    }
}

/// No two entries carry the same task id.
pub open spec fn ids_unique(acc: Seq<TaskEntityView>) -> bool {
    forall|i: int, j: int| 0 <= i < j < acc.len() ==> acc[i].id != acc[j].id
}

/// A negative `entity_idx` means no entry carries the id.
pub proof fn lemma_entity_idx_negative(acc: Seq<TaskEntityView>, id: i32)
    requires
        entity_idx(acc, id) < 0,
    ensures
        forall|k: int| 0 <= k < acc.len() ==> acc[k].id != id,
    decreases acc.len(),
{
    if acc.len() > 0 {
        let rest = acc.drop_first();
        assert(forall|k: int| 0 <= k < rest.len() ==> rest[k] == acc[k + 1]);
        lemma_entity_idx_negative(rest, id);
        assert forall|k: int| 0 <= k < acc.len() implies acc[k].id != id by {
            if k > 0 {
                assert(rest[k - 1] == acc[k]);
                assert(rest[k - 1].id != id);
            }
        }
    }
}

/// A non-negative `entity_idx` is a position, and its entry carries the id.
pub proof fn lemma_entity_idx_in_range(acc: Seq<TaskEntityView>, id: i32)
    requires
        entity_idx(acc, id) >= 0,
    ensures
        entity_idx(acc, id) < acc.len(),
        acc[entity_idx(acc, id)].id == id,
    decreases acc.len(),
{
    if acc.len() > 0 && acc[0].id != id {
        let rest = acc.drop_first();
        lemma_entity_idx_in_range(rest, id);
        assert(acc[entity_idx(acc, id)] == rest[entity_idx(rest, id)]);
    }
}

proof fn lemma_fold_step_ids_unique(acc: Seq<TaskEntityView>, r: RowView)
    requires
        ids_unique(acc),
    ensures
        ids_unique(fold_step(acc, r)),
{
    let j = entity_idx(acc, r.id);
    let out = fold_step(acc, r);
    if j >= 0 {
        lemma_entity_idx_in_range(acc, r.id);
        assert(forall|k: int| 0 <= k < out.len() ==> out[k].id == acc[k].id);
    } else {
        lemma_entity_idx_negative(acc, r.id);
        assert forall|i: int, j2: int| 0 <= i < j2 < out.len() implies out[i].id != out[j2].id by {
            if j2 == acc.len() {
                assert(out[i] == acc[i] && acc[i].id != r.id);
            }
        }
    }
}

proof fn lemma_fold_rows_from_ids_unique(acc: Seq<TaskEntityView>, rows: Seq<RowView>)
    requires
        ids_unique(acc),
    ensures
        ids_unique(fold_rows_from(acc, rows)),
    decreases rows.len(),
{
    if rows.len() > 0 {
        lemma_fold_step_ids_unique(acc, rows[0]);
        lemma_fold_rows_from_ids_unique(fold_step(acc, rows[0]), rows.drop_first());
    }
}

/// A folded result holds each task id at most once, whatever the rows were.
pub proof fn lemma_fold_ids_unique(rows: Seq<RowView>)
    ensures
        ids_unique(fold_rows(rows)),
{
    lemma_fold_rows_from_ids_unique(Seq::<TaskEntityView>::empty(), rows);
}

/// Folding law: no rows fold to no tasks.
pub proof fn lemma_fold_empty()
    ensures
        fold_rows(Seq::<RowView>::empty()) == Seq::<TaskEntityView>::empty(),
{
}

/// Folding law: a single row with null label fields folds to exactly one
/// task with an empty label list — not to no task at all.
pub proof fn lemma_fold_row_without_label(r: RowView)
    requires
        r.label_id is None,
    ensures
        fold_rows(seq![r]) == seq![
            TaskEntityView {
                id: r.id,
                text: r.text,
                completed: r.completed,
                labels: Seq::<LabelView>::empty(),
            },
        ],
{
    reveal_with_fuel(fold_rows_from, 2);
    assert(seq![r].drop_first() =~= Seq::<RowView>::empty());
    assert(fold_rows(seq![r]) =~= seq![
        TaskEntityView {
            id: r.id,
            text: r.text,
            completed: r.completed,
            labels: Seq::<LabelView>::empty(),
        },
    ]);
}

/// Folding law: rows that share one task id, each carrying a label, fold to
/// exactly one task — with the first row's fields — whose labels are the
/// rows' labels in row order.
pub proof fn lemma_fold_single_task(rows: Seq<RowView>)
    requires
        rows.len() > 0,
        forall|k: int| 0 <= k < rows.len() ==> #[trigger] rows[k].id == rows[0].id,
        forall|k: int| 0 <= k < rows.len() ==> (#[trigger] rows[k].label_id) is Some,
    ensures
        fold_rows(rows) == seq![
            TaskEntityView {
                id: rows[0].id,
                text: rows[0].text,
                completed: rows[0].completed,
                labels: rows.map_values(|r: RowView| row_label(r)),
            },
        ],
    decreases rows.len(),
{
    reveal_with_fuel(fold_rows_from, 2);
    let f = |r: RowView| row_label(r);
    let expected = TaskEntityView {
        id: rows[0].id,
        text: rows[0].text,
        completed: rows[0].completed,
        labels: rows.map_values(f),
    };
    if rows.len() == 1 {
        assert(rows.drop_first() =~= Seq::<RowView>::empty());
        assert(seq![row_label(rows[0])] =~= rows.map_values(f));
        assert(fold_rows(rows) =~~= seq![expected]);
    } else {
        let front = rows.drop_last();
        let last = rows.last();
        assert(forall|k: int| 0 <= k < front.len() ==> front[k] == rows[k]);
        lemma_fold_single_task(front);
        lemma_fold_rows_from_push(Seq::<TaskEntityView>::empty(), front, last);
        assert(front.push(last) =~= rows);
        let acc = fold_rows(front);
        assert(acc.len() == 1 && acc[0].id == rows[0].id);
        lemma_entity_idx_at(acc, last.id, 0);
        assert(fold_rows(rows) == fold_step(acc, last));
        assert(front.map_values(f).push(row_label(last)) =~= rows.map_values(f));
        assert(fold_step(acc, last) =~~= seq![expected]);
    }
}

/// The first folded task of a join-row query scoped to one id, or
/// `NotFound` when the query returned no rows for it.
pub fn first_folded(rows: Vec<TaskWithLabelFromRow>, id: i32) -> (r: Result<
    TaskEntity,
    RepositoryError,
>)
    requires
        rows_wf(rows.deep_view()),
    ensures
        match r {
            Ok(t) => fold_rows(rows.deep_view()).len() > 0 && t@ == fold_rows(rows.deep_view())[0],
            Err(e) => fold_rows(rows.deep_view()).len() == 0 && e@ == ErrorView::NotFound(id),
        },
{
    let mut tasks = fold_entities(rows);
    if tasks.len() == 0 {
        Err(RepositoryError::NotFound(id))
    } else {
        let first = tasks.remove(0);
        Ok(first)
    }
}

/// Some accumulated task holds the id.
spec fn acc_has_id(acc: Seq<TaskEntityView>, id: i32) -> bool {
    exists|j: int| 0 <= j < acc.len() && acc[j].id == id
}

/// Some row before position `n` holds the task id.
spec fn rows_have_id(rows: Seq<RowView>, n: int, id: i32) -> bool {
    exists|k: int| 0 <= k < n && rows[k].id == id
}

proof fn lemma_rows_have_id_mono(rows: Seq<RowView>, n1: int, n2: int, id: i32)
    requires
        n1 <= n2 <= rows.len(),
        rows_have_id(rows, n1, id),
    ensures
        rows_have_id(rows, n2, id),
{
    let k = choose|k: int| 0 <= k < n1 && rows[k].id == id;
    assert(0 <= k < n2 && rows[k].id == id);
}

proof fn lemma_acc_has_id_update(acc: Seq<TaskEntityView>, j: int, t: TaskEntityView, id: i32)
    requires
        0 <= j < acc.len(),
        t.id == acc[j].id,
        acc_has_id(acc, id),
    ensures
        acc_has_id(acc.update(j, t), id),
{
    let j2 = choose|j2: int| 0 <= j2 < acc.len() && acc[j2].id == id;
    assert(acc.update(j, t)[j2].id == id);
}

proof fn lemma_acc_has_id_push(acc: Seq<TaskEntityView>, t: TaskEntityView, id: i32)
    requires
        acc_has_id(acc, id),
    ensures
        acc_has_id(acc.push(t), id),
{
    let j2 = choose|j2: int| 0 <= j2 < acc.len() && acc[j2].id == id;
    assert(acc.push(t)[j2].id == id);
}

/// Rebuilds the nested task entities from a flat stream of join rows: one
/// task per distinct task id, in first-appearance order, each holding its
/// labels in row order.
pub fn fold_entities(rows: Vec<TaskWithLabelFromRow>) -> (res: Vec<TaskEntity>)
    requires
        rows_wf(rows.deep_view()),
    ensures
        res.deep_view() == fold_rows(rows.deep_view()),
{
    let ghost rws = rows.deep_view();
    let mut accum: Vec<TaskEntity> = Vec::new();
    let mut i: usize = 0;
    while i < rows.len()
        invariant
            i <= rows.len(),
            rows.deep_view() == rws,
            rows_wf(rws),
            accum.deep_view() == fold_rows_from(
                Seq::<TaskEntityView>::empty(),
                rws.take(i as int),
            ),
            forall|j2: int|
                0 <= j2 < accum.deep_view().len() ==> rows_have_id(
                    rws,
                    i as int,
                    #[trigger] accum.deep_view()[j2].id,
                ),
            forall|k: int| 0 <= k < i ==> acc_has_id(accum.deep_view(), #[trigger] rws[k].id),
        decreases rows.len() - i,
    {
        let ghost acc0 = accum.deep_view();
        let row_id = rows[i].id;
        // scan the accumulator for a task already holding this id
        let mut j: usize = 0;
        let mut found = false;
        while j < accum.len() && !found
            invariant
                j <= accum.len(),
                accum.deep_view() == acc0,
                !found ==> forall|k: int| 0 <= k < j ==> acc0[k].id != row_id,
                found ==> j >= 1 && j - 1 < acc0.len() && acc0[j - 1].id == row_id && forall|
                    k: int,
                |
                    0 <= k < j - 1 ==> acc0[k].id != row_id,
            decreases accum.len() - j + (if found {
                0int
            } else {
                1int
            }),
        {
            if accum[j].id == row_id {
                found = true;
            }
            j += 1;
        }
        if found {
            // a repeated task id only occurs when the task has several
            // labels, so this row's label fields are present
            proof {
                lemma_entity_idx_at(acc0, row_id, j - 1 as int);
                assert(rows_have_id(rws, i as int, acc0[j - 1 as int].id));
                let k = choose|k: int| 0 <= k < i && rws[k].id == row_id;
                assert(rws[i as int].label_id is Some);
            }
            let lid = match rows[i].label_id {
                Some(v) => v,
                None => unreached(),
            };
            let lname = match &rows[i].label_name {
                Some(n) => n.clone(),
                None => unreached(),
            };
            let mut entry = accum[j - 1].clone();
            let ghost labels0 = entry.labels.deep_view();
            entry.labels.push(Label { id: lid, name: lname });
            accum.set(j - 1, entry);
            proof {
                assert(accum.deep_view()[j - 1 as int].labels =~= labels0.push(
                    row_label(rws[i as int]),
                ));
                assert(accum.deep_view() =~~= fold_step(acc0, rws[i as int]));
                assert forall|k: int| 0 <= k < i + 1 implies acc_has_id(
                    accum.deep_view(),
                    #[trigger] rws[k].id,
                ) by {
                    if k < i {
                        lemma_acc_has_id_update(
                            acc0,
                            j - 1 as int,
                            accum.deep_view()[j - 1 as int],
                            rws[k].id,
                        );
                    } else {
                        assert(accum.deep_view()[j - 1 as int].id == row_id);
                    }
                }
                assert forall|j2: int| 0 <= j2 < accum.deep_view().len() implies rows_have_id(
                    rws,
                    i + 1 as int,
                    #[trigger] accum.deep_view()[j2].id,
                ) by {
                    if j2 == j - 1 {
                        lemma_rows_have_id_mono(rws, i as int, i + 1 as int, row_id);
                    } else {
                        lemma_rows_have_id_mono(rws, i as int, i + 1 as int, acc0[j2].id);
                    }
                }
            }
        } else {
            proof {
                lemma_entity_idx_none(acc0, row_id);
            }
            let labels = match rows[i].label_id {
                Some(lid) => {
                    let lname = match &rows[i].label_name {
                        Some(n) => n.clone(),
                        None => unreached(),
                    };
                    let mut one: Vec<Label> = Vec::new();
                    one.push(Label { id: lid, name: lname });
                    one
                },
                None => Vec::new(),
            };
            proof {
                assert(labels.deep_view() =~= (if rws[i as int].label_id is Some {
                    seq![row_label(rws[i as int])]
                } else {
                    Seq::<LabelView>::empty()
                }));
            }
            accum.push(
                TaskEntity {
                    id: row_id,
                    text: rows[i].text.clone(),
                    completed: rows[i].completed,
                    labels,
                },
            );
            proof {
                assert(accum.deep_view() =~~= fold_step(acc0, rws[i as int]));
                assert forall|k: int| 0 <= k < i + 1 implies acc_has_id(
                    accum.deep_view(),
                    #[trigger] rws[k].id,
                ) by {
                    if k < i {
                        lemma_acc_has_id_push(acc0, accum.deep_view()[acc0.len() as int], rws[k].id);
                    } else {
                        assert(accum.deep_view()[acc0.len() as int].id == row_id);
                    }
                }
                assert forall|j2: int| 0 <= j2 < accum.deep_view().len() implies rows_have_id(
                    rws,
                    i + 1 as int,
                    #[trigger] accum.deep_view()[j2].id,
                ) by {
                    if j2 == acc0.len() {
                        assert(rws[i as int].id == row_id);
                    } else {
                        lemma_rows_have_id_mono(rws, i as int, i + 1 as int, acc0[j2].id);
                    }
                }
            }
        }
        proof {
            lemma_fold_rows_from_push(
                Seq::<TaskEntityView>::empty(),
                rws.take(i as int),
                rws[i as int],
            );
            assert(rws.take(i as int).push(rws[i as int]) =~= rws.take(i + 1 as int));
        }
        i += 1;
    }
    proof {
        assert(rws.take(i as int) =~= rws);
    }
    accum
}

} // verus!
