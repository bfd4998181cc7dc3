use my_todo::fold::{first_folded, fold_entities, TaskWithLabelFromRow};
use my_todo::errors::RepositoryError;
use my_todo::labels::Label;
use my_todo::tasks::TaskEntity;

#[test]
fn fold_entities_test() {
    let label_1 = Label {
        id: 1,
        name: String::from("label 1"),
    };
    let label_2 = Label {
        id: 2,
        name: String::from("label 2"),
    };
    let rows = vec![
        TaskWithLabelFromRow {
            id: 1,
            text: String::from("task 1"),
            completed: false,
            label_id: Some(label_1.id),
            label_name: Some(label_1.name.clone()),
        },
        TaskWithLabelFromRow {
            id: 1,
            text: String::from("task 1"),
            completed: false,
            label_id: Some(label_2.id),
            label_name: Some(label_2.name.clone()),
        },
        TaskWithLabelFromRow {
            id: 2,
            text: String::from("task 2"),
            completed: false,
            label_id: Some(label_1.id),
            label_name: Some(label_1.name.clone()),
        },
    ];

    let res = fold_entities(rows);
    assert_eq!(
        res,
        vec![
            TaskEntity {
                id: 1,
                text: String::from("task 1"),
                completed: false,
                labels: vec![label_1.clone(), label_2.clone()],
            },
            TaskEntity {
                id: 2,
                text: String::from("task 2"),
                completed: false,
                labels: vec![label_1],
            },
        ]
    );
}

#[test]
fn fold_no_rows_yields_no_tasks() {
    let res = fold_entities(Vec::new());
    assert_eq!(res, Vec::<TaskEntity>::new());
}

#[test]
fn fold_single_null_row_yields_one_task_without_labels() {
    let rows = vec![TaskWithLabelFromRow {
        id: 7,
        text: String::from("solo"),
        completed: true,
        label_id: None,
        label_name: None,
    }];
    let res = fold_entities(rows);
    assert_eq!(
        res,
        vec![TaskEntity {
            id: 7,
            text: String::from("solo"),
            completed: true,
            labels: vec![],
        }]
    );
}

#[test]
fn fold_many_rows_one_task_keeps_label_order() {
    let mut rows = Vec::new();
    let mut expected_labels = Vec::new();
    for n in 1..=5 {
        rows.push(TaskWithLabelFromRow {
            id: 3,
            text: String::from("listy"),
            completed: false,
            label_id: Some(n),
            label_name: Some(format!("label {}", n)),
        });
        expected_labels.push(Label {
            id: n,
            name: format!("label {}", n),
        });
    }
    let res = fold_entities(rows);
    assert_eq!(
        res,
        vec![TaskEntity {
            id: 3,
            text: String::from("listy"),
            completed: false,
            labels: expected_labels,
        }]
    );
}

#[test]
fn first_folded_returns_first_task() {
    let rows = vec![TaskWithLabelFromRow {
        id: 4,
        text: String::from("pick me"),
        completed: false,
        label_id: None,
        label_name: None,
    }];
    let res = first_folded(rows, 4).expect("expected a task");
    assert_eq!(res.id, 4);
    assert_eq!(res.text, "pick me");
    assert!(res.labels.is_empty());
}

#[test]
fn first_folded_empty_rows_is_not_found() {
    let res = first_folded(Vec::new(), 9);
    assert_eq!(res.unwrap_err(), RepositoryError::NotFound(9));
}
