use my_todo::errors::RepositoryError;
use my_todo::labels::{ensure_name_free, Label, LabelRepository, LabelRepositoryForMemory};
use my_todo::task_store::{TaskRepository, TaskRepositoryForMemory};
use my_todo::tasks::{CreateTask, TaskEntity, UpdateTask};

#[test]
fn task_task_crud_scenario() {
    let text = "task text".to_string();
    let id = 1;
    let label_data = Label {
        id: 1,
        name: "test label".to_string(),
    };
    let labels = vec![label_data.clone()];
    let expected = TaskEntity {
        id,
        text: text.clone(),
        completed: false,
        labels: labels.clone(),
    };

    // create
    let mut repository = TaskRepositoryForMemory::new(labels.clone());
    let task = repository
        .create(CreateTask {
            text,
            labels: vec![label_data.id],
        })
        .expect("failed create task");
    assert_eq!(expected, task);

    // find
    let task = repository.find(task.id).unwrap();
    assert_eq!(expected, task);

    // all
    let tasks = repository.all().expect("failed get all task");
    assert_eq!(vec![expected], tasks);

    // update
    let text = "update task text".to_string();
    let task = repository
        .update(
            1,
            UpdateTask {
                text: Some(text.clone()),
                completed: Some(true),
                labels: Some(vec![]),
            },
        )
        .expect("failed update task.");
    assert_eq!(
        TaskEntity {
            id,
            text,
            completed: true,
            labels: vec![],
        },
        task
    );

    // delete
    let res = repository.delete(id);
    assert!(res.is_ok());
}

#[test]
fn repositories_task_crud_scenario() {
    let text = "task text".to_string();
    let id = 1;
    let expected = TaskEntity {
        id,
        text: text.clone(),
        completed: false,
        labels: vec![],
    };
    let mut repository = TaskRepositoryForMemory::new(vec![]);

    // create
    let task = repository
        .create(CreateTask {
            text,
            labels: vec![],
        })
        .expect("failed create task");
    assert_eq!(expected, task);

    // find
    let task = repository.find(task.id).unwrap();
    assert_eq!(expected, task);

    // all
    let tasks = repository.all().expect("failed get all task");
    assert_eq!(vec![expected], tasks);

    // update
    let text = "update task text".to_string();
    let task = repository
        .update(
            1,
            UpdateTask {
                text: Some(text.clone()),
                completed: Some(true),
                labels: None,
            },
        )
        .expect("failed update task.");
    assert_eq!(
        TaskEntity {
            id,
            text,
            completed: true,
            labels: vec![],
        },
        task
    );

    // delete
    let res = repository.delete(id);
    assert!(res.is_ok());
}

#[test]
fn label_crud_scenario() {
    let name = "label name".to_string();
    let id = 1;
    let expected = Label {
        id,
        name: name.clone(),
    };
    let mut repository = LabelRepositoryForMemory::new();

    // create
    let label = repository.create(name).expect("failed create label");
    assert_eq!(expected, label);

    // all
    let labels = repository.all().expect("failed get all label");
    assert_eq!(vec![expected], labels);

    // delete
    let res = repository.delete(id);
    assert!(res.is_ok());
}

// The concrete end-to-end scenario: ids are handed out from one, labels are
// embedded as resolved at write time, and deleting a label does not cascade
// into tasks that already carry it (the documented no-cascade policy).
#[test]
fn concrete_scenario() {
    let urgent = Label {
        id: 1,
        name: "urgent".to_string(),
    };
    let mut label_repo = LabelRepositoryForMemory::new();
    let mut task_repo = TaskRepositoryForMemory::new(vec![urgent.clone()]);

    let task_1 = task_repo
        .create(CreateTask {
            text: "buy milk".to_string(),
            labels: vec![],
        })
        .unwrap();
    assert_eq!(
        task_1,
        TaskEntity {
            id: 1,
            text: "buy milk".to_string(),
            completed: false,
            labels: vec![],
        }
    );

    let label = label_repo.create("urgent".to_string()).unwrap();
    assert_eq!(label, urgent);

    let task_2 = task_repo
        .create(CreateTask {
            text: "ship it".to_string(),
            labels: vec![1],
        })
        .unwrap();
    assert_eq!(
        task_2,
        TaskEntity {
            id: 2,
            text: "ship it".to_string(),
            completed: false,
            labels: vec![urgent.clone()],
        }
    );

    let task_2 = task_repo
        .update(
            2,
            UpdateTask {
                text: None,
                completed: Some(true),
                labels: None,
            },
        )
        .unwrap();
    assert_eq!(task_2.completed, true);
    assert_eq!(task_2.text, "ship it");
    assert_eq!(task_2.labels, vec![urgent.clone()]);

    label_repo.delete(1).unwrap();
    // no cascade: the task keeps the label it resolved at write time
    let task_2 = task_repo.find(2).unwrap();
    assert_eq!(task_2.labels, vec![urgent]);
}

#[test]
fn create_then_find_round_trip() {
    let mut repo = TaskRepositoryForMemory::new(vec![Label {
        id: 3,
        name: "later".to_string(),
    }]);
    let created = repo
        .create(CreateTask {
            text: "round trip".to_string(),
            labels: vec![3],
        })
        .unwrap();
    let found = repo.find(created.id).unwrap();
    assert_eq!(created, found);
}

#[test]
fn find_twice_returns_identical_results() {
    let mut repo = TaskRepositoryForMemory::new(vec![]);
    repo.create(CreateTask {
        text: "steady".to_string(),
        labels: vec![],
    })
    .unwrap();
    let first = repo.find(1).unwrap();
    let second = repo.find(1).unwrap();
    assert_eq!(first, second);
    let missing_first = repo.find(2).unwrap_err();
    let missing_second = repo.find(2).unwrap_err();
    assert_eq!(missing_first, missing_second);
}

#[test]
fn update_with_no_fields_leaves_task_unchanged() {
    let mut repo = TaskRepositoryForMemory::new(vec![Label {
        id: 1,
        name: "keep".to_string(),
    }]);
    let created = repo
        .create(CreateTask {
            text: "unchanged".to_string(),
            labels: vec![1],
        })
        .unwrap();
    let updated = repo
        .update(
            created.id,
            UpdateTask {
                text: None,
                completed: None,
                labels: None,
            },
        )
        .unwrap();
    assert_eq!(created, updated);
    assert_eq!(repo.find(created.id).unwrap(), created);
}

#[test]
fn update_with_empty_label_list_clears_labels() {
    let mut repo = TaskRepositoryForMemory::new(vec![Label {
        id: 1,
        name: "gone soon".to_string(),
    }]);
    let created = repo
        .create(CreateTask {
            text: "labelled".to_string(),
            labels: vec![1],
        })
        .unwrap();
    assert_eq!(created.labels.len(), 1);
    let updated = repo
        .update(
            created.id,
            UpdateTask {
                text: None,
                completed: None,
                labels: Some(vec![]),
            },
        )
        .unwrap();
    assert!(updated.labels.is_empty());
    assert!(repo.find(created.id).unwrap().labels.is_empty());
}

#[test]
fn delete_is_final() {
    let mut repo = TaskRepositoryForMemory::new(vec![]);
    repo.create(CreateTask {
        text: "short lived".to_string(),
        labels: vec![],
    })
    .unwrap();
    repo.delete(1).unwrap();
    assert_eq!(repo.find(1).unwrap_err(), RepositoryError::NotFound(1));
    assert_eq!(repo.delete(1).unwrap_err(), RepositoryError::NotFound(1));
}

#[test]
fn create_with_unknown_label_id_is_not_found() {
    let mut repo = TaskRepositoryForMemory::new(vec![Label {
        id: 1,
        name: "only one".to_string(),
    }]);
    let err = repo
        .create(CreateTask {
            text: "wants more".to_string(),
            labels: vec![1, 99],
        })
        .unwrap_err();
    assert_eq!(err, RepositoryError::NotFound(99));
    // the failed create left nothing behind
    assert_eq!(repo.all().unwrap(), Vec::<TaskEntity>::new());
}

#[test]
fn update_with_unknown_label_id_is_not_found() {
    let mut repo = TaskRepositoryForMemory::new(vec![]);
    let created = repo
        .create(CreateTask {
            text: "stays".to_string(),
            labels: vec![],
        })
        .unwrap();
    let err = repo
        .update(
            created.id,
            UpdateTask {
                text: Some("won't take".to_string()),
                completed: None,
                labels: Some(vec![5]),
            },
        )
        .unwrap_err();
    assert_eq!(err, RepositoryError::NotFound(5));
    assert_eq!(repo.find(created.id).unwrap(), created);
}

#[test]
fn update_of_missing_task_is_not_found() {
    let mut repo = TaskRepositoryForMemory::new(vec![]);
    let err = repo
        .update(
            42,
            UpdateTask {
                text: None,
                completed: Some(true),
                labels: None,
            },
        )
        .unwrap_err();
    assert_eq!(err, RepositoryError::NotFound(42));
}

#[test]
fn duplicate_label_name_is_rejected() {
    let mut repo = LabelRepositoryForMemory::new();
    let first = repo.create("twice".to_string()).unwrap();
    let err = repo.create("twice".to_string()).unwrap_err();
    assert_eq!(err, RepositoryError::Duplicate(first.id));
    assert_eq!(repo.all().unwrap().len(), 1);
}

#[test]
fn label_delete_of_missing_id_is_not_found() {
    let mut repo = LabelRepositoryForMemory::new();
    assert_eq!(repo.delete(8).unwrap_err(), RepositoryError::NotFound(8));
}

#[test]
fn all_returns_tasks_in_ascending_id_order() {
    let mut repo = TaskRepositoryForMemory::new(vec![]);
    for text in ["first", "second", "third"] {
        repo.create(CreateTask {
            text: text.to_string(),
            labels: vec![],
        })
        .unwrap();
    }
    let ids: Vec<i32> = repo.all().unwrap().iter().map(|t| t.id).collect();
    assert_eq!(ids, vec![1, 2, 3]);
}

#[test]
fn ensure_name_free_spots_the_existing_label() {
    let taken = Label {
        id: 4,
        name: "taken".to_string(),
    };
    assert_eq!(
        ensure_name_free(Some(&taken)).unwrap_err(),
        RepositoryError::Duplicate(4)
    );
    assert!(ensure_name_free(None).is_ok());
}
