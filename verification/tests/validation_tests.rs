use my_todo::tasks::{CreateTask, Task, TaskEntity, UpdateTask};
use my_todo::tasks::merged_row;
use my_todo::validation::{Validate, ValidatedJson};

#[test]
fn create_task_text_must_not_be_empty() {
    let payload = CreateTask {
        text: String::new(),
        labels: vec![],
    };
    assert!(!payload.validate());
    assert!(ValidatedJson::new(payload).is_err());
}

#[test]
fn create_task_text_up_to_hundred_chars_is_valid() {
    let payload = CreateTask {
        text: "a".repeat(100),
        labels: vec![],
    };
    assert!(payload.validate());
    let wrapped = ValidatedJson::new(payload).expect("should validate");
    assert_eq!(wrapped.0.text.len(), 100);
}

#[test]
fn create_task_text_over_hundred_chars_is_invalid() {
    let payload = CreateTask {
        text: "a".repeat(101),
        labels: vec![],
    };
    assert!(!payload.validate());
}

#[test]
fn update_task_without_text_is_valid() {
    let payload = UpdateTask {
        text: None,
        completed: Some(true),
        labels: None,
    };
    assert!(payload.validate());
}

#[test]
fn update_task_with_empty_text_is_invalid() {
    let payload = UpdateTask {
        text: Some(String::new()),
        completed: None,
        labels: None,
    };
    assert!(!payload.validate());
}

#[test]
fn merged_row_keeps_absent_fields() {
    let current = TaskEntity {
        id: 6,
        text: "as it was".to_string(),
        completed: false,
        labels: vec![],
    };
    let unchanged = merged_row(
        &current,
        &UpdateTask {
            text: None,
            completed: None,
            labels: None,
        },
    );
    assert_eq!(
        unchanged,
        Task {
            id: 6,
            text: "as it was".to_string(),
            completed: false,
        }
    );
    let changed = merged_row(
        &current,
        &UpdateTask {
            text: Some("new words".to_string()),
            completed: Some(true),
            labels: None,
        },
    );
    assert_eq!(
        changed,
        Task {
            id: 6,
            text: "new words".to_string(),
            completed: true,
        }
    );
}
