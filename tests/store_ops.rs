use task_store::store::TaskStore;
use task_store::task::{validate_title, AppError, CreateTaskRequest, UpdateTaskRequest};

fn create_req(title: &str, description: Option<&str>) -> CreateTaskRequest {
    CreateTaskRequest {
        title: title.to_string(),
        description: description.map(|d| d.to_string()),
    }
}

fn complete_only() -> UpdateTaskRequest {
    UpdateTaskRequest {
        title: None,
        description: None,
        completed: Some(true),
    }
}

#[test]
fn insert_task_builds_exact_record() {
    let mut store = TaskStore::new();
    let t = store.insert_task(7, 1000, create_req("Buy milk", None)).unwrap();
    assert_eq!(t.id, 7);
    assert_eq!(t.title, "Buy milk");
    assert_eq!(t.description, None);
    assert!(!t.completed);
    assert_eq!(t.created_at, 1000);
    assert_eq!(t.updated_at, 1000);
    assert_eq!(store.len(), 1);
}

#[test]
fn insert_task_rejects_issued_id_even_after_delete() {
    let mut store = TaskStore::new();
    store.insert_task(7, 1, create_req("a", None)).unwrap();
    assert_eq!(store.insert_task(7, 2, create_req("b", None)), Err(AppError::Internal));
    store.delete(7).unwrap();
    assert_eq!(store.insert_task(7, 3, create_req("c", None)), Err(AppError::Internal));
    assert_eq!(store.len(), 0);
}

#[test]
fn title_length_bounds() {
    assert!(!validate_title(&String::new()));
    assert!(validate_title(&"x".to_string()));
    assert!(validate_title(&"x".repeat(255)));
    assert!(!validate_title(&"x".repeat(256)));
    // characters, not bytes, are counted
    assert!(validate_title(&"é".repeat(255)));
}

#[test]
fn create_with_long_title_fails() {
    let mut store = TaskStore::new();
    let r = store.create(create_req(&"x".repeat(256), None));
    assert_eq!(r, Err(AppError::Validation));
    assert_eq!(store.len(), 0);
}

#[test]
fn create_with_empty_title_leaves_store_unchanged() {
    let mut store = TaskStore::new();
    store.create(create_req("first", None)).unwrap();
    let r = store.create(create_req("", Some("d")));
    assert_eq!(r, Err(AppError::Validation));
    assert_eq!(store.list().len(), 1);
}

#[test]
fn created_ids_are_distinct() {
    let mut store = TaskStore::new();
    let mut ids = Vec::new();
    for k in 0..50 {
        let t = store.create(create_req(&format!("task {}", k), None)).unwrap();
        ids.push(t.id);
    }
    for a in 0..ids.len() {
        for b in (a + 1)..ids.len() {
            assert_ne!(ids[a], ids[b]);
        }
    }
}

#[test]
fn created_id_is_a_version_four_uuid() {
    let mut store = TaskStore::new();
    let t = store.create(create_req("x", None)).unwrap();
    assert_eq!((t.id >> 76) & 0xF, 4);
    assert_eq!((t.id >> 62) & 0x3, 2);
}

#[test]
fn create_stamps_current_time() {
    let mut store = TaskStore::new();
    let t = store.create(create_req("x", None)).unwrap();
    // later than 2020-01-01T00:00:00Z, in microseconds
    assert!(t.created_at > 1_577_836_800_000_000);
    assert_eq!(t.created_at, t.updated_at);
}

#[test]
fn create_then_get_returns_same_record() {
    let mut store = TaskStore::new();
    let t = store.create(create_req("Write report", Some("by Friday"))).unwrap();
    assert_eq!(store.get(t.id), Ok(t));
}

#[test]
fn get_unknown_id_is_not_found() {
    let store = TaskStore::new();
    assert_eq!(store.get(42), Err(AppError::NotFound));
}

#[test]
fn list_orders_by_creation_then_insertion() {
    let mut store = TaskStore::new();
    store.insert_task(1, 50, create_req("a", None)).unwrap();
    store.insert_task(2, 30, create_req("b", None)).unwrap();
    store.insert_task(3, 50, create_req("c", None)).unwrap();
    store.insert_task(4, 10, create_req("d", None)).unwrap();
    let ids: Vec<u128> = store.list().iter().map(|t| t.id).collect();
    assert_eq!(ids, vec![4, 2, 1, 3]);
}

#[test]
fn list_of_empty_store_is_empty() {
    let store = TaskStore::new();
    assert!(store.list().is_empty());
}

#[test]
fn update_complete_only_keeps_other_fields() {
    let mut store = TaskStore::new();
    store.insert_task(9, 100, create_req("Buy milk", Some("2 litres"))).unwrap();
    let t = store.update_at(9, 250, complete_only()).unwrap();
    assert!(t.completed);
    assert_eq!(t.title, "Buy milk");
    assert_eq!(t.description, Some("2 litres".to_string()));
    assert_eq!(t.created_at, 100);
    assert_eq!(t.updated_at, 250);
    assert_eq!(store.get(9), Ok(t));
}

#[test]
fn update_never_moves_time_back() {
    let mut store = TaskStore::new();
    store.insert_task(9, 100, create_req("a", None)).unwrap();
    let t = store.update_at(9, 40, complete_only()).unwrap();
    assert_eq!(t.updated_at, 100);
}

#[test]
fn update_applies_supplied_fields() {
    let mut store = TaskStore::new();
    store.insert_task(5, 1, create_req("old", Some("desc"))).unwrap();
    let req = UpdateTaskRequest {
        title: Some("new".to_string()),
        description: None,
        completed: None,
    };
    let t = store.update_at(5, 2, req).unwrap();
    assert_eq!(t.title, "new");
    assert_eq!(t.description, Some("desc".to_string()));
    assert!(!t.completed);
    let req = UpdateTaskRequest {
        title: None,
        description: Some("other".to_string()),
        completed: Some(false),
    };
    let t = store.update_at(5, 3, req).unwrap();
    assert_eq!(t.title, "new");
    assert_eq!(t.description, Some("other".to_string()));
}

#[test]
fn update_with_bad_title_changes_nothing() {
    let mut store = TaskStore::new();
    store.insert_task(5, 1, create_req("keep", None)).unwrap();
    let req = UpdateTaskRequest {
        title: Some(String::new()),
        description: Some("x".to_string()),
        completed: Some(true),
    };
    assert_eq!(store.update_at(5, 2, req), Err(AppError::Validation));
    let t = store.get(5).unwrap();
    assert_eq!(t.title, "keep");
    assert_eq!(t.description, None);
    assert!(!t.completed);
    assert_eq!(t.updated_at, 1);
}

#[test]
fn update_unknown_id_is_not_found() {
    let mut store = TaskStore::new();
    assert_eq!(store.update(3, complete_only()), Err(AppError::NotFound));
}

#[test]
fn update_with_clock_moves_forward() {
    let mut store = TaskStore::new();
    store.insert_task(5, 1, create_req("a", None)).unwrap();
    let t = store.update(5, complete_only()).unwrap();
    assert!(t.updated_at > 1);
    assert!(t.completed);
}

#[test]
fn delete_then_get_is_not_found() {
    let mut store = TaskStore::new();
    let t = store.create(create_req("gone", None)).unwrap();
    assert_eq!(store.delete(t.id), Ok(()));
    assert_eq!(store.get(t.id), Err(AppError::NotFound));
    assert_eq!(store.delete(t.id), Err(AppError::NotFound));
}

#[test]
fn error_status_codes_and_messages() {
    assert_eq!(AppError::Validation.status_code(), 422);
    assert_eq!(AppError::NotFound.status_code(), 404);
    assert_eq!(AppError::Internal.status_code(), 500);
    assert_eq!(AppError::NotFound.message(), "Task not found");
    assert_eq!(
        AppError::Validation.message(),
        "Title must be between 1 and 255 characters"
    );
    assert_eq!(AppError::Internal.message(), "Internal server error");
}
