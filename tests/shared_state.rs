use std::sync::Arc;

use tokio::sync::Mutex;

use task_store::state::{create_task, delete_task, get_task, list_tasks, update_task, AppState};
use task_store::task::{AppError, CreateTaskRequest, UpdateTaskRequest};

fn create_req(title: &str) -> CreateTaskRequest {
    CreateTaskRequest {
        title: title.to_string(),
        description: None,
    }
}

#[test]
fn buy_milk_lifecycle() {
    let mut state = AppState::new();
    let created = create_task(&mut state, create_req("Buy milk")).unwrap();
    assert!(!created.completed);
    assert_eq!(created.description, None);
    assert_eq!(created.title, "Buy milk");

    let req = UpdateTaskRequest {
        title: None,
        description: None,
        completed: Some(true),
    };
    let updated = update_task(&mut state, created.id, req).unwrap();
    assert!(updated.completed);
    assert_eq!(updated.title, "Buy milk");
    assert!(updated.updated_at >= created.updated_at);

    assert_eq!(delete_task(&mut state, created.id), Ok(()));
    let r = get_task(&state, created.id);
    assert_eq!(r, Err(AppError::NotFound));
    assert_eq!(r.unwrap_err().status_code(), 404);
}

#[test]
fn empty_title_rejected_and_list_unchanged() {
    let mut state = AppState::new();
    create_task(&mut state, create_req("existing")).unwrap();
    let before = list_tasks(&state).len();
    let r = create_task(&mut state, create_req(""));
    assert_eq!(r, Err(AppError::Validation));
    assert_eq!(r.unwrap_err().status_code(), 422);
    assert_eq!(list_tasks(&state).len(), before);
}

#[test]
fn update_of_missing_task_is_not_found() {
    let mut state = AppState::new();
    let req = UpdateTaskRequest {
        title: Some("x".to_string()),
        description: None,
        completed: None,
    };
    assert_eq!(update_task(&mut state, 1, req), Err(AppError::NotFound));
}

#[test]
fn list_is_sorted_by_creation_time() {
    let mut state = AppState::new();
    for k in 0..20 {
        create_task(&mut state, create_req(&format!("t{}", k))).unwrap();
    }
    let all = list_tasks(&state);
    assert_eq!(all.len(), 20);
    for k in 1..all.len() {
        assert!(all[k - 1].created_at <= all[k].created_at);
    }
}

#[test]
fn concurrent_creates_all_land_with_distinct_ids() {
    let n: usize = 64;
    let state = Arc::new(Mutex::new(AppState::new()));
    let rt = tokio::runtime::Builder::new_multi_thread()
        .worker_threads(4)
        .build()
        .unwrap();
    let mut handles = Vec::new();
    for k in 0..n {
        let s = state.clone();
        handles.push(rt.spawn(async move {
            let mut guard = s.lock().await;
            create_task(&mut guard, create_req(&format!("task {}", k)))
        }));
    }
    let mut ids = Vec::new();
    for h in handles {
        let t = rt.block_on(h).unwrap().unwrap();
        ids.push(t.id);
    }
    let all = rt.block_on(async { list_tasks(&*state.lock().await) });
    assert_eq!(all.len(), n);
    let mut listed: Vec<u128> = all.iter().map(|t| t.id).collect();
    listed.sort();
    listed.dedup();
    assert_eq!(listed.len(), n);
    ids.sort();
    assert_eq!(ids, listed);
}

#[test]
fn create_with_255_non_ascii_chars_succeeds() {
    let mut state = AppState::new();
    let title = "é".repeat(255);
    let req = CreateTaskRequest {
        title: title.clone(),
        description: Some("x".to_string()),
    };
    let t = create_task(&mut state, req).unwrap();
    assert_eq!(t.title, title);
    assert_eq!(t.description, Some("x".to_string()));
    assert!(!t.completed);
    assert_eq!(t.created_at, t.updated_at);
    assert_eq!(list_tasks(&state).len(), 1);
}

#[test]
fn new_state_lists_nothing() {
    let state = AppState::new();
    assert!(list_tasks(&state).is_empty());
    assert_eq!(get_task(&state, 0), Err(AppError::NotFound));
}

#[test]
fn state_create_then_get_returns_same_record() {
    let mut state = AppState::new();
    let t = create_task(&mut state, create_req("Read book")).unwrap();
    assert_eq!(get_task(&state, t.id), Ok(t));
}

#[test]
fn state_update_with_empty_title_leaves_record_untouched() {
    let mut state = AppState::new();
    let t = create_task(&mut state, create_req("keep me")).unwrap();
    let req = UpdateTaskRequest {
        title: Some(String::new()),
        description: Some("changed".to_string()),
        completed: Some(true),
    };
    assert_eq!(update_task(&mut state, t.id, req), Err(AppError::Validation));
    assert_eq!(get_task(&state, t.id), Ok(t));
}

#[test]
fn state_second_delete_fails() {
    let mut state = AppState::new();
    let t = create_task(&mut state, create_req("once")).unwrap();
    assert_eq!(delete_task(&mut state, t.id), Ok(()));
    assert_eq!(delete_task(&mut state, t.id), Err(AppError::NotFound));
    assert!(list_tasks(&state).is_empty());
}
