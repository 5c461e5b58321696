use sigyn::error::AppError;
use sigyn::model::CreateProjectInput;
use sigyn::session::{AppRuntime, SessionCache, SESSION_IDLE_TIMEOUT_MS};
use sigyn::store::Store;

#[test]
fn new_session_is_locked() {
    let mut s = SessionCache::new();
    assert!(!s.is_unlocked(0));
    assert_eq!(s.cloned_key(0), None);
    assert!(!s.touch(5));
}

#[test]
fn stored_key_is_kept_until_idle_timeout() {
    let mut s = SessionCache::new();
    s.store_key(vec![1, 2, 3], 1_000);
    assert!(s.is_unlocked(1_000 + SESSION_IDLE_TIMEOUT_MS - 1));
    assert_eq!(s.cloned_key(1_000 + SESSION_IDLE_TIMEOUT_MS - 1), Some(vec![1, 2, 3]));
    assert!(!s.is_unlocked(1_000 + SESSION_IDLE_TIMEOUT_MS));
    assert_eq!(s.cloned_key(1_000 + SESSION_IDLE_TIMEOUT_MS), None);
}

#[test]
fn activity_postpones_expiry() {
    let mut s = SessionCache::new();
    s.store_key(vec![7], 0);
    assert!(s.touch(200_000));
    assert!(!s.expire_if_idle(400_000));
    assert!(s.is_unlocked(499_999));
    assert!(s.expire_if_idle(500_000));
    assert!(!s.is_unlocked(500_000));
}

#[test]
fn lock_drops_the_key() {
    let mut s = SessionCache::new();
    s.store_key(vec![9; 32], 10);
    s.lock();
    assert!(!s.is_unlocked(11));
    assert!(!s.touch(12));
}

#[test]
fn idle_timeout_is_five_minutes() {
    assert_eq!(SESSION_IDLE_TIMEOUT_MS, 5 * 60 * 1000);
}

#[test]
fn runtime_shows_entries_only_while_unlocked() {
    let mut store = Store::new();
    let s = store
        .create_project(CreateProjectInput { name: "P".to_string(), supported_environments: vec!["dev".to_string()], working_directory: None })
        .ok()
        .unwrap();
    assert_eq!(s.projects.len(), 1);
    let mut rt = AppRuntime::new();
    let snap = rt.snapshot(&store, 0);
    assert!(snap.locked);
    assert!(!rt.ensure_unlocked(0));
    match rt.unlocked_key(0) {
        Err(AppError::Locked) => {},
        _ => panic!("expected locked"),
    }
    assert!(!rt.refresh_activity(0));
    rt.session.store_key(vec![5; 32], 100);
    let snap = rt.snapshot(&store, 200);
    assert!(!snap.locked);
    assert!(rt.ensure_unlocked(300));
    assert_eq!(rt.unlocked_key(400).ok(), Some(vec![5; 32]));
    assert!(rt.refresh_activity(400 + SESSION_IDLE_TIMEOUT_MS - 1));
    assert!(!rt.refresh_activity(400 + 2 * SESSION_IDLE_TIMEOUT_MS));
    rt.session.store_key(vec![6; 32], 0);
    rt.lock();
    assert!(rt.snapshot(&store, 1).locked);
}
