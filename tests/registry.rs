use parallel_code::error::AppError;
use parallel_code::registry::{Poll, SessionRegistry};

#[test]
fn kill_unknown_is_noop_and_write_unknown_fails() {
    let mut r: SessionRegistry<u32> = SessionRegistry::new();
    r.insert("a".to_string(), 1);
    assert_eq!(r.remove(&"zzz".to_string()), None);
    assert_eq!(r.len(), 1);
    assert_eq!(r.lookup(&"zzz".to_string()), Err(AppError::SessionLookup("zzz".to_string())));
    assert_eq!(r.lookup(&"a".to_string()), Ok(&1));
}

#[test]
fn three_spawned_one_killed_counts_two() {
    let mut r: SessionRegistry<u32> = SessionRegistry::new();
    r.insert("a".to_string(), 1);
    r.insert("b".to_string(), 2);
    r.insert("c".to_string(), 3);
    assert_eq!(r.remove(&"b".to_string()), Some(2));
    let polls = vec![Poll::Running; r.len()];
    assert_eq!(r.retain_running(&polls), 2);
}

#[test]
fn exited_and_failed_polls_evict() {
    let mut r: SessionRegistry<u32> = SessionRegistry::new();
    r.insert("a".to_string(), 1);
    r.insert("b".to_string(), 2);
    r.insert("c".to_string(), 3);
    assert_eq!(r.retain_running(&vec![Poll::Exited, Poll::Running, Poll::Failed]), 1);
    assert_eq!(r.lookup(&"b".to_string()), Ok(&2));
    assert!(r.lookup(&"a".to_string()).is_err());
}

#[test]
fn duplicate_id_replaces_entry() {
    let mut r: SessionRegistry<u32> = SessionRegistry::new();
    assert_eq!(r.insert("a".to_string(), 1), None);
    assert_eq!(r.insert("a".to_string(), 9), Some(1));
    assert_eq!(r.len(), 1);
    assert_eq!(r.lookup(&"a".to_string()), Ok(&9));
}

#[test]
fn drain_takes_everything() {
    let mut r: SessionRegistry<u32> = SessionRegistry::new();
    r.insert("a".to_string(), 1);
    r.insert("b".to_string(), 2);
    let all = r.drain();
    assert_eq!(all, vec![("a".to_string(), 1), ("b".to_string(), 2)]);
    assert_eq!(r.len(), 0);
}
