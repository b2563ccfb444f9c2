use staffing::model::{Project, grow_entry, skill_lookup};
use staffing::queue::PendingQueue;

fn project(name: &str, duration: usize, score: usize, before: usize) -> Project {
    Project {
        name: name.to_string(),
        duration,
        score,
        before,
        roles: Vec::new(),
    }
}

#[test]
fn extract_max_empty() {
    let mut q = PendingQueue::new();
    assert_eq!(q.len(), 0);
    assert!(q.extract_max().is_none());
}

#[test]
fn extract_max_orders_by_priority() {
    let mut q = PendingQueue::new();
    q.insert(project("low", 1, 3, 0), 0);
    q.insert(project("high", 1, 9, 0), 0);
    q.insert(project("mid", 1, 5, 0), 0);
    let w = q.extract_max().unwrap();
    assert_eq!(w.project.name, "high");
    assert_eq!(w.score, 9);
    let w = q.extract_max().unwrap();
    assert_eq!(w.project.name, "mid");
    let w = q.extract_max().unwrap();
    assert_eq!(w.project.name, "low");
    assert!(q.extract_max().is_none());
}

#[test]
fn extract_max_fifo_on_ties() {
    let mut q = PendingQueue::new();
    q.insert(project("first", 1, 7, 0), 0);
    q.insert(project("second", 1, 7, 0), 0);
    let w = q.extract_max().unwrap();
    assert_eq!(w.project.name, "first");
    let w = q.extract_max().unwrap();
    assert_eq!(w.project.name, "second");
}

#[test]
fn insert_computes_urgency_adjusted_priority() {
    let mut q = PendingQueue::new();
    // base score 4, deadline 6, inserted on day 2: priority 4 + (6 - 2)
    q.insert(project("p", 1, 4, 6), 2);
    let w = q.extract_max().unwrap();
    assert_eq!(w.score, 8);
}

#[test]
fn skill_lookup_first_match() {
    let skills = vec![("cook".to_string(), 2usize), ("serve".to_string(), 1usize)];
    assert_eq!(skill_lookup(&skills, &"cook".to_string()), Some(2));
    assert_eq!(skill_lookup(&skills, &"serve".to_string()), Some(1));
    assert_eq!(skill_lookup(&skills, &"pilot".to_string()), None);
}

#[test]
fn grow_entry_at_or_below_requirement() {
    let mut skills = vec![("cook".to_string(), 2usize)];
    grow_entry(&mut skills, &"cook".to_string(), 2);
    assert_eq!(skill_lookup(&skills, &"cook".to_string()), Some(3));
    grow_entry(&mut skills, &"cook".to_string(), 5);
    assert_eq!(skill_lookup(&skills, &"cook".to_string()), Some(4));
}

#[test]
fn grow_entry_above_requirement_is_capped() {
    let mut skills = vec![("cook".to_string(), 4usize)];
    grow_entry(&mut skills, &"cook".to_string(), 2);
    assert_eq!(skill_lookup(&skills, &"cook".to_string()), Some(4));
}

#[test]
fn grow_entry_missing_skill_starts_at_one() {
    let mut skills: Vec<(String, usize)> = Vec::new();
    grow_entry(&mut skills, &"cook".to_string(), 3);
    assert_eq!(skill_lookup(&skills, &"cook".to_string()), Some(1));
}
