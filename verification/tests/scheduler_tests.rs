use staffing::model::{Project, ProjectWrapper, Worker};
use staffing::scheduler::{Scheduler, simulate};

fn worker(name: &str, skills: &[(&str, usize)]) -> Worker {
    Worker {
        name: name.to_string(),
        skill: skills.iter().map(|(s, l)| (s.to_string(), *l)).collect(),
    }
}

fn project(name: &str, duration: usize, score: usize, before: usize, roles: &[(&str, usize)]) -> Project {
    Project {
        name: name.to_string(),
        duration,
        score,
        before,
        roles: roles.iter().map(|(s, l)| (s.to_string(), *l)).collect(),
    }
}

fn skill_of(w: &Worker, name: &str) -> Option<usize> {
    w.skill.iter().find(|(s, _)| s == name).map(|(_, l)| *l)
}

#[test]
fn trivial_single_match() {
    let workers = vec![worker("anna", &[("cook", 2)])];
    let projects = vec![project("meal", 1, 10, 5, &[("cook", 2)])];
    let s = simulate(workers, projects);
    assert_eq!(s.completed.len(), 1);
    assert_eq!(s.completed[0].project.name, "meal");
    assert_eq!(s.completed[0].started_at, 0);
    assert_eq!(s.completed[0].workers, vec!["anna".to_string()]);
    // at the requirement exactly, the level still grows by one: the cap only
    // stops growth for a worker already above the requirement
    assert_eq!(skill_of(&s.workers[0], "cook"), Some(3));
}

#[test]
fn overqualified_worker_does_not_grow() {
    let workers = vec![worker("anna", &[("cook", 5)])];
    let projects = vec![project("meal", 1, 10, 5, &[("cook", 2)])];
    let s = simulate(workers, projects);
    assert_eq!(s.completed.len(), 1);
    assert_eq!(skill_of(&s.workers[0], "cook"), Some(5));
}

#[test]
fn postponement_then_success() {
    // one worker busy on project a for 3 days; b needs the same worker and
    // no substitute exists: b is postponed three days, then staffed, never
    // lost
    let workers = vec![worker("anna", &[("cook", 2)])];
    let projects = vec![
        project("a", 3, 100, 10, &[("cook", 1)]),
        project("b", 1, 1, 10, &[("cook", 1)]),
    ];
    let s = simulate(workers, projects);
    assert_eq!(s.completed.len(), 2);
    assert_eq!(s.completed[0].project.name, "a");
    assert_eq!(s.completed[0].started_at, 0);
    assert_eq!(s.completed[1].project.name, "b");
    assert_eq!(s.completed[1].started_at, 3);
}

#[test]
fn permanently_unstaffable_terminates() {
    let workers = vec![worker("anna", &[("cook", 2)])];
    let projects = vec![project("flight", 2, 50, 9, &[("pilot", 1)])];
    let s = simulate(workers, projects);
    assert_eq!(s.completed.len(), 0);
}

#[test]
fn unstaffable_does_not_block_others() {
    let workers = vec![worker("anna", &[("cook", 2)])];
    let projects = vec![
        project("flight", 2, 500, 9, &[("pilot", 1)]),
        project("meal", 1, 10, 5, &[("cook", 1)]),
    ];
    let s = simulate(workers, projects);
    assert_eq!(s.completed.len(), 1);
    assert_eq!(s.completed[0].project.name, "meal");
}

#[test]
fn empty_backlog() {
    let workers = vec![worker("anna", &[("cook", 2)])];
    let s = simulate(workers, Vec::new());
    assert_eq!(s.completed.len(), 0);
    assert_eq!(s.day, 0);
}

#[test]
fn no_workers_terminates() {
    let projects = vec![project("meal", 1, 10, 5, &[("cook", 1)])];
    let s = simulate(Vec::new(), projects);
    assert_eq!(s.completed.len(), 0);
}

#[test]
fn project_with_no_roles_completes_unstaffed() {
    let workers = vec![worker("anna", &[("cook", 2)])];
    let projects = vec![project("banner", 2, 5, 4, &[])];
    let s = simulate(workers, projects);
    assert_eq!(s.completed.len(), 1);
    assert_eq!(s.completed[0].project.name, "banner");
    assert_eq!(s.completed[0].workers.len(), 0);
}

#[test]
fn first_fit_takes_roster_order() {
    // both can cook; the first in roster order wins the contested role
    let workers = vec![worker("anna", &[("cook", 2)]), worker("bo", &[("cook", 9)])];
    let projects = vec![project("meal", 1, 10, 5, &[("cook", 1)])];
    let s = simulate(workers, projects);
    assert_eq!(s.completed.len(), 1);
    assert_eq!(s.completed[0].workers, vec!["anna".to_string()]);
}

#[test]
fn one_worker_not_bound_twice_in_one_project() {
    // two cook roles but only one eligible worker for both: cannot staff
    let workers = vec![worker("anna", &[("cook", 2)])];
    let projects = vec![project("feast", 1, 10, 5, &[("cook", 1), ("cook", 1)])];
    let s = simulate(workers, projects);
    assert_eq!(s.completed.len(), 0);
}

#[test]
fn two_roles_two_workers() {
    let workers = vec![
        worker("anna", &[("cook", 2)]),
        worker("bo", &[("serve", 1), ("cook", 1)]),
    ];
    let projects = vec![project("dinner", 2, 10, 5, &[("cook", 2), ("serve", 1)])];
    let s = simulate(workers, projects);
    assert_eq!(s.completed.len(), 1);
    assert_eq!(
        s.completed[0].workers,
        vec!["anna".to_string(), "bo".to_string()]
    );
}

#[test]
fn growth_unlocks_harder_project_later() {
    // anna starts at cook 1; the easy project grows her to 2, after which
    // the harder one can be staffed
    let workers = vec![worker("anna", &[("cook", 1)])];
    let projects = vec![
        project("easy", 1, 100, 10, &[("cook", 1)]),
        project("hard", 1, 1, 10, &[("cook", 2)]),
    ];
    let s = simulate(workers, projects);
    assert_eq!(s.completed.len(), 2);
    assert_eq!(s.completed[0].project.name, "easy");
    assert_eq!(s.completed[1].project.name, "hard");
    assert_eq!(skill_of(&s.workers[0], "cook"), Some(3));
}

#[test]
fn priority_orders_staffing() {
    // two projects contend for the one worker: the higher urgency-adjusted
    // priority is staffed first, the other is postponed to the next day
    let workers = vec![worker("anna", &[("cook", 2)])];
    let projects = vec![
        project("low", 1, 1, 0, &[("cook", 1)]),
        project("high", 1, 50, 0, &[("cook", 1)]),
    ];
    let s = simulate(workers, projects);
    assert_eq!(s.completed.len(), 2);
    assert_eq!(s.completed[0].project.name, "high");
    assert_eq!(s.completed[1].project.name, "low");
}

#[test]
fn run_day_steps() {
    let workers = vec![worker("anna", &[("cook", 2)])];
    let projects = vec![project("meal", 2, 10, 5, &[("cook", 1)])];
    let mut s = Scheduler::new(workers, projects);
    assert_eq!(s.day, 0);
    // day 0: staffed, still running afterwards
    assert!(s.run_day());
    assert_eq!(s.day, 1);
    assert_eq!(s.active.len(), 1);
    assert_eq!(s.completed.len(), 0);
    // day 1: retires at the day-2 boundary; queue and active set now empty
    assert!(!s.run_day());
    assert_eq!(s.day, 2);
    assert_eq!(s.active.len(), 0);
    assert_eq!(s.completed.len(), 1);
}

#[test]
fn two_projects_staffed_same_day() {
    let workers = vec![worker("anna", &[("cook", 2)]), worker("bo", &[("wash", 1)])];
    let projects = vec![
        project("meal", 1, 10, 5, &[("cook", 1)]),
        project("dishes", 1, 3, 5, &[("wash", 1)]),
    ];
    let s = simulate(workers, projects);
    assert_eq!(s.completed.len(), 2);
    assert_eq!(s.completed[0].started_at, 0);
    assert_eq!(s.completed[1].started_at, 0);
}

#[test]
fn wrapper_priority_values() {
    let p = project("meal", 1, 10, 5, &[]);
    // day at or before the deadline: base score plus remaining slack
    let w = ProjectWrapper::new(p, 0);
    assert_eq!(w.score, 15);
    let w = ProjectWrapper::new(w.project, 3);
    assert_eq!(w.score, 12);
    let w = ProjectWrapper::new(w.project, 5);
    assert_eq!(w.score, 10);
    // past the deadline: the base score alone
    let w = ProjectWrapper::new(w.project, 9);
    assert_eq!(w.score, 10);
}
