//! A day-by-day greedy scheduler that staffs skill-based projects from a
//! roster of workers, postponing projects that cannot be fully staffed and
//! growing worker skills on completion.

pub mod model;
pub mod queue;
pub mod scheduler;
