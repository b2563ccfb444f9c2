//! The data model: workers with skill levels, projects with ordered role
//! requirements, and the urgency-adjusted priority that orders pending work.

use vstd::prelude::*;

verus! {

/// A worker: a unique name and a mapping from skill name to proficiency
/// level, kept as a list of pairs looked up by first match.
pub struct Worker {
    pub name: String,
    pub skill: Vec<(String, usize)>,
}

/// A project: immutable attributes and an ordered list of role requirements,
/// each a (skill name, minimum required level) pair.
pub struct Project {
    pub name: String,
    pub duration: usize,
    pub score: usize,
    pub before: usize,
    pub roles: Vec<(String, usize)>,
}

/// A pending-queue entry: a project together with its urgency-adjusted
/// priority, computed on the day the project was (re)inserted.
pub struct ProjectWrapper {
    pub score: usize,
    pub project: Project,
}

/// The urgency-adjusted priority of a project on a given day: its base score
/// plus the remaining slack to its deadline, never negative, and equal to the
/// base score once the deadline has passed.
pub open spec fn spec_priority(p: Project, day: int) -> int {
    p.score + if day <= p.before { p.before - day } else { 0 }
}

/// What a well-formed input project satisfies: at least one day of work, and
/// fields small enough that priority arithmetic and skill growth cannot
/// overflow the machine integers.
pub open spec fn wf_project(p: Project) -> bool {
    &&& 1 <= p.duration
    &&& p.before + p.score <= usize::MAX
    &&& forall|k: int| 0 <= k < p.roles@.len() ==> (#[trigger] p.roles@[k]).1 < usize::MAX
}

impl ProjectWrapper {
    /// Wraps a project for the pending queue, computing its priority for the
    /// day it is being (re)considered.
    pub fn new(project: Project, current_day: usize) -> (r: Self)
        requires
            project.before + project.score <= usize::MAX,
        ensures
            r.project == project,
            r.score == spec_priority(project, current_day as int),
    {
        let slack = if current_day <= project.before {
            project.before - current_day
        } else {
            0
        };
        let score = slack + project.score;
        Self { score, project }
    }
}

/// Priority monotonicity: for a fixed project, the priority computed on a
/// later day is never larger than the one computed on an earlier day, and for
/// any day at or past the deadline it is exactly the base score.
pub proof fn lemma_priority_monotone(p: Project, d1: int, d2: int)
    requires
        0 <= d1 <= d2,
    ensures
        spec_priority(p, d2) <= spec_priority(p, d1),
        p.before <= d1 ==> spec_priority(p, d1) == p.score,
        spec_priority(p, d1) >= p.score >= 0,
{
}

/// The proficiency a skill list records for a skill name: the first pair with
/// that name, or nothing when the worker does not have the skill at all.
pub open spec fn skill_opt(skills: Seq<(String, usize)>, name: Seq<char>) -> Option<usize>
    decreases skills.len(),
{
    if skills.len() == 0 {
        None
    } else if skills[0].0@ == name {
        Some(skills[0].1)
    } else {
        skill_opt(skills.drop_first(), name)
    }
}

/// Proficiency as a plain number, with a missing skill counting as level 0.
pub open spec fn level_of(skills: Seq<(String, usize)>, name: Seq<char>) -> int {
    match skill_opt(skills, name) {
        Some(v) => v as int,
        None => 0,
    }
}

/// Whether a worker can fill a role: they must hold the skill explicitly and
/// at a level at least the required one.
pub open spec fn eligible(w: Worker, skill: Seq<char>, level: usize) -> bool {
    match skill_opt(w.skill@, skill) {
        Some(v) => v >= level,
        None => false,
    }
}

/// Looks a skill up in a skill list, by first match.
pub fn skill_lookup(skills: &Vec<(String, usize)>, name: &String) -> (r: Option<usize>)
    ensures
        r == skill_opt(skills@, name@),
{
    let mut i: usize = 0;
    proof {
        assert(skills@.skip(0) =~= skills@);
    }
    while i < skills.len()
        invariant
            0 <= i <= skills@.len(),
            skill_opt(skills@, name@) == skill_opt(skills@.skip(i as int), name@),
        decreases skills@.len() - i,
    {
        proof {
            assert(skills@.skip(i as int).drop_first() =~= skills@.skip(i as int + 1));
        }
        if skills[i].0.eq(name) {
            return Some(skills[i].1);
        }
        i = i + 1;
    }
    None
}

/// The level a worker ends with after completing a role that required the
/// given level: one more than before if they were at or below the
/// requirement (a missing skill counts as level 0), unchanged otherwise.
pub open spec fn grown_level(cur: Option<usize>, level: usize) -> int {
    match cur {
        None => 1,
        Some(v) => if v <= level {
            v + 1
        } else {
            v as int
        },
    }
}

proof fn lemma_skill_opt_update(skills: Seq<(String, usize)>, m: int, p: (String, usize))
    requires
        0 <= m < skills.len(),
        forall|j: int| 0 <= j < m ==> (#[trigger] skills[j]).0@ != skills[m].0@,
        p.0@ == skills[m].0@,
    ensures
        skill_opt(skills.update(m, p), skills[m].0@) == Some(p.1),
        forall|n: Seq<char>|
            n != skills[m].0@ ==> skill_opt(skills.update(m, p), n) == skill_opt(skills, n),
    decreases skills.len(),
{
    if m == 0 {
        assert(skills.update(0, p)[0] == p);
        assert(skills.update(0, p).drop_first() =~= skills.drop_first());
        assert forall|n: Seq<char>|
            n != skills[m].0@ implies skill_opt(skills.update(m, p), n) == skill_opt(
            skills,
            n,
        ) by {
            assert(skill_opt(skills.update(0, p), n) == skill_opt(skills.drop_first(), n));
            assert(skill_opt(skills, n) == skill_opt(skills.drop_first(), n));
        }
    } else {
        let rest = skills.drop_first();
        assert(skills.update(m, p)[0] == skills[0]);
        assert(skills.update(m, p).drop_first() =~= rest.update(m - 1, p));
        assert(rest[m - 1] == skills[m]);
        assert(forall|j: int| 0 <= j < m - 1 ==> (#[trigger] rest[j]).0@ != rest[m - 1].0@);
        lemma_skill_opt_update(rest, m - 1, p);
        assert(skills[0].0@ != skills[m].0@);
        assert(skill_opt(skills.update(m, p), skills[m].0@) == skill_opt(
            rest.update(m - 1, p),
            rest[m - 1].0@,
        ));
        assert forall|n: Seq<char>|
            n != skills[m].0@ implies skill_opt(skills.update(m, p), n) == skill_opt(
            skills,
            n,
        ) by {
            if n == skills[0].0@ {
                assert(skill_opt(skills.update(m, p), n) == Some(skills[0].1));
                assert(skill_opt(skills, n) == Some(skills[0].1));
            } else {
                assert(skill_opt(skills.update(m, p), n) == skill_opt(rest.update(m - 1, p), n));
                assert(skill_opt(rest.update(m - 1, p), n) == skill_opt(rest, n));
                assert(skill_opt(skills, n) == skill_opt(rest, n));
            }
        }
    }
}

proof fn lemma_skill_opt_push(skills: Seq<(String, usize)>, p: (String, usize))
    requires
        forall|j: int| 0 <= j < skills.len() ==> (#[trigger] skills[j]).0@ != p.0@,
    ensures
        skill_opt(skills.push(p), p.0@) == Some(p.1),
        forall|n: Seq<char>| n != p.0@ ==> skill_opt(skills.push(p), n) == skill_opt(skills, n),
    decreases skills.len(),
{
    if skills.len() == 0 {
        assert(skills.push(p)[0] == p);
        assert(skills.push(p).drop_first() =~= Seq::<(String, usize)>::empty());
        assert forall|n: Seq<char>|
            n != p.0@ implies skill_opt(skills.push(p), n) == skill_opt(skills, n) by {
            assert(skill_opt(skills.push(p), n) == skill_opt(
                Seq::<(String, usize)>::empty(),
                n,
            ));
        }
    } else {
        let rest = skills.drop_first();
        assert(skills.push(p)[0] == skills[0]);
        assert(skills.push(p).drop_first() =~= rest.push(p));
        lemma_skill_opt_push(rest, p);
        assert forall|n: Seq<char>|
            n != p.0@ implies skill_opt(skills.push(p), n) == skill_opt(skills, n) by {
            if n == skills[0].0@ {
                assert(skill_opt(skills.push(p), n) == Some(skills[0].1));
            } else {
                assert(skill_opt(skills.push(p), n) == skill_opt(rest.push(p), n));
                assert(skill_opt(rest.push(p), n) == skill_opt(rest, n));
                assert(skill_opt(skills, n) == skill_opt(rest, n));
            }
        }
    }
}

/// Grows one skill in a skill list after a completed role: the first pair
/// with the skill's name is bumped by one if its level was at or below the
/// requirement and left alone otherwise; a missing skill is recorded at
/// level 1. Every other skill keeps its proficiency exactly.
pub fn grow_entry(skills: &mut Vec<(String, usize)>, name: &String, level: usize)
    requires
        level < usize::MAX,
    ensures
        skill_opt(final(skills)@, name@) == Some(
            grown_level(skill_opt(old(skills)@, name@), level) as usize,
        ),
        grown_level(skill_opt(old(skills)@, name@), level)
            >= level_of(old(skills)@, name@),
        forall|n: Seq<char>|
            n != name@ ==> skill_opt(final(skills)@, n) == skill_opt(old(skills)@, n),
    {
    let mut i: usize = 0;
    proof {
        assert(skills@.skip(0) =~= skills@);
    }
    while i < skills.len()
        invariant
            0 <= i <= skills@.len(),
            skills@ == old(skills)@,
            level < usize::MAX,
            skill_opt(skills@, name@) == skill_opt(skills@.skip(i as int), name@),
            forall|j: int| 0 <= j < i ==> (#[trigger] skills@[j]).0@ != name@,
        decreases skills@.len() - i,
    {
        proof {
            assert(skills@.skip(i as int).drop_first() =~= skills@.skip(i as int + 1));
        }
        if skills[i].0.eq(name) {
            let cur: usize = skills[i].1;
            let newv: usize = if cur <= level {
                cur + 1
            } else {
                cur
            };
            proof {
                assert(skill_opt(skills@, name@) == Some(cur));
                lemma_skill_opt_update(skills@, i as int, (skills@[i as int].0, newv));
            }
            let fresh = (skills[i].0.clone(), newv);
            skills[i] = fresh;
            return;
        }
        i = i + 1;
    }
    proof {
        lemma_skill_opt_push(skills@, (*name, 1));
    }
    skills.push((name.clone(), 1));
}

} // verus!
