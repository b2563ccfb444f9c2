//! The simulation core: the day-by-day loop that staffs pending projects
//! from idle workers by first-fit, postpones what cannot be staffed, retires
//! finished assignments and grows the skills of the workers that ran them.

use vstd::prelude::*;
use crate::model::{
    Project, ProjectWrapper, Worker, eligible, grown_level, level_of, skill_opt, grow_entry,
    skill_lookup, spec_priority, wf_project,
};
use crate::queue::{
    PendingQueue, lemma_proj_pot_nonneg, lemma_proj_pot_take, lemma_wrap_pot_append,
    lemma_wrap_pot_nonneg, lemma_wrap_pot_push, lemma_wrap_pot_remove, max_at, proj_pot, wrap_pot,
};

verus! {

/// A committed staffing of a project: the day it started and, for each role
/// requirement position, the name of the worker filling it. While running it
/// sits in the active set; once retired it moves, unchanged, to the report.
pub struct Assignment {
    pub project: Project,
    pub started_at: usize,
    pub workers: Vec<String>,
    /// The roster exactly as it stood on the day the assignment was
    /// committed: the witness that every bound worker met their role's
    /// requirement at start time, not merely after later growth.
    pub start_roster: Ghost<Seq<Worker>>,
}

/// Whether one of the listed names is the given one.
pub open spec fn name_in(names: Seq<String>, n: Seq<char>) -> bool {
    exists|i: int| 0 <= i < names.len() && names[i]@ == n
}

/// Whether a worker name is bound in any of the given assignments: the busy
/// set of the scheduler, derived from the active assignments.
pub open spec fn assigned_in(active: Seq<Assignment>, n: Seq<char>) -> bool {
    exists|i: int, k: int|
        0 <= i < active.len() && 0 <= k < active[i].workers@.len() && active[i].workers@[k]@ == n
}

/// Whether the roster holds a worker with the given name whose proficiency
/// in the given skill meets the given level.
pub open spec fn proficient(ws: Seq<Worker>, n: Seq<char>, skill: Seq<char>, level: usize) -> bool {
    exists|i: int| 0 <= i < ws.len() && (#[trigger] ws[i]).name@ == n && eligible(ws[i], skill, level)
}

/// Whether a worker is idle (not bound in any active assignment, not already
/// claimed by the current staffing attempt) and can fill the role.
pub open spec fn free_fit(
    w: Worker,
    active: Seq<Assignment>,
    cands: Seq<String>,
    skill: Seq<char>,
    level: usize,
) -> bool {
    &&& !assigned_in(active, w.name@)
    &&& !name_in(cands, w.name@)
    &&& eligible(w, skill, level)
}

/// The first-fit choice: position i holds the first worker, in roster order,
/// that is idle, unclaimed and proficient enough for the role.
pub open spec fn first_fit_at(
    ws: Seq<Worker>,
    active: Seq<Assignment>,
    cands: Seq<String>,
    skill: Seq<char>,
    level: usize,
    i: int,
) -> bool {
    &&& 0 <= i < ws.len()
    &&& free_fit(ws[i], active, cands, skill, level)
    &&& forall|j: int| 0 <= j < i ==> !free_fit(ws[j], active, cands, skill, level)
}

/// The greedy matching rule: fill the roles in their declared order, always
/// taking the first fitting worker, and fail as soon as one role has none.
/// `cands` accumulates the names claimed so far; the result is the full
/// claimed list, or nothing when some role cannot be filled.
pub open spec fn staff_roles(
    roles: Seq<(String, usize)>,
    ws: Seq<Worker>,
    active: Seq<Assignment>,
    cands: Seq<String>,
) -> Option<Seq<String>>
    decreases roles.len(),
{
    if roles.len() == 0 {
        Some(cands)
    } else if exists|i: int| first_fit_at(ws, active, cands, roles[0].0@, roles[0].1, i) {
        let i = choose|i: int| first_fit_at(ws, active, cands, roles[0].0@, roles[0].1, i);
        staff_roles(roles.drop_first(), ws, active, cands.push(ws[i].name))
    } else {
        None
    }
}

/// Whether one of the listed names equals the given one.
fn name_in_vec(names: &Vec<String>, n: &String) -> (r: bool)
    ensures
        r == name_in(names@, n@),
{
    let mut i: usize = 0;
    while i < names.len()
        invariant
            0 <= i <= names@.len(),
            forall|j: int| 0 <= j < i ==> names@[j]@ != n@,
        decreases names@.len() - i,
    {
        if names[i].eq(n) {
            return true;
        }
        i = i + 1;
    }
    false
}

/// Whether a worker name is bound in one of the given assignments.
fn is_assigned(active: &Vec<Assignment>, n: &String) -> (r: bool)
    ensures
        r == assigned_in(active@, n@),
{
    let mut i: usize = 0;
    while i < active.len()
        invariant
            0 <= i <= active@.len(),
            forall|j: int, k: int|
                0 <= j < i && 0 <= k < active@[j].workers@.len() ==> (
                #[trigger] active@[j].workers@[k])@ != n@,
        decreases active@.len() - i,
    {
        if name_in_vec(&active[i].workers, n) {
            proof {
                let k = choose|k: int|
                    0 <= k < active@[i as int].workers@.len() && active@[i as int].workers@[k]@
                        == n@;
                assert(active@[i as int].workers@[k]@ == n@);
            }
            return true;
        }
        i = i + 1;
    }
    false
}

/// First-fit worker scan for one role: the first worker in roster order that
/// is neither busy nor already claimed and whose proficiency in the skill
/// meets the level; nothing exactly when no such worker exists.
fn find_free_worker(
    ws: &Vec<Worker>,
    active: &Vec<Assignment>,
    cands: &Vec<String>,
    skill: &String,
    level: usize,
) -> (r: Option<usize>)
    ensures
        match r {
            Some(i) => first_fit_at(ws@, active@, cands@, skill@, level, i as int),
            None => forall|j: int|
                0 <= j < ws@.len() ==> !free_fit(#[trigger] ws@[j], active@, cands@, skill@, level),
        },
{
    let mut i: usize = 0;
    while i < ws.len()
        invariant
            0 <= i <= ws@.len(),
            forall|j: int| 0 <= j < i ==> !free_fit(#[trigger] ws@[j], active@, cands@, skill@, level),
        decreases ws@.len() - i,
    {
        if !is_assigned(active, &ws[i].name) && !name_in_vec(cands, &ws[i].name) {
            match skill_lookup(&ws[i].skill, skill) {
                Some(v) => {
                    if v >= level {
                        return Some(i);
                    }
                },
                None => {},
            }
        }
        i = i + 1;
    }
    None
}

/// Attempts to staff a project's roles, in their declared order, from the
/// workers that are idle under the given active assignments: exactly the
/// greedy first-fit rule `staff_roles`, starting with no claimed names.
pub fn try_staff(project: &Project, ws: &Vec<Worker>, active: &Vec<Assignment>) -> (r: Option<
    Vec<String>,
>)
    ensures
        match r {
            Some(c) => Some(c@) == staff_roles(
                project.roles@,
                ws@,
                active@,
                Seq::<String>::empty(),
            ),
            None => staff_roles(project.roles@, ws@, active@, Seq::<String>::empty()) is None,
        },
{
    let mut cands: Vec<String> = Vec::new();
    let mut k: usize = 0;
    proof {
        assert(project.roles@.skip(0) =~= project.roles@);
        assert(cands@ =~= Seq::<String>::empty());
    }
    while k < project.roles.len()
        invariant
            0 <= k <= project.roles@.len(),
            cands@.len() == k,
            staff_roles(project.roles@, ws@, active@, Seq::<String>::empty()) == staff_roles(
                project.roles@.skip(k as int),
                ws@,
                active@,
                cands@,
            ),
        decreases project.roles@.len() - k,
    {
        let level = project.roles[k].1;
        match find_free_worker(ws, active, &cands, &project.roles[k].0, level) {
            Some(i) => {
                proof {
                    let rs = project.roles@.skip(k as int);
                    assert(rs[0] == project.roles@[k as int]);
                    assert(first_fit_at(ws@, active@, cands@, rs[0].0@, rs[0].1, i as int));
                    let i2 = choose|i2: int|
                        first_fit_at(ws@, active@, cands@, rs[0].0@, rs[0].1, i2);
                    if i2 < i as int {
                        assert(!free_fit(ws@[i2], active@, cands@, rs[0].0@, rs[0].1));
                    }
                    if i2 > i as int {
                        assert(!free_fit(ws@[i as int], active@, cands@, rs[0].0@, rs[0].1));
                    }
                    assert(i2 == i as int);
                    assert(rs.drop_first() =~= project.roles@.skip(k as int + 1));
                }
                let name = ws[i].name.clone();
                cands.push(name);
            },
            None => {
                proof {
                    let rs = project.roles@.skip(k as int);
                    assert(rs[0] == project.roles@[k as int]);
                    assert forall|i2: int|
                        !first_fit_at(ws@, active@, cands@, rs[0].0@, rs[0].1, i2) by {
                        if 0 <= i2 < ws@.len() {
                            assert(!free_fit(ws@[i2], active@, cands@, rs[0].0@, rs[0].1));
                        }
                    }
                }
                return None;
            },
        }
        k = k + 1;
    }
    proof {
        assert(project.roles@.skip(k as int) =~= Seq::<(String, usize)>::empty());
    }
    Some(cands)
}

/// What a successful greedy staffing guarantees: one name per role; each
/// claimed worker is on the roster with proficiency meeting the role's
/// requirement; none of them was bound in an active assignment; and no name
/// is claimed twice.
pub proof fn lemma_staff_roles_props(
    roles: Seq<(String, usize)>,
    ws: Seq<Worker>,
    active: Seq<Assignment>,
    cands: Seq<String>,
)
    requires
        staff_roles(roles, ws, active, cands) is Some,
    ensures
        staff_roles(roles, ws, active, cands).unwrap().len() == cands.len() + roles.len(),
        forall|k: int|
            0 <= k < cands.len() ==> staff_roles(roles, ws, active, cands).unwrap()[k] == cands[k],
        forall|k: int|
            #![trigger staff_roles(roles, ws, active, cands).unwrap()[k]]
            cands.len() <= k < cands.len() + roles.len() ==> {
                let c = staff_roles(roles, ws, active, cands).unwrap();
                &&& proficient(ws, c[k]@, roles[k - cands.len()].0@, roles[k - cands.len()].1)
                &&& !assigned_in(active, c[k]@)
                &&& forall|k2: int| 0 <= k2 < k ==> c[k2]@ != c[k]@
            },
    decreases roles.len(),
{
    if roles.len() > 0 {
        let skill = roles[0].0@;
        let level = roles[0].1;
        let i = choose|i: int| first_fit_at(ws, active, cands, skill, level, i);
        assert(first_fit_at(ws, active, cands, skill, level, i));
        let cands2 = cands.push(ws[i].name);
        assert(roles.drop_first().len() == roles.len() - 1);
        lemma_staff_roles_props(roles.drop_first(), ws, active, cands2);
        let c = staff_roles(roles, ws, active, cands).unwrap();
        assert(c == staff_roles(roles.drop_first(), ws, active, cands2).unwrap());
        assert forall|k: int| 0 <= k < cands.len() implies #[trigger] c[k] == cands[k] by {
            assert(staff_roles(roles.drop_first(), ws, active, cands2).unwrap()[k] == cands2[k]);
        }
        assert(staff_roles(roles.drop_first(), ws, active, cands2).unwrap()[cands.len() as int]
            == cands2[cands.len() as int]);
        assert(c[cands.len() as int] == cands2[cands.len() as int]);
        assert(eligible(ws[i], skill, level));
        assert(proficient(ws, c[cands.len() as int]@, skill, level));
        assert forall|k: int|
            #![trigger staff_roles(roles, ws, active, cands).unwrap()[k]]
            cands.len() <= k < cands.len() + roles.len() implies {
            let c2 = staff_roles(roles, ws, active, cands).unwrap();
            &&& proficient(ws, c2[k]@, roles[k - cands.len()].0@, roles[k - cands.len()].1)
            &&& !assigned_in(active, c2[k]@)
            &&& forall|k2: int| 0 <= k2 < k ==> c2[k2]@ != c2[k]@
        } by {
            if k == cands.len() {
                assert forall|k2: int| 0 <= k2 < k implies c[k2]@ != c[k]@ by {
                    assert(c[k2] == cands[k2]);
                    assert(!name_in(cands, ws[i].name@));
                }
            } else {
                assert(roles.drop_first()[k - cands2.len()] == roles[k - cands.len()]);
                assert(proficient(ws, c[k]@, roles[k - cands.len()].0@, roles[k - cands.len()].1));
            }
        }
    }
}

/// The remaining day budget of a set of active assignments, measured from
/// the given day: each contributes its remaining run plus one retirement
/// step.
pub open spec fn act_pot(a: Seq<Assignment>, day: int) -> int
    decreases a.len(),
{
    if a.len() == 0 {
        0
    } else {
        a[0].started_at + a[0].project.duration + 1 - day + act_pot(a.drop_first(), day)
    }
}

pub proof fn lemma_act_pot_push(a: Seq<Assignment>, day: int, x: Assignment)
    ensures
        act_pot(a.push(x), day) == act_pot(a, day) + x.started_at + x.project.duration + 1 - day,
    decreases a.len(),
{
    if a.len() == 0 {
        assert(a.push(x)[0] == x);
        assert(a.push(x).drop_first() =~= Seq::<Assignment>::empty());
        assert(act_pot(Seq::<Assignment>::empty(), day) == 0);
    } else {
        assert(a.push(x)[0] == a[0]);
        assert(a.push(x).drop_first() =~= a.drop_first().push(x));
        lemma_act_pot_push(a.drop_first(), day, x);
        assert(act_pot(a.push(x), day) == a.push(x)[0].started_at + a.push(x)[0].project.duration
            + 1 - day + act_pot(a.push(x).drop_first(), day));
    }
}

pub proof fn lemma_act_pot_remove(a: Seq<Assignment>, day: int, i: int)
    requires
        0 <= i < a.len(),
    ensures
        act_pot(a.remove(i), day) == act_pot(a, day) - (a[i].started_at + a[i].project.duration + 1
            - day),
    decreases a.len(),
{
    if i == 0 {
        assert(a.remove(0) =~= a.drop_first());
    } else {
        assert(a.remove(i)[0] == a[0]);
        assert(a.remove(i).drop_first() =~= a.drop_first().remove(i - 1));
        lemma_act_pot_remove(a.drop_first(), day, i - 1);
        assert(a.drop_first()[i - 1] == a[i]);
    }
}

pub proof fn lemma_act_pot_shift(a: Seq<Assignment>, day: int)
    ensures
        act_pot(a, day + 1) == act_pot(a, day) - a.len(),
    decreases a.len(),
{
    if a.len() > 0 {
        lemma_act_pot_shift(a.drop_first(), day);
    }
}

pub proof fn lemma_act_pot_bounds(a: Seq<Assignment>, day: int)
    requires
        forall|j: int|
            0 <= j < a.len() ==> day <= (#[trigger] a[j]).started_at + a[j].project.duration + 1,
    ensures
        act_pot(a, day) >= 0,
        forall|j: int|
            0 <= j < a.len() ==> (#[trigger] a[j]).started_at + a[j].project.duration + 1 - day
                <= act_pot(a, day),
    decreases a.len(),
{
    if a.len() > 0 {
        assert(forall|j: int|
            0 <= j < a.drop_first().len() ==> (#[trigger] a.drop_first()[j]) == a[j + 1]);
        lemma_act_pot_bounds(a.drop_first(), day);
        assert forall|j: int|
            0 <= j < a.len() implies (#[trigger] a[j]).started_at + a[j].project.duration + 1 - day
            <= act_pot(a, day) by {
            if j > 0 {
                assert(a.drop_first()[j - 1] == a[j]);
            }
        }
    }
}

/// The roster position of the worker with the given name, when one exists.
fn find_worker_idx(ws: &Vec<Worker>, name: &String) -> (r: Option<usize>)
    ensures
        match r {
            Some(j) => j < ws@.len() && ws@[j as int].name@ == name@,
            None => forall|i: int| 0 <= i < ws@.len() ==> (#[trigger] ws@[i]).name@ != name@,
        },
{
    let mut i: usize = 0;
    while i < ws.len()
        invariant
            0 <= i <= ws@.len(),
            forall|j: int| 0 <= j < i ==> (#[trigger] ws@[j]).name@ != name@,
        decreases ws@.len() - i,
    {
        if ws[i].name.eq(name) {
            return Some(i);
        }
        i = i + 1;
    }
    None
}

/// Grows one worker's proficiency in one skill, leaving every other worker
/// and every other skill untouched.
fn grow_worker(ws: &mut Vec<Worker>, j: usize, skill: &String, level: usize)
    requires
        j < old(ws)@.len(),
        level < usize::MAX,
    ensures
        final(ws)@.len() == old(ws)@.len(),
        forall|i: int| 0 <= i < old(ws)@.len() && i != j ==> final(ws)@[i] == old(ws)@[i],
        final(ws)@[j as int].name == old(ws)@[j as int].name,
        skill_opt(final(ws)@[j as int].skill@, skill@) == Some(
            grown_level(skill_opt(old(ws)@[j as int].skill@, skill@), level) as usize,
        ),
        forall|n: Seq<char>|
            n != skill@ ==> skill_opt(final(ws)@[j as int].skill@, n) == skill_opt(
                old(ws)@[j as int].skill@,
                n,
            ),
{
    let w = &mut ws[j];
    grow_entry(&mut w.skill, skill, level);
}

/// What every assignment record satisfies: one bound worker name per role
/// requirement, in the same order; each bound worker is on the roster with
/// proficiency at least the role's required level; and no worker is bound to
/// two roles of the same assignment.
pub open spec fn wf_assignment(ws: Seq<Worker>, a: Assignment) -> bool {
    &&& a.workers@.len() == a.project.roles@.len()
    &&& forall|k: int|
        0 <= k < a.workers@.len() ==> proficient(
            ws,
            (#[trigger] a.workers@[k])@,
            a.project.roles@[k].0@,
            a.project.roles@[k].1,
        )
    &&& forall|k1: int, k2: int|
        0 <= k1 < k2 < a.workers@.len() ==> (#[trigger] a.workers@[k1])@ != (
        #[trigger] a.workers@[k2])@
}

/// How the roster relates to the loaded one: same workers in the same order
/// under the same unique names, with every proficiency at least its initial
/// value and no skill acquired out of nowhere.
pub open spec fn roster_wf(ws: Seq<Worker>, init: Seq<Worker>) -> bool {
    &&& ws.len() == init.len()
    &&& forall|i: int| 0 <= i < ws.len() ==> (#[trigger] ws[i]).name@ == init[i].name@
    &&& forall|i: int, j: int|
        0 <= i < j < ws.len() ==> (#[trigger] ws[i]).name@ != (#[trigger] ws[j]).name@
    &&& forall|i: int, s: Seq<char>|
        #![trigger level_of(ws[i].skill@, s)]
        0 <= i < ws.len() ==> level_of(ws[i].skill@, s) >= level_of(init[i].skill@, s)
    &&& forall|i: int, s: Seq<char>|
        #![trigger skill_opt(ws[i].skill@, s)]
        0 <= i < ws.len() && skill_opt(ws[i].skill@, s) is Some ==> skill_opt(init[i].skill@, s)
            is Some
}

/// What the scheduler maintains of every assignment it has committed: it is
/// well formed both against the current roster and against its own start-day
/// roster snapshot — so each bound worker met the role's requirement on the
/// day the assignment started — and that snapshot lies on the growth chain
/// between the loaded roster and the current one.
pub open spec fn sound_assignment(ws: Seq<Worker>, init: Seq<Worker>, a: Assignment) -> bool {
    &&& wf_assignment(ws, a)
    &&& wf_assignment(a.start_roster@, a)
    &&& roster_wf(ws, a.start_roster@)
    &&& roster_wf(a.start_roster@, init)
}

/// Whether some queue entry carries the given project.
pub open spec fn queued_project(q: Seq<ProjectWrapper>, p: Project) -> bool {
    exists|i: int| 0 <= i < q.len() && (#[trigger] q[i]).project == p
}

/// Whether some assignment in the list is for the given project.
pub open spec fn listed_project(l: Seq<Assignment>, p: Project) -> bool {
    exists|i: int| 0 <= i < l.len() && (#[trigger] l[i]).project == p
}

/// Whether the list holds the given assignment.
pub open spec fn listed(l: Seq<Assignment>, a: Assignment) -> bool {
    exists|i: int| 0 <= i < l.len() && #[trigger] l[i] == a
}

/// How completing one role changes its bound worker: the skill the role
/// requires moves to its grown level — up by one under the at-most-requirement
/// cap — every other skill keeps its proficiency, and the name stays.
pub open spec fn grown_for(w_old: Worker, w_new: Worker, role: (String, usize)) -> bool {
    &&& w_new.name == w_old.name
    &&& skill_opt(w_new.skill@, role.0@) == Some(
        grown_level(skill_opt(w_old.skill@, role.0@), role.1) as usize,
    )
    &&& forall|sx: Seq<char>|
        sx != role.0@ ==> skill_opt(w_new.skill@, sx) == skill_opt(w_old.skill@, sx)
}

/// The roster position of the worker holding the given name.
pub open spec fn roster_idx(ws: Seq<Worker>, n: Seq<char>) -> int {
    choose|i: int| 0 <= i < ws.len() && ws[i].name@ == n
}

/// That the day's growth stands applied, against the day-start roster
/// `base`, for the role at position k of a retired assignment: the worker
/// bound to that role holds in `ws` exactly the proficiency the role's
/// completion grants over their day-start state.
pub open spec fn growth_applied(base: Seq<Worker>, ws: Seq<Worker>, a: Assignment, k: int) -> bool {
    let i = roster_idx(base, a.workers@[k]@);
    &&& 0 <= i < base.len()
    &&& base[i].name@ == a.workers@[k]@
    &&& i < ws.len()
    &&& grown_for(base[i], ws[i], a.project.roles@[k])
}

proof fn lemma_roster_idx(ws: Seq<Worker>, n: Seq<char>, j: int)
    requires
        0 <= j < ws.len(),
        ws[j].name@ == n,
        forall|i1: int, i2: int|
            0 <= i1 < i2 < ws.len() ==> (#[trigger] ws[i1]).name@ != (#[trigger] ws[i2]).name@,
    ensures
        roster_idx(ws, n) == j,
{
    assert(0 <= j < ws.len() && ws[j].name@ == n);
    let i = roster_idx(ws, n);
    assert(0 <= i < ws.len() && ws[i].name@ == n);
    if i < j {
        assert(ws[i].name@ != ws[j].name@);
    }
    if j < i {
        assert(ws[j].name@ != ws[i].name@);
    }
}

/// Growing proficiencies never loses anyone the ability to fill a role they
/// could already fill.
proof fn lemma_grow_preserves_proficient(ws1: Seq<Worker>, ws2: Seq<Worker>)
    requires
        ws1.len() == ws2.len(),
        forall|i: int| 0 <= i < ws1.len() ==> (#[trigger] ws2[i]).name@ == ws1[i].name@,
        forall|i: int, s: Seq<char>|
            #![trigger skill_opt(ws2[i].skill@, s)]
            0 <= i < ws1.len() ==> match skill_opt(ws1[i].skill@, s) {
                Some(v) => skill_opt(ws2[i].skill@, s) is Some && skill_opt(ws2[i].skill@, s).unwrap()
                    >= v,
                None => true,
            },
    ensures
        forall|n: Seq<char>, sk: Seq<char>, lv: usize|
            proficient(ws1, n, sk, lv) ==> #[trigger] proficient(ws2, n, sk, lv),
{
    assert forall|n: Seq<char>, sk: Seq<char>, lv: usize|
        proficient(ws1, n, sk, lv) implies #[trigger] proficient(ws2, n, sk, lv) by {
        let i = choose|i: int|
            0 <= i < ws1.len() && (#[trigger] ws1[i]).name@ == n && eligible(ws1[i], sk, lv);
        assert(skill_opt(ws2[i].skill@, sk) is Some);
        assert(eligible(ws2[i], sk, lv));
    }
}

pub proof fn lemma_wrap_pot_bounds(q: Seq<ProjectWrapper>)
    ensures
        wrap_pot(q) >= 0,
        forall|i: int|
            0 <= i < q.len() ==> (#[trigger] q[i]).project.duration + 1 <= wrap_pot(q),
    decreases q.len(),
{
    if q.len() > 0 {
        lemma_wrap_pot_bounds(q.drop_first());
        assert forall|i: int|
            0 <= i < q.len() implies (#[trigger] q[i]).project.duration + 1 <= wrap_pot(q) by {
            if i > 0 {
                assert(q.drop_first()[i - 1] == q[i]);
            }
        }
    }
}

/// One growth step — one worker's proficiency in one skill raised, nothing
/// else touched — keeps the roster well formed relative to any baseline it
/// was well formed against.
proof fn lemma_roster_wf_step(
    ws1: Seq<Worker>,
    ws2: Seq<Worker>,
    base: Seq<Worker>,
    j: int,
    skname: Seq<char>,
    v: usize,
)
    requires
        roster_wf(ws1, base),
        ws2.len() == ws1.len(),
        0 <= j < ws1.len(),
        forall|i: int| 0 <= i < ws1.len() && i != j ==> #[trigger] ws2[i] == ws1[i],
        ws2[j].name == ws1[j].name,
        skill_opt(ws1[j].skill@, skname) == Some(v),
        skill_opt(ws2[j].skill@, skname) is Some && skill_opt(ws2[j].skill@, skname).unwrap() >= v,
        forall|n: Seq<char>| n != skname ==> skill_opt(ws2[j].skill@, n) == skill_opt(
            ws1[j].skill@,
            n,
        ),
    ensures
        roster_wf(ws2, base),
{
    assert forall|i: int| 0 <= i < ws2.len() implies (#[trigger] ws2[i]).name@
        == base[i].name@ by {
        if i != j {
            assert(ws2[i] == ws1[i]);
        }
    }
    assert forall|i: int, i2: int|
        0 <= i < i2 < ws2.len() implies (#[trigger] ws2[i]).name@ != (#[trigger] ws2[i2]).name@ by {
        assert(ws2[i].name@ == base[i].name@ && ws2[i2].name@ == base[i2].name@);
        assert(ws1[i].name@ != ws1[i2].name@);
    }
    assert forall|i: int, s: Seq<char>|
        #![trigger level_of(ws2[i].skill@, s)]
        0 <= i < ws2.len() implies level_of(ws2[i].skill@, s) >= level_of(base[i].skill@, s) by {
        if i == j && s == skname {
            assert(level_of(ws1[i].skill@, s) == v);
            assert(level_of(ws1[i].skill@, s) >= level_of(base[i].skill@, s));
        } else if i == j {
            assert(skill_opt(ws2[i].skill@, s) == skill_opt(ws1[i].skill@, s));
            assert(level_of(ws1[i].skill@, s) >= level_of(base[i].skill@, s));
        } else {
            assert(ws2[i] == ws1[i]);
            assert(level_of(ws1[i].skill@, s) >= level_of(base[i].skill@, s));
        }
    }
    assert forall|i: int, s: Seq<char>|
        #![trigger skill_opt(ws2[i].skill@, s)]
        0 <= i < ws2.len() && skill_opt(ws2[i].skill@, s) is Some implies skill_opt(
        base[i].skill@,
        s,
    ) is Some by {
        if i == j && s == skname {
            assert(skill_opt(ws1[i].skill@, s) is Some);
        } else if i == j {
            assert(skill_opt(ws2[i].skill@, s) == skill_opt(ws1[i].skill@, s));
        } else {
            assert(ws2[i] == ws1[i]);
        }
    }
}

/// An assignment stays well formed when every proficiency it relies on is
/// preserved.
proof fn lemma_wf_assignment_grow(ws1: Seq<Worker>, ws2: Seq<Worker>, a: Assignment)
    requires
        wf_assignment(ws1, a),
        forall|n: Seq<char>, sk: Seq<char>, lv: usize|
            proficient(ws1, n, sk, lv) ==> #[trigger] proficient(ws2, n, sk, lv),
    ensures
        wf_assignment(ws2, a),
{
    assert forall|k: int|
        0 <= k < a.workers@.len() implies proficient(
        ws2,
        (#[trigger] a.workers@[k])@,
        a.project.roles@[k].0@,
        a.project.roles@[k].1,
    ) by {
        assert(proficient(ws1, a.workers@[k]@, a.project.roles@[k].0@, a.project.roles@[k].1));
    }
}

/// The whole simulation state: the current day, the roster, the pending
/// queue, the active assignments and the retired ones, in retirement order.
/// The busy set is derived from the active assignments. The two ghost fields
/// remember the loaded roster and the day budget that bounds the run.
pub struct Scheduler {
    pub day: usize,
    pub workers: Vec<Worker>,
    pub pending: PendingQueue,
    pub active: Vec<Assignment>,
    pub completed: Vec<Assignment>,
    pub init: Ghost<Seq<Worker>>,
    pub budget: Ghost<int>,
}

impl Scheduler {
    /// The day budget still unspent: queued projects contribute their whole
    /// run, active ones what remains of theirs.
    pub open spec fn pot(self) -> int {
        wrap_pot(self.pending.entries@) + act_pot(self.active@, self.day as int)
    }

    /// The structural invariant of the simulation state.
    pub open spec fn wf_core(self) -> bool {
        &&& roster_wf(self.workers@, self.init@)
        &&& forall|i: int|
            0 <= i < self.active@.len() ==> sound_assignment(
                self.workers@,
                self.init@,
                #[trigger] self.active@[i],
            )
        &&& forall|i: int|
            0 <= i < self.active@.len() ==> wf_project((#[trigger] self.active@[i]).project)
        &&& forall|i: int|
            0 <= i < self.active@.len() ==> (#[trigger] self.active@[i]).started_at <= self.day
                && self.day + 1 <= self.active@[i].started_at + self.active@[i].project.duration
        &&& forall|i: int, j: int, k1: int, k2: int|
            #![trigger self.active@[i].workers@[k1], self.active@[j].workers@[k2]]
            0 <= i < self.active@.len() && 0 <= j < self.active@.len() && i != j && 0 <= k1
                < self.active@[i].workers@.len() && 0 <= k2 < self.active@[j].workers@.len()
                ==> self.active@[i].workers@[k1]@ != self.active@[j].workers@[k2]@
        &&& forall|i: int|
            0 <= i < self.completed@.len() ==> sound_assignment(
                self.workers@,
                self.init@,
                #[trigger] self.completed@[i],
            )
        &&& forall|i: int|
            0 <= i < self.pending.entries@.len() ==> wf_project(
                (#[trigger] self.pending.entries@[i]).project,
            )
        &&& self.budget@ <= usize::MAX
    }

    /// Retired assignments lie wholly in the past.
    pub open spec fn completed_time(self) -> bool {
        forall|i: int|
            0 <= i < self.completed@.len() ==> (#[trigger] self.completed@[i]).started_at
                + self.completed@[i].project.duration <= self.day
    }

    /// The full invariant: structure, retirement times, and the day bound
    /// that forces termination.
    pub open spec fn wf(self) -> bool {
        &&& self.wf_core()
        &&& self.completed_time()
        &&& self.day + self.pot() <= self.budget@
    }

    /// Builds the initial state for a loaded instance: day 0, nothing active
    /// or retired, and every project queued at its day-0 priority.
    pub fn new(workers: Vec<Worker>, projects: Vec<Project>) -> (r: Scheduler)
        requires
            forall|i: int, j: int|
                0 <= i < j < workers@.len() ==> (#[trigger] workers@[i]).name@ != (
                #[trigger] workers@[j]).name@,
            forall|i: int| 0 <= i < projects@.len() ==> wf_project(#[trigger] projects@[i]),
            proj_pot(projects@) <= usize::MAX,
        ensures
            r.wf(),
            r.day == 0,
            r.workers@ == workers@,
            r.init@ == workers@,
            r.budget@ == proj_pot(projects@),
            r.active@.len() == 0,
            r.completed@.len() == 0,
            r.pending.entries@.len() == projects@.len(),
            forall|i: int|
                0 <= i < projects@.len() ==> (#[trigger] r.pending.entries@[i]).project
                    == projects@[i] && r.pending.entries@[i].score == spec_priority(
                    projects@[i],
                    0,
                ),
    {
        let ghost all = projects@;
        let mut projects = projects;
        let mut pending = PendingQueue::new();
        proof {
            assert(all.take(0) =~= Seq::<Project>::empty());
            assert(projects@ =~= all.skip(0));
        }
        let mut k: usize = 0;
        while projects.len() > 0
            invariant
                0 <= k <= all.len(),
                projects@ =~= all.skip(k as int),
                pending.entries@.len() == k,
                forall|i: int|
                    0 <= i < k ==> (#[trigger] pending.entries@[i]).project == all[i]
                        && pending.entries@[i].score == spec_priority(all[i], 0),
                wrap_pot(pending.entries@) == proj_pot(all.take(k as int)),
                forall|i: int| 0 <= i < all.len() ==> wf_project(#[trigger] all[i]),
                proj_pot(all) <= usize::MAX,
            decreases projects@.len(),
        {
            proof {
                assert(all.skip(k as int)[0] == all[k as int]);
                assert(projects@.remove(0) =~= all.skip(k as int + 1));
                lemma_proj_pot_take(all, k as int);
                lemma_proj_pot_nonneg(all);
            }
            let p = projects.remove(0);
            let ghost entries0 = pending.entries@;
            pending.insert(p, 0);
            proof {
                lemma_wrap_pot_push(entries0, pending.entries@.last());
            }
            k = k + 1;
        }
        let ghost wv = workers@;
        proof {
            assert(all.take(k as int) =~= all);
            lemma_proj_pot_nonneg(all);
            assert(act_pot(Seq::<Assignment>::empty(), 0) == 0);
        }
        let r = Scheduler {
            day: 0,
            workers,
            pending,
            active: Vec::new(),
            completed: Vec::new(),
            init: Ghost(wv),
            budget: Ghost(proj_pot(all)),
        };
        r
    }

    /// Appends the given postponed entries to the pending queue, in their
    /// postponement order, changing nothing else.
    fn readmit(&mut self, postponed: Vec<ProjectWrapper>)
        ensures
            final(self).pending.entries@ == old(self).pending.entries@ + postponed@,
            final(self).day == old(self).day,
            final(self).workers == old(self).workers,
            final(self).active == old(self).active,
            final(self).completed == old(self).completed,
            final(self).init == old(self).init,
            final(self).budget == old(self).budget,
    {
        let ghost post_all = postponed@;
        let ghost entries0 = self.pending.entries@;
        let ghost day_g = self.day;
        let ghost workers_g = self.workers;
        let ghost active_g = self.active;
        let ghost completed_g = self.completed;
        let mut postponed = postponed;
        proof {
            assert(post_all.take(0) =~= Seq::<ProjectWrapper>::empty());
            assert(entries0 + post_all.take(0) =~= entries0);
            assert(postponed@ =~= post_all.skip(0));
        }
        while postponed.len() > 0
            invariant
                postponed@.len() <= post_all.len(),
                postponed@ == post_all.skip(post_all.len() - postponed@.len()),
                self.pending.entries@ == entries0 + post_all.take(
                    post_all.len() - postponed@.len(),
                ),
                self.day == day_g,
                self.workers == workers_g,
                self.active == active_g,
                self.completed == completed_g,
                self.init == old(self).init,
                self.budget == old(self).budget,
            decreases postponed@.len(),
        {
            let ghost k = post_all.len() - postponed@.len();
            let w = postponed.remove(0);
            self.pending.insert_wrapped(w);
            proof {
                assert(post_all.skip(k)[0] == post_all[k]);
                assert(post_all.skip(k).remove(0) =~= post_all.skip(k + 1));
                assert((entries0 + post_all.take(k)).push(post_all[k]) =~= entries0
                    + post_all.take(k + 1));
            }
        }
        proof {
            assert(post_all.take(post_all.len() as int) =~= post_all);
        }
    }

    /// Runs one simulated day. Staffing phase: extract pending projects in
    /// priority order and staff each by first-fit, postponing to the next day
    /// the ones that cannot be fully staffed. If nothing is active afterwards
    /// the run is over: nothing left can ever be staffed. Otherwise retire
    /// the active assignments whose time has elapsed at the new day boundary,
    /// growing each bound worker's skill under the at-most-requirement cap,
    /// re-admit the postponed projects and advance the day. Returns whether
    /// the simulation must go on.
    #[verifier::rlimit(100)]
    pub fn run_day(&mut self) -> (more: bool)
        requires
            old(self).wf(),
        ensures
            final(self).wf(),
            final(self).init == old(self).init,
            final(self).budget == old(self).budget,
            old(self).day <= final(self).day <= old(self).day + 1,
            more ==> final(self).day == old(self).day + 1,
            !more ==> final(self).active@.len() == 0,
            old(self).completed@.len() <= final(self).completed@.len(),
            forall|i: int|
                0 <= i < old(self).completed@.len() ==> final(self).completed@[i] == old(
                    self,
                ).completed@[i],
            forall|i: int|
                old(self).completed@.len() <= i < final(self).completed@.len() ==> (
                #[trigger] final(self).completed@[i]).started_at
                    + final(self).completed@[i].project.duration == old(self).day + 1,
            roster_wf(final(self).workers@, old(self).workers@),
            // nothing queued at day start is lost: it is queued again, active,
            // or retired afterwards
            forall|j: int|
                0 <= j < old(self).pending.entries@.len() ==> queued_project(
                    final(self).pending.entries@,
                    (#[trigger] old(self).pending.entries@[j]).project,
                ) || listed_project(
                    final(self).active@,
                    old(self).pending.entries@[j].project,
                ) || listed_project(
                    final(self).completed@,
                    old(self).pending.entries@[j].project,
                ),
            // nothing active at day start is lost: it stays active or retires
            forall|j: int|
                0 <= j < old(self).active@.len() ==> listed(
                    final(self).active@,
                    #[trigger] old(self).active@[j],
                ) || listed(final(self).completed@, old(self).active@[j]),
            // whatever is active afterwards was already active, or was
            // committed today from the queue against today's roster
            forall|i: int|
                0 <= i < final(self).active@.len() ==> listed(
                    old(self).active@,
                    #[trigger] final(self).active@[i],
                ) || (final(self).active@[i].started_at == old(self).day
                    && final(self).active@[i].start_roster@ == old(self).workers@
                    && queued_project(
                    old(self).pending.entries@,
                    final(self).active@[i].project,
                )),
            // whatever retired today was active at day start or committed today
            forall|i: int|
                old(self).completed@.len() <= i < final(self).completed@.len() ==> listed(
                    old(self).active@,
                    #[trigger] final(self).completed@[i],
                ) || (final(self).completed@[i].started_at == old(self).day
                    && final(self).completed@[i].start_roster@ == old(self).workers@
                    && queued_project(
                    old(self).pending.entries@,
                    final(self).completed@[i].project,
                )),
            // whatever is queued afterwards was queued at day start, and its
            // priority was recomputed for the coming day when it was postponed
            forall|i: int|
                0 <= i < final(self).pending.entries@.len() ==> queued_project(
                    old(self).pending.entries@,
                    (#[trigger] final(self).pending.entries@[i]).project,
                ) && final(self).pending.entries@[i].score == spec_priority(
                    final(self).pending.entries@[i].project,
                    old(self).day + 1,
                ),
            // growth confinement: each worker is untouched today, or grew
            // exactly as the one role bound to them in an assignment retired
            // today prescribes
            forall|i: int|
                0 <= i < final(self).workers@.len() ==> final(self).workers@[i]
                    == old(self).workers@[i] || exists|c: int, k: int|
                    old(self).completed@.len() <= c < final(self).completed@.len() && 0 <= k
                        < final(self).completed@[c].workers@.len()
                        && final(self).completed@[c].workers@[k]@ == old(self).workers@[i].name@
                        && grown_for(
                        old(self).workers@[i],
                        final(self).workers@[i],
                        final(self).completed@[c].project.roles@[k],
                    ),
            // and each role retired today did grow its bound worker so
            forall|c: int, k: int|
                #![trigger final(self).completed@[c].workers@[k]]
                old(self).completed@.len() <= c < final(self).completed@.len() && 0 <= k
                    < final(self).completed@[c].workers@.len() ==> growth_applied(
                    old(self).workers@,
                    final(self).workers@,
                    final(self).completed@[c],
                    k,
                ),
            // the run stops only when nothing is active and every project
            // still queued cannot be staffed at all from the final roster
            !more ==> forall|i: int|
                0 <= i < final(self).pending.entries@.len() ==> staff_roles(
                    (#[trigger] final(self).pending.entries@[i]).project.roles@,
                    final(self).workers@,
                    final(self).active@,
                    Seq::<String>::empty(),
                ) is None,
    {
        let ghost day0 = self.day;
        let ghost init0 = self.init@;
        let ghost budget0 = self.budget@;
        let ghost completed0 = self.completed@;
        let ghost ws0 = self.workers@;
        proof {
            assert(roster_wf(ws0, ws0));
        }
        let ghost act0 = self.active@;
        let ghost pend0 = self.pending.entries@;
        let mut postponed: Vec<ProjectWrapper> = Vec::new();
        proof {
            assert forall|j: int|
                0 <= j < pend0.len() implies queued_project(
                pend0,
                (#[trigger] pend0[j]).project,
            ) by {
                assert(0 <= j < pend0.len() && pend0[j].project == pend0[j].project);
            }
        }

        // staffing phase: drain the queue, committing or postponing
        loop
            invariant
                self.day == day0,
                self.init@ == init0,
                self.budget@ == budget0,
                self.completed@ == completed0,
                self.wf_core(),
                roster_wf(self.workers@, ws0),
                self.completed_time(),
                day0 + wrap_pot(self.pending.entries@) + wrap_pot(postponed@) + act_pot(
                    self.active@,
                    day0 as int,
                ) <= budget0,
                forall|i: int|
                    0 <= i < postponed@.len() ==> wf_project((#[trigger] postponed@[i]).project),
                self.workers@ == ws0,
                act0.len() <= self.active@.len(),
                forall|i: int| 0 <= i < act0.len() ==> self.active@[i] == act0[i],
                forall|i: int|
                    act0.len() <= i < self.active@.len() ==> (
                    #[trigger] self.active@[i]).started_at == day0
                        && self.active@[i].start_roster@ == ws0 && queued_project(
                        pend0,
                        self.active@[i].project,
                    ),
                forall|j: int|
                    0 <= j < self.pending.entries@.len() ==> exists|j0: int|
                        0 <= j0 < pend0.len() && pend0[j0] == (
                        #[trigger] self.pending.entries@[j]),
                forall|j: int|
                    0 <= j < pend0.len() ==> queued_project(
                        self.pending.entries@,
                        (#[trigger] pend0[j]).project,
                    ) || queued_project(postponed@, pend0[j].project) || listed_project(
                        self.active@,
                        pend0[j].project,
                    ),
                forall|j: int|
                    0 <= j < postponed@.len() ==> (#[trigger] postponed@[j]).score
                        == spec_priority(postponed@[j].project, day0 + 1) && queued_project(
                        pend0,
                        postponed@[j].project,
                    ),
                self.active@ == act0 ==> forall|j: int|
                    0 <= j < postponed@.len() ==> staff_roles(
                        (#[trigger] postponed@[j]).project.roles@,
                        ws0,
                        act0,
                        Seq::<String>::empty(),
                    ) is None,
            ensures
                self.day == day0,
                self.init@ == init0,
                self.budget@ == budget0,
                self.completed@ == completed0,
                self.wf_core(),
                roster_wf(self.workers@, ws0),
                self.completed_time(),
                self.pending.entries@.len() == 0,
                day0 + wrap_pot(postponed@) + act_pot(self.active@, day0 as int) <= budget0,
                forall|i: int|
                    0 <= i < postponed@.len() ==> wf_project((#[trigger] postponed@[i]).project),
                self.workers@ == ws0,
                act0.len() <= self.active@.len(),
                forall|i: int| 0 <= i < act0.len() ==> self.active@[i] == act0[i],
                forall|i: int|
                    act0.len() <= i < self.active@.len() ==> (
                    #[trigger] self.active@[i]).started_at == day0
                        && self.active@[i].start_roster@ == ws0 && queued_project(
                        pend0,
                        self.active@[i].project,
                    ),
                forall|j: int|
                    0 <= j < self.pending.entries@.len() ==> exists|j0: int|
                        0 <= j0 < pend0.len() && pend0[j0] == (
                        #[trigger] self.pending.entries@[j]),
                forall|j: int|
                    0 <= j < pend0.len() ==> queued_project(
                        self.pending.entries@,
                        (#[trigger] pend0[j]).project,
                    ) || queued_project(postponed@, pend0[j].project) || listed_project(
                        self.active@,
                        pend0[j].project,
                    ),
                forall|j: int|
                    0 <= j < postponed@.len() ==> (#[trigger] postponed@[j]).score
                        == spec_priority(postponed@[j].project, day0 + 1) && queued_project(
                        pend0,
                        postponed@[j].project,
                    ),
                self.active@ == act0 ==> forall|j: int|
                    0 <= j < postponed@.len() ==> staff_roles(
                        (#[trigger] postponed@[j]).project.roles@,
                        ws0,
                        act0,
                        Seq::<String>::empty(),
                    ) is None,
            decreases self.pending.entries@.len(),
        {
            let ghost entries_pre = self.pending.entries@;
            let got = self.pending.extract_max();
            match got {
                None => {
                    proof {
                        assert(wrap_pot(self.pending.entries@) == 0);
                    }
                    break;
                },
                Some(w) => {
                    proof {
                        let gi = choose|gi: int|
                            max_at(entries_pre, gi) && w == entries_pre[gi]
                                && self.pending.entries@ == entries_pre.remove(gi);
                        lemma_wrap_pot_remove(entries_pre, gi);
                        lemma_wrap_pot_bounds(entries_pre);
                        assert(wf_project(entries_pre[gi].project));
                        assert forall|j: int|
                            0 <= j < self.pending.entries@.len() implies wf_project(
                            (#[trigger] self.pending.entries@[j]).project,
                        ) && exists|j0: int|
                            0 <= j0 < pend0.len() && pend0[j0] == self.pending.entries@[j] by {
                            if j < gi {
                                assert(self.pending.entries@[j] == entries_pre[j]);
                            } else {
                                assert(self.pending.entries@[j] == entries_pre[j + 1]);
                            }
                        }
                        assert(w == entries_pre[gi]);
                        assert(exists|j0: int| 0 <= j0 < pend0.len() && pend0[j0] == w);
                        let j0 = choose|j0: int| 0 <= j0 < pend0.len() && pend0[j0] == w;
                        assert(pend0[j0].project == w.project);
                        assert(queued_project(pend0, w.project));
                    }
                    let staffed = try_staff(&w.project, &self.workers, &self.active);
                    match staffed {
                        Some(c) => {
                            proof {
                                lemma_staff_roles_props(
                                    w.project.roles@,
                                    self.workers@,
                                    self.active@,
                                    Seq::<String>::empty(),
                                );
                            }
                            let ghost act_pre = self.active@;
                            let ghost snap = self.workers@;
                            let a = Assignment {
                                project: w.project,
                                started_at: self.day,
                                workers: c,
                                start_roster: Ghost(snap),
                            };
                            self.active.push(a);
                            proof {
                                let ga = self.active@.last();
                                assert(self.active@ == act_pre.push(ga));
                                lemma_act_pot_push(act_pre, day0 as int, ga);
                                let sr = staff_roles(
                                    ga.project.roles@,
                                    self.workers@,
                                    act_pre,
                                    Seq::<String>::empty(),
                                ).unwrap();
                                assert(ga.workers@ == sr);
                                assert forall|k: int|
                                    0 <= k < ga.workers@.len() implies proficient(
                                    self.workers@,
                                    (#[trigger] ga.workers@[k])@,
                                    ga.project.roles@[k].0@,
                                    ga.project.roles@[k].1,
                                ) && !assigned_in(act_pre, ga.workers@[k]@) by {
                                    assert(sr[k] == ga.workers@[k]);
                                }
                                assert forall|k1: int, k2: int|
                                    0 <= k1 < k2 < ga.workers@.len() implies (
                                #[trigger] ga.workers@[k1])@ != (#[trigger] ga.workers@[k2])@ by {
                                    assert(sr[k1] == ga.workers@[k1]);
                                    assert(sr[k2] == ga.workers@[k2]);
                                }
                                assert(wf_assignment(self.workers@, ga));
                                assert(ga.start_roster@ == self.workers@);
                                assert(roster_wf(self.workers@, self.workers@));
                                assert(sound_assignment(self.workers@, init0, ga));
                                assert forall|i: int|
                                    0 <= i < self.active@.len() implies sound_assignment(
                                    self.workers@,
                                    init0,
                                    #[trigger] self.active@[i],
                                ) && wf_project(self.active@[i].project)
                                    && self.active@[i].started_at <= day0 && day0 + 1
                                    <= self.active@[i].started_at
                                    + self.active@[i].project.duration by {
                                    if i < act_pre.len() {
                                        assert(self.active@[i] == act_pre[i]);
                                    } else {
                                        assert(self.active@[i] == ga);
                                    }
                                }
                                assert forall|i: int, j: int, k1: int, k2: int|
                                    #![trigger self.active@[i].workers@[k1], self.active@[j].workers@[k2]]
                                    0 <= i < self.active@.len() && 0 <= j < self.active@.len() && i
                                    != j && 0 <= k1 < self.active@[i].workers@.len() && 0 <= k2
                                    < self.active@[j].workers@.len() implies self.active@[i].workers@[k1]@
                                    != self.active@[j].workers@[k2]@ by {
                                    if i < act_pre.len() && j < act_pre.len() {
                                        assert(self.active@[i] == act_pre[i]);
                                        assert(self.active@[j] == act_pre[j]);
                                    } else if i == act_pre.len() {
                                        assert(self.active@[i] == ga);
                                        assert(self.active@[j] == act_pre[j]);
                                        assert(!assigned_in(act_pre, ga.workers@[k1]@));
                                    } else {
                                        assert(self.active@[j] == ga);
                                        assert(self.active@[i] == act_pre[i]);
                                        assert(!assigned_in(act_pre, ga.workers@[k2]@));
                                    }
                                }
                                assert(queued_project(pend0, ga.project));
                                assert forall|i: int|
                                    0 <= i < act_pre.len() implies self.active@[i]
                                    == act_pre[i] by {}
                                assert(self.active@[act_pre.len() as int] == ga);
                                assert(self.active@.len() > act0.len());
                                assert forall|j: int|
                                    0 <= j < pend0.len() implies queued_project(
                                    self.pending.entries@,
                                    (#[trigger] pend0[j]).project,
                                ) || queued_project(postponed@, pend0[j].project)
                                    || listed_project(self.active@, pend0[j].project) by {
                                    if queued_project(entries_pre, pend0[j].project) {
                                        let gi = choose|gi: int|
                                            max_at(entries_pre, gi) && w == entries_pre[gi]
                                                && self.pending.entries@ == entries_pre.remove(
                                                gi,
                                            );
                                        let wit = choose|wit: int|
                                            0 <= wit < entries_pre.len() && (
                                            #[trigger] entries_pre[wit]).project
                                                == pend0[j].project;
                                        if wit == gi {
                                            assert(ga.project == pend0[j].project);
                                            assert(listed_project(
                                                self.active@,
                                                pend0[j].project,
                                            ));
                                        } else if wit < gi {
                                            assert(self.pending.entries@[wit]
                                                == entries_pre[wit]);
                                            assert(queued_project(
                                                self.pending.entries@,
                                                pend0[j].project,
                                            ));
                                        } else {
                                            assert(self.pending.entries@[wit - 1]
                                                == entries_pre[wit]);
                                            assert(queued_project(
                                                self.pending.entries@,
                                                pend0[j].project,
                                            ));
                                        }
                                    } else if listed_project(act_pre, pend0[j].project) {
                                        let wit = choose|wit: int|
                                            0 <= wit < act_pre.len() && (
                                            #[trigger] act_pre[wit]).project == pend0[j].project;
                                        assert(self.active@[wit] == act_pre[wit]);
                                        assert(listed_project(self.active@, pend0[j].project));
                                    }
                                }
                            }
                        },
                        None => {
                            proof {
                                lemma_act_pot_bounds(self.active@, day0 as int);
                                lemma_wrap_pot_nonneg(postponed@);
                                lemma_wrap_pot_nonneg(self.pending.entries@);
                                assert(day0 + 2 <= budget0);
                            }
                            let ghost post_pre = postponed@;
                            let w2 = ProjectWrapper::new(w.project, self.day + 1);
                            postponed.push(w2);
                            proof {
                                lemma_wrap_pot_push(post_pre, postponed@.last());
                                assert(postponed@.last().project == w.project);
                                assert forall|j: int|
                                    0 <= j < postponed@.len() implies (
                                #[trigger] postponed@[j]).score == spec_priority(
                                    postponed@[j].project,
                                    day0 + 1,
                                ) && queued_project(pend0, postponed@[j].project)
                                    && wf_project(postponed@[j].project) by {
                                    if j < post_pre.len() {
                                        assert(postponed@[j] == post_pre[j]);
                                    } else {
                                        assert(postponed@[j] == postponed@.last());
                                    }
                                }
                                if self.active@ == act0 {
                                    assert forall|j: int|
                                        0 <= j < postponed@.len() implies staff_roles(
                                        (#[trigger] postponed@[j]).project.roles@,
                                        ws0,
                                        act0,
                                        Seq::<String>::empty(),
                                    ) is None by {
                                        if j < post_pre.len() {
                                            assert(postponed@[j] == post_pre[j]);
                                        } else {
                                            assert(postponed@[j] == postponed@.last());
                                            assert(staff_roles(
                                                w.project.roles@,
                                                self.workers@,
                                                self.active@,
                                                Seq::<String>::empty(),
                                            ) is None);
                                        }
                                    }
                                }
                                assert forall|j: int|
                                    0 <= j < pend0.len() implies queued_project(
                                    self.pending.entries@,
                                    (#[trigger] pend0[j]).project,
                                ) || queued_project(postponed@, pend0[j].project)
                                    || listed_project(self.active@, pend0[j].project) by {
                                    if queued_project(entries_pre, pend0[j].project) {
                                        let gi = choose|gi: int|
                                            max_at(entries_pre, gi) && w == entries_pre[gi]
                                                && self.pending.entries@ == entries_pre.remove(
                                                gi,
                                            );
                                        let wit = choose|wit: int|
                                            0 <= wit < entries_pre.len() && (
                                            #[trigger] entries_pre[wit]).project
                                                == pend0[j].project;
                                        if wit == gi {
                                            assert(postponed@.last().project == pend0[j].project);
                                            assert(queued_project(postponed@, pend0[j].project));
                                        } else if wit < gi {
                                            assert(self.pending.entries@[wit]
                                                == entries_pre[wit]);
                                            assert(queued_project(
                                                self.pending.entries@,
                                                pend0[j].project,
                                            ));
                                        } else {
                                            assert(self.pending.entries@[wit - 1]
                                                == entries_pre[wit]);
                                            assert(queued_project(
                                                self.pending.entries@,
                                                pend0[j].project,
                                            ));
                                        }
                                    } else if queued_project(post_pre, pend0[j].project) {
                                        let wit = choose|wit: int|
                                            0 <= wit < post_pre.len() && (
                                            #[trigger] post_pre[wit]).project == pend0[j].project;
                                        assert(postponed@[wit] == post_pre[wit]);
                                        assert(queued_project(postponed@, pend0[j].project));
                                    }
                                }
                            }
                        },
                    }
                },
            }
        }
        // termination check: with nothing active, no postponed project can
        // ever be staffed; re-admit the postponed projects so the caller can
        // see what could never be staffed, and stop
        if self.active.len() == 0 {
            proof {
                lemma_wrap_pot_nonneg(postponed@);
                assert(act_pot(self.active@, day0 as int) == 0);
                assert(wrap_pot(self.pending.entries@) == 0);
                assert(self.active@ =~= act0);
            }
            let ghost post_fin = postponed@;
            let ghost entries_fin = self.pending.entries@;
            self.readmit(postponed);
            proof {
                assert(self.pending.entries@ =~= post_fin);
                assert(act_pot(self.active@, day0 as int) == 0);
                assert forall|j: int|
                    0 <= j < pend0.len() implies queued_project(
                    self.pending.entries@,
                    (#[trigger] pend0[j]).project,
                ) || listed_project(self.active@, pend0[j].project) || listed_project(
                    self.completed@,
                    pend0[j].project,
                ) by {
                    assert(!queued_project(entries_fin, pend0[j].project));
                    assert(!listed_project(act0, pend0[j].project));
                    if queued_project(post_fin, pend0[j].project) {
                        let wit = choose|wit: int|
                            0 <= wit < post_fin.len() && (#[trigger] post_fin[wit]).project
                                == pend0[j].project;
                        assert(self.pending.entries@[wit] == post_fin[wit]);
                    }
                }
                assert forall|i2: int|
                    0 <= i2 < self.pending.entries@.len() implies staff_roles(
                    (#[trigger] self.pending.entries@[i2]).project.roles@,
                    self.workers@,
                    self.active@,
                    Seq::<String>::empty(),
                ) is None && wf_project(self.pending.entries@[i2].project) && (
                self.pending.entries@[i2]).score == spec_priority(
                    self.pending.entries@[i2].project,
                    day0 + 1,
                ) && queued_project(pend0, self.pending.entries@[i2].project) by {
                    assert(self.pending.entries@[i2] == post_fin[i2]);
                    assert(staff_roles(
                        post_fin[i2].project.roles@,
                        ws0,
                        act0,
                        Seq::<String>::empty(),
                    ) is None);
                }
            }
            return false;
        }
        // completion phase: retire what has run its duration out, growing
        // the bound workers' skills
        let ghost active_pre = self.active@.len() as int;
        let ghost act1 = self.active@;
        proof {
            assert forall|j: int| 0 <= j < act1.len() implies listed(
                self.active@,
                #[trigger] act1[j],
            ) by {
                assert(0 <= j < self.active@.len() && self.active@[j] == act1[j]);
            }
            assert forall|j: int| 0 <= j < self.active@.len() implies listed(
                act1,
                #[trigger] self.active@[j],
            ) by {
                assert(act1[j] == self.active@[j]);
            }
        }
        let mut i: usize = 0;
        while i < self.active.len()
            invariant
                self.day == day0,
                self.init@ == init0,
                self.budget@ == budget0,
                self.pending.entries@.len() == 0,
                self.wf_core(),
                roster_wf(self.workers@, ws0),
                0 <= i <= self.active@.len(),
                forall|j: int|
                    0 <= j < i ==> day0 + 2 <= (#[trigger] self.active@[j]).started_at
                        + self.active@[j].project.duration,
                completed0.len() <= self.completed@.len(),
                forall|j: int| 0 <= j < completed0.len() ==> self.completed@[j] == completed0[j],
                forall|j: int|
                    0 <= j < self.completed@.len() ==> (#[trigger] self.completed@[j]).started_at
                        + self.completed@[j].project.duration <= day0 + 1,
                forall|j: int|
                    completed0.len() <= j < self.completed@.len() ==> (
                    #[trigger] self.completed@[j]).started_at
                        + self.completed@[j].project.duration == day0 + 1,
                day0 + wrap_pot(postponed@) + act_pot(self.active@, day0 as int) + 2 * (
                self.completed@.len() - completed0.len()) <= budget0,
                self.active@.len() + self.completed@.len() - completed0.len() == active_pre,
                forall|j: int|
                    0 <= j < postponed@.len() ==> wf_project((#[trigger] postponed@[j]).project),
                forall|j: int|
                    0 <= j < act1.len() ==> listed(self.active@, #[trigger] act1[j]) || listed(
                        self.completed@,
                        act1[j],
                    ),
                forall|j: int| 0 <= j < self.active@.len() ==> listed(act1, #[trigger] self.active@[j]),
                forall|c: int|
                    completed0.len() <= c < self.completed@.len() ==> listed(
                        act1,
                        #[trigger] self.completed@[c],
                    ),
                self.workers@.len() == ws0.len(),
                forall|i2: int|
                    0 <= i2 < self.workers@.len() ==> self.workers@[i2] == ws0[i2] || exists|
                        c: int,
                        k: int,
                    |
                        completed0.len() <= c < self.completed@.len() && 0 <= k
                            < self.completed@[c].workers@.len() && self.completed@[c].workers@[k]@
                            == ws0[i2].name@ && grown_for(
                            ws0[i2],
                            self.workers@[i2],
                            self.completed@[c].project.roles@[k],
                        ),
                forall|c: int, k: int|
                    #![trigger self.completed@[c].workers@[k]]
                    completed0.len() <= c < self.completed@.len() && 0 <= k
                        < self.completed@[c].workers@.len() ==> growth_applied(
                        ws0,
                        self.workers@,
                        self.completed@[c],
                        k,
                    ),
                forall|c: int, k: int, j: int, k2: int|
                    #![trigger self.completed@[c].workers@[k], self.active@[j].workers@[k2]]
                    completed0.len() <= c < self.completed@.len() && 0 <= k
                        < self.completed@[c].workers@.len() && 0 <= j < self.active@.len() && 0
                        <= k2 < self.active@[j].workers@.len() ==> self.completed@[c].workers@[k]@
                        != self.active@[j].workers@[k2]@,
            decreases self.active@.len() - i,
        {
            proof {
                lemma_act_pot_bounds(self.active@, day0 as int);
                lemma_wrap_pot_nonneg(postponed@);
            }
            let fin = self.active[i].started_at + self.active[i].project.duration;
            if fin <= self.day + 1 {
                let ghost act_pre2 = self.active@;
                let a = self.active.remove(i);
                proof {
                    lemma_act_pot_remove(act_pre2, day0 as int, i as int);
                    assert forall|j: int|
                        0 <= j < self.active@.len() implies #[trigger] self.active@[j] == (
                        if j < i as int {
                            act_pre2[j]
                        } else {
                            act_pre2[j + 1]
                        }) by {}
                    assert forall|ii: int, jj: int, k1: int, k2: int|
                        #![trigger self.active@[ii].workers@[k1], self.active@[jj].workers@[k2]]
                        0 <= ii < self.active@.len() && 0 <= jj < self.active@.len() && ii != jj
                        && 0 <= k1 < self.active@[ii].workers@.len() && 0 <= k2
                        < self.active@[jj].workers@.len() implies self.active@[ii].workers@[k1]@
                        != self.active@[jj].workers@[k2]@ by {
                        let oi = if ii < i as int { ii } else { ii + 1 };
                        let oj = if jj < i as int { jj } else { jj + 1 };
                        assert(self.active@[ii] == act_pre2[oi]);
                        assert(self.active@[jj] == act_pre2[oj]);
                    }
                }
                // grow each bound worker's proficiency in the role's skill
                let ghost gact = self.active@;
                let ghost gcomp = self.completed@;
                let ghost gpost = postponed@;
                let ghost gws = self.workers@;
                proof {
                    // restate today's growth bookkeeping over the snapshots,
                    // so it survives the growth loop below
                    assert forall|i2: int|
                        0 <= i2 < ws0.len() implies (#[trigger] ws0[i2]).name@
                        == gws[i2].name@ by {}
                    assert forall|i1: int, i2: int|
                        0 <= i1 < i2 < ws0.len() implies (#[trigger] ws0[i1]).name@ != (
                    #[trigger] ws0[i2]).name@ by {
                        assert(gws[i1].name@ != gws[i2].name@);
                    }
                    assert forall|c: int, k: int|
                        #![trigger gcomp[c].workers@[k]]
                        completed0.len() <= c < gcomp.len() && 0 <= k < gcomp[c].workers@.len()
                        implies growth_applied(ws0, gws, gcomp[c], k) by {
                        assert(self.completed@[c] == gcomp[c]);
                        assert(self.completed@[c].workers@[k] == gcomp[c].workers@[k]);
                        assert(growth_applied(ws0, self.workers@, self.completed@[c], k));
                    }
                    assert forall|i2: int|
                        0 <= i2 < gws.len() implies gws[i2] == ws0[i2] || exists|c: int, k: int|
                        completed0.len() <= c < gcomp.len() && 0 <= k < gcomp[c].workers@.len()
                            && gcomp[c].workers@[k]@ == ws0[i2].name@ && grown_for(
                            ws0[i2],
                            gws[i2],
                            gcomp[c].project.roles@[k],
                        ) by {
                        assert(self.workers@[i2] == gws[i2]);
                        if self.workers@[i2] != ws0[i2] {
                            let (c0, k0) = choose|c0: int, k0: int|
                                completed0.len() <= c0 < self.completed@.len() && 0 <= k0
                                    < self.completed@[c0].workers@.len() && (
                                #[trigger] self.completed@[c0].workers@[k0])@ == ws0[i2].name@
                                    && grown_for(
                                    ws0[i2],
                                    self.workers@[i2],
                                    self.completed@[c0].project.roles@[k0],
                                );
                            assert(gcomp[c0] == self.completed@[c0]);
                            assert(gcomp[c0].workers@[k0]@ == ws0[i2].name@ && grown_for(
                                ws0[i2],
                                gws[i2],
                                gcomp[c0].project.roles@[k0],
                            ));
                        }
                    }
                    // the retired assignment's workers are disjoint from the
                    // workers of everything retired earlier today
                    assert forall|c: int, k: int, k2: int|
                        #![trigger gcomp[c].workers@[k], a.workers@[k2]]
                        completed0.len() <= c < gcomp.len() && 0 <= k < gcomp[c].workers@.len()
                            && 0 <= k2 < a.workers@.len() implies gcomp[c].workers@[k]@
                        != a.workers@[k2]@ by {
                        assert(a == act_pre2[i as int]);
                        assert(self.completed@[c].workers@[k]@ != act_pre2[
                            i as int
                        ].workers@[k2]@);
                        assert(self.completed@[c].workers@[k] == gcomp[c].workers@[k]);
                    }
                    // this assignment's workers were untouched by the growth
                    // of the assignments retired earlier today
                    assert forall|k2: int|
                        0 <= k2 < a.workers@.len() implies {
                        let ri = roster_idx(ws0, (#[trigger] a.workers@[k2])@);
                        &&& 0 <= ri < ws0.len()
                        &&& ws0[ri].name@ == a.workers@[k2]@
                        &&& gws[ri] == ws0[ri]
                    } by {
                        assert(proficient(
                            self.workers@,
                            a.workers@[k2]@,
                            a.project.roles@[k2].0@,
                            a.project.roles@[k2].1,
                        ));
                        let wi = choose|wi: int|
                            0 <= wi < gws.len() && (#[trigger] gws[wi]).name@ == a.workers@[k2]@
                                && eligible(
                                gws[wi],
                                a.project.roles@[k2].0@,
                                a.project.roles@[k2].1,
                            );
                        assert(ws0[wi].name@ == a.workers@[k2]@);
                        lemma_roster_idx(ws0, a.workers@[k2]@, wi);
                        if gws[wi] != ws0[wi] {
                            let (c0, k0) = choose|c0: int, k0: int|
                                completed0.len() <= c0 < gcomp.len() && 0 <= k0
                                    < gcomp[c0].workers@.len() && (
                                #[trigger] gcomp[c0].workers@[k0])@ == ws0[wi].name@
                                    && grown_for(
                                    ws0[wi],
                                    gws[wi],
                                    gcomp[c0].project.roles@[k0],
                                );
                            assert(gcomp[c0].workers@[k0]@ != a.workers@[k2]@);
                            assert(false);
                        }
                    }
                }
                let mut k: usize = 0;
                while k < a.workers.len()
                    invariant
                        self.day == day0,
                        self.init@ == init0,
                        self.budget@ == budget0,
                        self.pending.entries@.len() == 0,
                        self.wf_core(),
                        roster_wf(self.workers@, ws0),
                        roster_wf(gws, ws0),
                        sound_assignment(self.workers@, init0, a),
                        wf_project(a.project),
                        wf_assignment(gws, a),
                        0 <= k <= a.workers@.len(),
                        self.active@ == gact,
                        self.completed@ == gcomp,
                        postponed@ == gpost,
                        self.workers@.len() == gws.len(),
                        forall|i2: int|
                            0 <= i2 < self.workers@.len() ==> self.workers@[i2] == gws[i2]
                                || exists|k2: int|
                                0 <= k2 < k && (#[trigger] a.workers@[k2])@ == gws[i2].name@
                                    && grown_for(
                                    gws[i2],
                                    self.workers@[i2],
                                    a.project.roles@[k2],
                                ),
                        forall|k2: int|
                            0 <= k2 < k ==> growth_applied(ws0, self.workers@, a, k2),
                        forall|i1: int, i2: int|
                            0 <= i1 < i2 < ws0.len() ==> (#[trigger] ws0[i1]).name@ != (
                            #[trigger] ws0[i2]).name@,
                        forall|k2: int|
                            0 <= k2 < a.workers@.len() ==> {
                                let ri = roster_idx(ws0, (#[trigger] a.workers@[k2])@);
                                &&& 0 <= ri < ws0.len()
                                &&& ws0[ri].name@ == a.workers@[k2]@
                                &&& gws[ri] == ws0[ri]
                            },
                    decreases a.workers@.len() - k,
                {
                    proof {
                        assert(proficient(
                            self.workers@,
                            a.workers@[k as int]@,
                            a.project.roles@[k as int].0@,
                            a.project.roles@[k as int].1,
                        ));
                    }
                    let widx = find_worker_idx(&self.workers, &a.workers[k]);
                    let j = match widx {
                        Some(j) => j,
                        None => {
                            proof {
                                let wi = choose|wi: int|
                                    0 <= wi < self.workers@.len() && (
                                    #[trigger] self.workers@[wi]).name@ == a.workers@[k as int]@
                                        && eligible(
                                        self.workers@[wi],
                                        a.project.roles@[k as int].0@,
                                        a.project.roles@[k as int].1,
                                    );
                                assert(false);
                            }
                            0
                        },
                    };
                    proof {
                        let skname = a.project.roles@[k as int].0@;
                        let lvl = a.project.roles@[k as int].1;
                        let wi = choose|wi: int|
                            0 <= wi < self.workers@.len() && (#[trigger] self.workers@[wi]).name@
                                == a.workers@[k as int]@ && eligible(
                                self.workers@[wi],
                                skname,
                                lvl,
                            );
                        assert(wi == j as int);
                        assert(eligible(self.workers@[j as int], skname, lvl));
                        assert(lvl < usize::MAX);
                    }
                    let ghost ws_pre = self.workers@;
                    grow_worker(&mut self.workers, j, &a.project.roles[k].0, a.project.roles[k].1);
                    proof {
                        let skname = a.project.roles@[k as int].0@;
                        let lvl = a.project.roles@[k as int].1;
                        let v = skill_opt(ws_pre[j as int].skill@, skname).unwrap();
                        assert(skill_opt(self.workers@[j as int].skill@, skname) == Some(
                            grown_level(Some(v), lvl) as usize,
                        ));
                        assert(grown_level(Some(v), lvl) <= usize::MAX);
                        assert forall|i2: int, s: Seq<char>|
                            #![trigger skill_opt(self.workers@[i2].skill@, s)]
                            0 <= i2 < ws_pre.len() implies match skill_opt(
                            ws_pre[i2].skill@,
                            s,
                        ) {
                            Some(v2) => skill_opt(self.workers@[i2].skill@, s) is Some
                                && skill_opt(self.workers@[i2].skill@, s).unwrap() >= v2,
                            None => true,
                        } by {
                            if i2 == j as int {
                                if s == skname {
                                } else {
                                    assert(skill_opt(self.workers@[i2].skill@, s) == skill_opt(
                                        ws_pre[i2].skill@,
                                        s,
                                    ));
                                }
                            } else {
                                assert(self.workers@[i2] == ws_pre[i2]);
                            }
                        }
                        lemma_grow_preserves_proficient(ws_pre, self.workers@);
                        assert(skill_opt(ws_pre[j as int].skill@, skname) == Some(v));
                        assert(grown_level(Some(v), lvl) >= v);
                        lemma_roster_wf_step(ws_pre, self.workers@, init0, j as int, skname, v);
                        lemma_roster_wf_step(ws_pre, self.workers@, ws0, j as int, skname, v);
                        assert forall|jx: int|
                            0 <= jx < self.active@.len() implies sound_assignment(
                            self.workers@,
                            init0,
                            #[trigger] self.active@[jx],
                        ) by {
                            assert(sound_assignment(ws_pre, init0, self.active@[jx]));
                            lemma_wf_assignment_grow(ws_pre, self.workers@, self.active@[jx]);
                            lemma_roster_wf_step(
                                ws_pre,
                                self.workers@,
                                self.active@[jx].start_roster@,
                                j as int,
                                skname,
                                v,
                            );
                        }
                        assert forall|jx: int|
                            0 <= jx < self.completed@.len() implies sound_assignment(
                            self.workers@,
                            init0,
                            #[trigger] self.completed@[jx],
                        ) by {
                            assert(sound_assignment(ws_pre, init0, self.completed@[jx]));
                            lemma_wf_assignment_grow(ws_pre, self.workers@, self.completed@[jx]);
                            lemma_roster_wf_step(
                                ws_pre,
                                self.workers@,
                                self.completed@[jx].start_roster@,
                                j as int,
                                skname,
                                v,
                            );
                        }
                        lemma_wf_assignment_grow(ws_pre, self.workers@, a);
                        lemma_roster_wf_step(
                            ws_pre,
                            self.workers@,
                            a.start_roster@,
                            j as int,
                            skname,
                            v,
                        );
                        // this is the first touch of worker j today within
                        // this assignment: each worker is bound to one role
                        assert(ws_pre[j as int].name@ == a.workers@[k as int]@);
                        assert(gws[j as int].name@ == ws0[j as int].name@);
                        assert(ws_pre[j as int].name@ == ws0[j as int].name@);
                        assert(ws_pre[j as int] == gws[j as int]);
                        assert(grown_for(
                            gws[j as int],
                            self.workers@[j as int],
                            a.project.roles@[k as int],
                        ));
                        assert forall|i2: int|
                            0 <= i2 < self.workers@.len() implies self.workers@[i2] == gws[i2]
                            || exists|k2: int|
                            0 <= k2 < k as int + 1 && (#[trigger] a.workers@[k2])@
                                == gws[i2].name@ && grown_for(
                                gws[i2],
                                self.workers@[i2],
                                a.project.roles@[k2],
                            ) by {
                            if i2 == j as int {
                                assert(a.workers@[k as int]@ == gws[i2].name@);
                            } else {
                                assert(self.workers@[i2] == ws_pre[i2]);
                            }
                        }
                        assert(ws0[j as int].name@ == ws_pre[j as int].name@);
                        assert(ws0[j as int].name@ == a.workers@[k as int]@);
                        lemma_roster_idx(ws0, a.workers@[k as int]@, j as int);
                        assert(gws[j as int] == ws0[j as int]);
                        assert(grown_for(
                            ws0[j as int],
                            self.workers@[j as int],
                            a.project.roles@[k as int],
                        ));
                        assert(growth_applied(ws0, self.workers@, a, k as int));
                        assert forall|k2: int|
                            0 <= k2 < k as int + 1 implies growth_applied(
                            ws0,
                            self.workers@,
                            a,
                            k2,
                        ) by {
                            if k2 < k as int {
                                assert(growth_applied(ws0, ws_pre, a, k2));
                                let i2 = roster_idx(ws0, a.workers@[k2]@);
                                assert(ws0[i2].name@ == a.workers@[k2]@);
                                assert(a.workers@[k2]@ != a.workers@[k as int]@);
                                assert(i2 != j as int);
                                assert(self.workers@[i2] == ws_pre[i2]);
                            }
                        }
                    }
                    k = k + 1;
                }
                let ghost comp_pre = self.completed@;
                self.completed.push(a);
                proof {
                    assert(self.completed@ == comp_pre.push(self.completed@.last()));
                    assert forall|j: int|
                        0 <= j < self.completed@.len() implies sound_assignment(
                        self.workers@,
                        init0,
                        #[trigger] self.completed@[j],
                    ) && self.completed@[j].started_at + self.completed@[j].project.duration <= day0
                        + 1 by {
                        if j < comp_pre.len() {
                            assert(self.completed@[j] == comp_pre[j]);
                        } else {
                            assert(self.completed@[j] == self.completed@.last());
                        }
                    }
                    assert(self.completed@.last() == a);
                    assert(a == act_pre2[i as int]);
                    assert(listed(act1, act_pre2[i as int]));
                    assert forall|j: int|
                        0 <= j < act1.len() implies listed(self.active@, #[trigger] act1[j])
                        || listed(self.completed@, act1[j]) by {
                        if listed(act_pre2, act1[j]) {
                            let wit = choose|wit: int|
                                0 <= wit < act_pre2.len() && #[trigger] act_pre2[wit] == act1[j];
                            if wit == i as int {
                                assert(listed(self.completed@, act1[j]));
                            } else if wit < i as int {
                                assert(self.active@[wit] == act_pre2[wit]);
                                assert(listed(self.active@, act1[j]));
                            } else {
                                assert(self.active@[wit - 1] == act_pre2[wit]);
                                assert(listed(self.active@, act1[j]));
                            }
                        } else {
                            let wit = choose|wit: int|
                                0 <= wit < comp_pre.len() && #[trigger] comp_pre[wit] == act1[j];
                            assert(self.completed@[wit] == comp_pre[wit]);
                            assert(listed(self.completed@, act1[j]));
                        }
                    }
                    assert forall|j: int|
                        0 <= j < self.active@.len() implies listed(
                        act1,
                        #[trigger] self.active@[j],
                    ) by {
                        if j < i as int {
                            assert(self.active@[j] == act_pre2[j]);
                            assert(listed(act1, act_pre2[j]));
                        } else {
                            assert(self.active@[j] == act_pre2[j + 1]);
                            assert(listed(act1, act_pre2[j + 1]));
                        }
                    }
                    assert forall|c: int|
                        completed0.len() <= c < self.completed@.len() implies listed(
                        act1,
                        #[trigger] self.completed@[c],
                    ) by {
                        if c < comp_pre.len() {
                            assert(self.completed@[c] == comp_pre[c]);
                        } else {
                            assert(self.completed@[c] == a);
                        }
                    }
                    assert forall|i2: int|
                        0 <= i2 < self.workers@.len() implies self.workers@[i2] == ws0[i2]
                        || exists|c: int, k: int|
                        completed0.len() <= c < self.completed@.len() && 0 <= k
                            < self.completed@[c].workers@.len() && self.completed@[c].workers@[k]@
                            == ws0[i2].name@ && grown_for(
                            ws0[i2],
                            self.workers@[i2],
                            self.completed@[c].project.roles@[k],
                        ) by {
                        if self.workers@[i2] == gws[i2] {
                            if gws[i2] != ws0[i2] {
                                let (c0, k0) = choose|c0: int, k0: int|
                                    completed0.len() <= c0 < gcomp.len() && 0 <= k0
                                        < gcomp[c0].workers@.len() && (
                                    #[trigger] gcomp[c0].workers@[k0])@ == ws0[i2].name@
                                        && grown_for(
                                        ws0[i2],
                                        gws[i2],
                                        gcomp[c0].project.roles@[k0],
                                    );
                                assert(self.completed@[c0] == gcomp[c0]);
                                assert(self.completed@[c0].workers@[k0]@ == ws0[i2].name@
                                    && grown_for(
                                    ws0[i2],
                                    self.workers@[i2],
                                    self.completed@[c0].project.roles@[k0],
                                ));
                            }
                        } else {
                            let k2 = choose|k2: int|
                                0 <= k2 < a.workers@.len() && (#[trigger] a.workers@[k2])@
                                    == gws[i2].name@ && grown_for(
                                    gws[i2],
                                    self.workers@[i2],
                                    a.project.roles@[k2],
                                );
                            assert(gws[i2].name@ == ws0[i2].name@);
                            if gws[i2] != ws0[i2] {
                                let (c0, k0) = choose|c0: int, k0: int|
                                    completed0.len() <= c0 < gcomp.len() && 0 <= k0
                                        < gcomp[c0].workers@.len() && (
                                    #[trigger] gcomp[c0].workers@[k0])@ == ws0[i2].name@
                                        && grown_for(
                                        ws0[i2],
                                        gws[i2],
                                        gcomp[c0].project.roles@[k0],
                                    );
                                assert(act_pre2[i as int].workers@[k2]@ == ws0[i2].name@);
                                assert(gcomp[c0].workers@[k0]@ != act_pre2[
                                    i as int
                                ].workers@[k2]@);
                                assert(false);
                            }
                            assert(self.completed@[gcomp.len() as int] == a);
                            assert(self.completed@[gcomp.len() as int].workers@[k2]@
                                == ws0[i2].name@ && grown_for(
                                ws0[i2],
                                self.workers@[i2],
                                self.completed@[gcomp.len() as int].project.roles@[k2],
                            ));
                        }
                    }
                    assert forall|c: int, k: int|
                        #![trigger self.completed@[c].workers@[k]]
                        completed0.len() <= c < self.completed@.len() && 0 <= k
                            < self.completed@[c].workers@.len() implies growth_applied(
                        ws0,
                        self.workers@,
                        self.completed@[c],
                        k,
                    ) by {
                        if c < gcomp.len() {
                            assert(self.completed@[c] == gcomp[c]);
                            assert(growth_applied(ws0, gws, gcomp[c], k));
                            let i2 = roster_idx(ws0, gcomp[c].workers@[k]@);
                            assert(ws0[i2].name@ == gcomp[c].workers@[k]@);
                            if self.workers@[i2] != gws[i2] {
                                let k2 = choose|k2: int|
                                    0 <= k2 < a.workers@.len() && (#[trigger] a.workers@[k2])@
                                        == gws[i2].name@ && grown_for(
                                        gws[i2],
                                        self.workers@[i2],
                                        a.project.roles@[k2],
                                    );
                                assert(gws[i2].name@ == ws0[i2].name@);
                                assert(gcomp[c].workers@[k]@ != a.workers@[k2]@);
                                assert(false);
                            }
                        } else {
                            assert(self.completed@[c] == a);
                            assert(growth_applied(ws0, self.workers@, a, k));
                        }
                    }
                    assert forall|c: int, k: int, j2: int, k2: int|
                        #![trigger self.completed@[c].workers@[k], self.active@[j2].workers@[k2]]
                        completed0.len() <= c < self.completed@.len() && 0 <= k
                            < self.completed@[c].workers@.len() && 0 <= j2 < self.active@.len()
                            && 0 <= k2 < self.active@[j2].workers@.len()
                        implies self.completed@[c].workers@[k]@
                        != self.active@[j2].workers@[k2]@ by {
                        let oj = if j2 < i as int {
                            j2
                        } else {
                            j2 + 1
                        };
                        assert(self.active@[j2] == act_pre2[oj]);
                        if c < comp_pre.len() {
                            assert(self.completed@[c] == comp_pre[c]);
                            assert(comp_pre[c].workers@[k]@ != act_pre2[oj].workers@[k2]@);
                        } else {
                            assert(self.completed@[c] == a);
                            assert(act_pre2[i as int].workers@[k]@ != act_pre2[oj].workers@[k2]@);
                        }
                    }
                }
            } else {
                i = i + 1;
            }
        }
        // re-admit the postponed projects, in postponement order, with the
        // priorities recomputed for the next day at postponement time
        let ghost act_fin = self.active@;
        let ghost comp_fin = self.completed@;
        let ghost post_fin = postponed@;
        self.readmit(postponed);
        proof {
            assert(self.pending.entries@ =~= post_fin);
            lemma_act_pot_shift(self.active@, day0 as int);
            lemma_act_pot_bounds(self.active@, day0 as int);
            lemma_wrap_pot_nonneg(self.pending.entries@);
            assert(self.active@.len() + self.completed@.len() - completed0.len() == active_pre);
            assert(active_pre >= 1);
            if self.active@.len() == 0 {
                assert(self.completed@.len() - completed0.len() >= 1);
            } else {
                assert(act_pot(self.active@, day0 as int) >= 2);
            }
            assert(day0 + 1 <= budget0);
            // every project queued at day start is again queued, active, or
            // retired: its staffing-phase disposition carried through the
            // completion phase
            assert forall|j: int|
                0 <= j < pend0.len() implies queued_project(
                self.pending.entries@,
                (#[trigger] pend0[j]).project,
            ) || listed_project(self.active@, pend0[j].project) || listed_project(
                self.completed@,
                pend0[j].project,
            ) by {
                if queued_project(post_fin, pend0[j].project) {
                    let wit = choose|wit: int|
                        0 <= wit < post_fin.len() && (#[trigger] post_fin[wit]).project
                            == pend0[j].project;
                    assert(self.pending.entries@[wit] == post_fin[wit]);
                } else if listed_project(act1, pend0[j].project) {
                    let wit = choose|wit: int|
                        0 <= wit < act1.len() && (#[trigger] act1[wit]).project
                            == pend0[j].project;
                    assert(listed(self.active@, act1[wit]) || listed(
                        self.completed@,
                        act1[wit],
                    ));
                    if listed(self.active@, act1[wit]) {
                        let w2 = choose|w2: int|
                            0 <= w2 < self.active@.len() && #[trigger] self.active@[w2]
                                == act1[wit];
                        assert(listed_project(self.active@, pend0[j].project));
                    } else {
                        let w2 = choose|w2: int|
                            0 <= w2 < self.completed@.len() && #[trigger] self.completed@[w2]
                                == act1[wit];
                        assert(listed_project(self.completed@, pend0[j].project));
                    }
                }
            }
            // assignments active at day start survive or retire
            assert forall|j: int|
                0 <= j < act0.len() implies listed(self.active@, #[trigger] act0[j]) || listed(
                self.completed@,
                act0[j],
            ) by {
                assert(act1[j] == act0[j]);
                assert(listed(self.active@, act1[j]) || listed(self.completed@, act1[j]));
            }
            // provenance of what is active or was retired today
            assert forall|i2: int|
                0 <= i2 < self.active@.len() implies listed(act0, #[trigger] self.active@[i2])
                || (self.active@[i2].started_at == day0 && self.active@[i2].start_roster@ == ws0
                    && queued_project(pend0, self.active@[i2].project)) by {
                assert(listed(act1, self.active@[i2]));
                let wit = choose|wit: int|
                    0 <= wit < act1.len() && #[trigger] act1[wit] == self.active@[i2];
                if wit < act0.len() {
                    assert(act1[wit] == act0[wit]);
                    assert(listed(act0, self.active@[i2]));
                }
            }
            assert forall|i2: int|
                completed0.len() <= i2 < self.completed@.len() implies listed(
                act0,
                #[trigger] self.completed@[i2],
            ) || (self.completed@[i2].started_at == day0 && self.completed@[i2].start_roster@
                == ws0 && queued_project(pend0, self.completed@[i2].project)) by {
                assert(listed(act1, self.completed@[i2]));
                let wit = choose|wit: int|
                    0 <= wit < act1.len() && #[trigger] act1[wit] == self.completed@[i2];
                if wit < act0.len() {
                    assert(act1[wit] == act0[wit]);
                    assert(listed(act0, self.completed@[i2]));
                }
            }
            // the re-admitted queue: provenance, recomputed priorities, and
            // well-formed projects
            assert forall|i2: int|
                0 <= i2 < self.pending.entries@.len() implies queued_project(
                pend0,
                (#[trigger] self.pending.entries@[i2]).project,
            ) && self.pending.entries@[i2].score == spec_priority(
                self.pending.entries@[i2].project,
                day0 + 1,
            ) && wf_project(self.pending.entries@[i2].project) by {
                assert(self.pending.entries@[i2] == post_fin[i2]);
            }
        }
        self.day = self.day + 1;
        let more = self.pending.len() > 0 || self.active.len() > 0;
        if !more {
            proof {
                assert(act_pot(self.active@, self.day as int) == 0);
                assert(wrap_pot(self.pending.entries@) == 0);
            }
        }
        more
    }
}

/// Runs the whole simulation on a loaded instance: day by day until either a
/// staffing pass leaves nothing active (nothing left can ever be staffed) or
/// the queue and the active set are both empty. Always terminates: every day
/// spends one unit of the instance's finite duration budget. The result holds
/// the final roster and the retired assignments in retirement order.
pub fn simulate(workers: Vec<Worker>, projects: Vec<Project>) -> (r: Scheduler)
    requires
        forall|i: int, j: int|
            0 <= i < j < workers@.len() ==> (#[trigger] workers@[i]).name@ != (
            #[trigger] workers@[j]).name@,
        forall|i: int| 0 <= i < projects@.len() ==> wf_project(#[trigger] projects@[i]),
        proj_pot(projects@) <= usize::MAX,
    ensures
        r.wf(),
        r.init@ == workers@,
        r.active@.len() == 0,
        r.budget@ == proj_pot(projects@),
        r.day <= proj_pot(projects@),
        // no project is lost: each one from the backlog is retired, or still
        // queued because it could never be staffed
        forall|j: int|
            0 <= j < projects@.len() ==> listed_project(r.completed@, #[trigger] projects@[j])
                || queued_project(r.pending.entries@, projects@[j]),
        // what is still queued cannot be staffed at all, even by the final,
        // fully grown roster with every worker idle
        forall|i: int|
            0 <= i < r.pending.entries@.len() ==> staff_roles(
                (#[trigger] r.pending.entries@[i]).project.roles@,
                r.workers@,
                r.active@,
                Seq::<String>::empty(),
            ) is None,
{
    let mut s = Scheduler::new(workers, projects);
    let ghost b = s.budget@;
    proof {
        assert forall|j: int|
            0 <= j < projects@.len() implies queued_project(
            s.pending.entries@,
            #[trigger] projects@[j],
        ) by {
            assert(s.pending.entries@[j].project == projects@[j]);
        }
    }
    loop
        invariant
            s.wf(),
            s.init@ == workers@,
            s.budget@ == b,
            forall|j: int|
                0 <= j < projects@.len() ==> queued_project(
                    s.pending.entries@,
                    #[trigger] projects@[j],
                ) || listed_project(s.active@, projects@[j]) || listed_project(
                    s.completed@,
                    projects@[j],
                ),
        ensures
            s.wf(),
            s.init@ == workers@,
            s.budget@ == b,
            s.active@.len() == 0,
            forall|j: int|
                0 <= j < projects@.len() ==> queued_project(
                    s.pending.entries@,
                    #[trigger] projects@[j],
                ) || listed_project(s.completed@, projects@[j]),
            forall|i: int|
                0 <= i < s.pending.entries@.len() ==> staff_roles(
                    (#[trigger] s.pending.entries@[i]).project.roles@,
                    s.workers@,
                    s.active@,
                    Seq::<String>::empty(),
                ) is None,
        decreases b + 1 - s.day,
    {
        proof {
            lemma_wrap_pot_nonneg(s.pending.entries@);
            lemma_act_pot_bounds(s.active@, s.day as int);
        }
        let ghost pre = s;
        let more = s.run_day();
        proof {
            assert forall|j: int|
                0 <= j < projects@.len() implies queued_project(
                s.pending.entries@,
                #[trigger] projects@[j],
            ) || listed_project(s.active@, projects@[j]) || listed_project(
                s.completed@,
                projects@[j],
            ) by {
                if queued_project(pre.pending.entries@, projects@[j]) {
                    let wit = choose|wit: int|
                        0 <= wit < pre.pending.entries@.len() && (
                        #[trigger] pre.pending.entries@[wit]).project == projects@[j];
                } else if listed_project(pre.active@, projects@[j]) {
                    let wit = choose|wit: int|
                        0 <= wit < pre.active@.len() && (#[trigger] pre.active@[wit]).project
                            == projects@[j];
                    assert(listed(s.active@, pre.active@[wit]) || listed(
                        s.completed@,
                        pre.active@[wit],
                    ));
                    if listed(s.active@, pre.active@[wit]) {
                        let w2 = choose|w2: int|
                            0 <= w2 < s.active@.len() && #[trigger] s.active@[w2]
                                == pre.active@[wit];
                        assert(listed_project(s.active@, projects@[j]));
                    } else {
                        let w2 = choose|w2: int|
                            0 <= w2 < s.completed@.len() && #[trigger] s.completed@[w2]
                                == pre.active@[wit];
                        assert(listed_project(s.completed@, projects@[j]));
                    }
                } else {
                    let wit = choose|wit: int|
                        0 <= wit < pre.completed@.len() && (#[trigger] pre.completed@[wit]).project
                            == projects@[j];
                    assert(s.completed@[wit] == pre.completed@[wit]);
                    assert(listed_project(s.completed@, projects@[j]));
                }
            }
        }
        if !more {
            break;
        }
        proof {
            lemma_wrap_pot_nonneg(s.pending.entries@);
            lemma_act_pot_bounds(s.active@, s.day as int);
        }
    }
    proof {
        lemma_day_bounded(s);
    }
    s
}

/// Progress and termination: in any well-formed state the day counter never
/// exceeds the instance's duration budget — one day of simulated time always
/// consumes at least one unit of it — so a run lasts at most
/// `proj_pot(projects)` simulated days whatever the instance holds, staffable
/// or not. (That the day loop in `simulate` ends at all is its `decreases`
/// measure, which rests on this bound.)
pub proof fn lemma_day_bounded(s: Scheduler)
    requires
        s.wf(),
    ensures
        s.day <= s.budget@,
{
    lemma_wrap_pot_nonneg(s.pending.entries@);
    lemma_act_pot_bounds(s.active@, s.day as int);
}

/// Staffing correctness: in any well-formed state — in particular in the one
/// a finished run returns — every retired assignment binds exactly one worker
/// per role, all distinct, each of them proficient enough for the role both
/// on the roster as it stood the day the assignment started (its
/// `start_roster` snapshot) and on the current one; and a worker name is
/// bound in at most one active assignment.
pub proof fn lemma_staffing_correct(s: Scheduler)
    requires
        s.wf(),
    ensures
        forall|c: int|
            0 <= c < s.completed@.len() ==> (#[trigger] s.completed@[c]).workers@.len()
                == s.completed@[c].project.roles@.len(),
        forall|c: int, k: int|
            #![trigger s.completed@[c].workers@[k]]
            0 <= c < s.completed@.len() && 0 <= k < s.completed@[c].workers@.len() ==> proficient(
                s.completed@[c].start_roster@,
                s.completed@[c].workers@[k]@,
                s.completed@[c].project.roles@[k].0@,
                s.completed@[c].project.roles@[k].1,
            ) && proficient(
                s.workers@,
                s.completed@[c].workers@[k]@,
                s.completed@[c].project.roles@[k].0@,
                s.completed@[c].project.roles@[k].1,
            ) && roster_wf(s.workers@, s.completed@[c].start_roster@) && roster_wf(
                s.completed@[c].start_roster@,
                s.init@,
            ),
        forall|c: int, k1: int, k2: int|
            #![trigger s.completed@[c].workers@[k1], s.completed@[c].workers@[k2]]
            0 <= c < s.completed@.len() && 0 <= k1 < k2 < s.completed@[c].workers@.len()
                ==> s.completed@[c].workers@[k1]@ != s.completed@[c].workers@[k2]@,
        forall|i: int, j: int, k1: int, k2: int|
            #![trigger s.active@[i].workers@[k1], s.active@[j].workers@[k2]]
            0 <= i < s.active@.len() && 0 <= j < s.active@.len() && i != j && 0 <= k1
                < s.active@[i].workers@.len() && 0 <= k2 < s.active@[j].workers@.len()
                ==> s.active@[i].workers@[k1]@ != s.active@[j].workers@[k2]@,
{
    assert forall|c: int|
        0 <= c < s.completed@.len() implies (#[trigger] s.completed@[c]).workers@.len()
        == s.completed@[c].project.roles@.len() by {
        assert(sound_assignment(s.workers@, s.init@, s.completed@[c]));
    }
    assert forall|c: int, k: int|
        #![trigger s.completed@[c].workers@[k]]
        0 <= c < s.completed@.len() && 0 <= k < s.completed@[c].workers@.len() implies proficient(
        s.completed@[c].start_roster@,
        s.completed@[c].workers@[k]@,
        s.completed@[c].project.roles@[k].0@,
        s.completed@[c].project.roles@[k].1,
    ) && proficient(
        s.workers@,
        s.completed@[c].workers@[k]@,
        s.completed@[c].project.roles@[k].0@,
        s.completed@[c].project.roles@[k].1,
    ) && roster_wf(s.workers@, s.completed@[c].start_roster@) && roster_wf(
        s.completed@[c].start_roster@,
        s.init@,
    ) by {
        assert(sound_assignment(s.workers@, s.init@, s.completed@[c]));
    }
    assert forall|c: int, k1: int, k2: int|
        #![trigger s.completed@[c].workers@[k1], s.completed@[c].workers@[k2]]
        0 <= c < s.completed@.len() && 0 <= k1 < k2 < s.completed@[c].workers@.len()
        implies s.completed@[c].workers@[k1]@ != s.completed@[c].workers@[k2]@ by {
        assert(sound_assignment(s.workers@, s.init@, s.completed@[c]));
    }
}

/// Skill growth bound: in any well-formed state, the roster holds the loaded
/// workers under their names, in order, and no proficiency has ever dropped
/// below its loaded value. (That a completed role never raises a level that
/// already exceeded its requirement is `grown_level`: the level moves to
/// `cur + 1` exactly when `cur <= level`, else stays at `cur`.)
pub proof fn lemma_skill_growth(s: Scheduler)
    requires
        s.wf(),
    ensures
        s.workers@.len() == s.init@.len(),
        forall|i: int| 0 <= i < s.workers@.len() ==> (#[trigger] s.workers@[i]).name@
            == s.init@[i].name@,
        forall|i: int, sk: Seq<char>|
            #![trigger level_of(s.workers@[i].skill@, sk)]
            0 <= i < s.workers@.len() ==> level_of(s.workers@[i].skill@, sk) >= level_of(
                s.init@[i].skill@,
                sk,
            ),
{
}

/// The growth cap: completing a role never raises a proficiency that already
/// exceeded the role's requirement, and raises one at or below it by exactly
/// one.
pub proof fn lemma_growth_cap(cur: usize, level: usize)
    ensures
        cur > level ==> grown_level(Some(cur), level) == cur,
        cur <= level ==> grown_level(Some(cur), level) == cur + 1,
        grown_level(Some(cur), level) >= cur,
{
}

/// A permanently unstaffable requirement: when no loaded worker has a skill
/// at all, no worker ever acquires it, so no project requiring it is ever
/// staffed — no retired assignment's project has a role asking for it.
pub proof fn lemma_unstaffable_never_completed(s: Scheduler, sk: Seq<char>)
    requires
        s.wf(),
        forall|i: int|
            0 <= i < s.init@.len() ==> skill_opt((#[trigger] s.init@[i]).skill@, sk) is None,
    ensures
        forall|c: int, k: int|
            #![trigger s.completed@[c].project.roles@[k]]
            0 <= c < s.completed@.len() && 0 <= k < s.completed@[c].project.roles@.len()
                ==> s.completed@[c].project.roles@[k].0@ != sk,
{
    assert forall|c: int, k: int|
        #![trigger s.completed@[c].project.roles@[k]]
        0 <= c < s.completed@.len() && 0 <= k < s.completed@[c].project.roles@.len()
        implies s.completed@[c].project.roles@[k].0@ != sk by {
        if s.completed@[c].project.roles@[k].0@ == sk {
            assert(sound_assignment(s.workers@, s.init@, s.completed@[c]));
            let n = s.completed@[c].workers@[k]@;
            assert(proficient(s.workers@, n, sk, s.completed@[c].project.roles@[k].1));
            let wi = choose|wi: int|
                0 <= wi < s.workers@.len() && (#[trigger] s.workers@[wi]).name@ == n && eligible(
                    s.workers@[wi],
                    sk,
                    s.completed@[c].project.roles@[k].1,
                );
            assert(skill_opt(s.workers@[wi].skill@, sk) is Some);
            assert(skill_opt(s.init@[wi].skill@, sk) is Some);
            assert(false);
        }
    }
}

} // verus!
