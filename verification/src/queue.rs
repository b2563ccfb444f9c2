//! The priority queue of pending work: entries keyed by urgency-adjusted
//! priority, extracted highest first with a stable FIFO tie-break among equal
//! priorities (the earliest-inserted of the equal entries leaves first).

use vstd::prelude::*;
use crate::model::{Project, ProjectWrapper, spec_priority};

verus! {

/// The first position holding the queue's maximal priority: the entry that
/// extract-max removes.
pub open spec fn max_at(q: Seq<ProjectWrapper>, i: int) -> bool {
    &&& 0 <= i < q.len()
    &&& forall|j: int| 0 <= j < q.len() ==> (#[trigger] q[j]).score <= q[i].score
    &&& forall|j: int| 0 <= j < i ==> (#[trigger] q[j]).score < q[i].score
}

/// The queue of pending projects, kept in insertion order; extraction scans
/// for the maximum so that ties resolve to the oldest entry.
pub struct PendingQueue {
    pub entries: Vec<ProjectWrapper>,
}

impl PendingQueue {
    /// An empty queue.
    pub fn new() -> (r: Self)
        ensures
            r.entries@.len() == 0,
    {
        PendingQueue { entries: Vec::new() }
    }

    pub fn len(&self) -> (r: usize)
        ensures
            r == self.entries@.len(),
    {
        self.entries.len()
    }

    /// Inserts a project, computing its priority for the given day.
    pub fn insert(&mut self, project: Project, day: usize)
        requires
            project.before + project.score <= usize::MAX,
        ensures
            final(self).entries@.len() == old(self).entries@.len() + 1,
            final(self).entries@ == old(self).entries@.push(final(self).entries@.last()),
            final(self).entries@.last().project == project,
            final(self).entries@.last().score == spec_priority(project, day as int),
    {
        self.entries.push(ProjectWrapper::new(project, day));
    }

    /// Re-admits an already-wrapped entry (a postponed project whose priority
    /// was recomputed when it was postponed).
    pub fn insert_wrapped(&mut self, w: ProjectWrapper)
        ensures
            final(self).entries@ == old(self).entries@.push(w),
    {
        self.entries.push(w);
    }

    /// Removes and returns the highest-priority entry, the oldest one among
    /// equal priorities; returns nothing exactly when the queue is empty.
    pub fn extract_max(&mut self) -> (r: Option<ProjectWrapper>)
        ensures
            match r {
                Some(w) => exists|i: int|
                    max_at(old(self).entries@, i) && w == old(self).entries@[i]
                        && final(self).entries@ == old(self).entries@.remove(i),
                None => old(self).entries@.len() == 0 && final(self).entries@
                    == old(self).entries@,
            },
    {
        if self.entries.len() == 0 {
            return None;
        }
        let mut best: usize = 0;
        let mut i: usize = 1;
        while i < self.entries.len()
            invariant
                0 <= best < i <= self.entries@.len(),
                forall|j: int|
                    0 <= j < i ==> (#[trigger] self.entries@[j]).score
                        <= self.entries@[best as int].score,
                forall|j: int|
                    0 <= j < best ==> (#[trigger] self.entries@[j]).score
                        < self.entries@[best as int].score,
            decreases self.entries@.len() - i,
        {
            if self.entries[i].score > self.entries[best].score {
                best = i;
            }
            i = i + 1;
        }
        let w = self.entries.remove(best);
        proof {
            assert(max_at(old(self).entries@, best as int));
        }
        Some(w)
    }
}

/// The total day budget a list of queued entries can still consume: one run
/// of its duration plus one retirement step for each project.
pub open spec fn wrap_pot(q: Seq<ProjectWrapper>) -> int
    decreases q.len(),
{
    if q.len() == 0 {
        0
    } else {
        q[0].project.duration + 1 + wrap_pot(q.drop_first())
    }
}

/// The same budget for a list of raw projects.
pub open spec fn proj_pot(ps: Seq<Project>) -> int
    decreases ps.len(),
{
    if ps.len() == 0 {
        0
    } else {
        ps[0].duration + 1 + proj_pot(ps.drop_first())
    }
}

pub proof fn lemma_wrap_pot_nonneg(q: Seq<ProjectWrapper>)
    ensures
        wrap_pot(q) >= 0,
    decreases q.len(),
{
    if q.len() > 0 {
        lemma_wrap_pot_nonneg(q.drop_first());
    }
}

pub proof fn lemma_wrap_pot_push(q: Seq<ProjectWrapper>, w: ProjectWrapper)
    ensures
        wrap_pot(q.push(w)) == wrap_pot(q) + w.project.duration + 1,
    decreases q.len(),
{
    if q.len() == 0 {
        assert(q.push(w)[0] == w);
        assert(q.push(w).drop_first() =~= Seq::<ProjectWrapper>::empty());
        assert(wrap_pot(Seq::<ProjectWrapper>::empty()) == 0);
    } else {
        assert(q.push(w)[0] == q[0]);
        assert(q.push(w).drop_first() =~= q.drop_first().push(w));
        lemma_wrap_pot_push(q.drop_first(), w);
        assert(wrap_pot(q.push(w)) == q.push(w)[0].project.duration + 1 + wrap_pot(
            q.push(w).drop_first(),
        ));
    }
}

pub proof fn lemma_wrap_pot_append(a: Seq<ProjectWrapper>, b: Seq<ProjectWrapper>)
    ensures
        wrap_pot(a + b) == wrap_pot(a) + wrap_pot(b),
    decreases a.len(),
{
    if a.len() == 0 {
        assert(a + b =~= b);
    } else {
        assert((a + b)[0] == a[0]);
        assert((a + b).drop_first() =~= a.drop_first() + b);
        lemma_wrap_pot_append(a.drop_first(), b);
    }
}

pub proof fn lemma_wrap_pot_remove(q: Seq<ProjectWrapper>, i: int)
    requires
        0 <= i < q.len(),
    ensures
        wrap_pot(q.remove(i)) == wrap_pot(q) - (q[i].project.duration + 1),
    decreases q.len(),
{
    if i == 0 {
        assert(q.remove(0) =~= q.drop_first());
    } else {
        assert(q.remove(i).drop_first() =~= q.drop_first().remove(i - 1));
        assert(q.remove(i)[0] == q[0]);
        lemma_wrap_pot_remove(q.drop_first(), i - 1);
    }
}

pub proof fn lemma_proj_pot_take(ps: Seq<Project>, i: int)
    requires
        0 <= i < ps.len(),
    ensures
        proj_pot(ps.take(i + 1)) == proj_pot(ps.take(i)) + ps[i].duration + 1,
    decreases i,
{
    if i == 0 {
        assert(ps.take(0) =~= Seq::<Project>::empty());
        assert(ps.take(1).drop_first() =~= Seq::<Project>::empty());
        assert(ps.take(1)[0] == ps[0]);
    } else {
        assert(ps.take(i + 1)[0] == ps[0]);
        assert(ps.take(i)[0] == ps[0]);
        assert(ps.take(i + 1).drop_first() =~= ps.drop_first().take(i));
        assert(ps.take(i).drop_first() =~= ps.drop_first().take(i - 1));
        lemma_proj_pot_take(ps.drop_first(), i - 1);
        assert(ps.drop_first()[i - 1] == ps[i]);
    }
}

pub proof fn lemma_proj_pot_nonneg(ps: Seq<Project>)
    ensures
        proj_pot(ps) >= ps.len(),
    decreases ps.len(),
{
    if ps.len() > 0 {
        lemma_proj_pot_nonneg(ps.drop_first());
    }
}

} // verus!
