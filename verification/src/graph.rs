//! The frozen dependency graph: every task with its declared access, the
//! tasks it waits for and the tasks that wait for it.

use crate::access::{compatible, AccessSet};
use event_listener::Event;
use vstd::prelude::*;

verus! {

/// One task of a graph. Its identifier is its position in the graph, which is
/// the order in which the tasks were registered.
pub struct SchedulerSystemContainer<B> {
    /// The body of the task. The scheduler never looks inside it.
    pub system: B,
    /// The name under which the task was registered.
    pub name: String,
    /// Declared access to shared resources.
    pub resource_access: AccessSet,
    /// Declared access to archetypes.
    pub archetype_access: AccessSet,
    /// Identifiers of the tasks that must finish before this one may start.
    pub dependencies: Vec<usize>,
    /// Raised to tell the task to start.
    pub notifier: Event,
    /// Identifiers of the tasks that wait for this one.
    pub dependants: Vec<usize>,
    /// How many dependencies the task has.
    pub deps_total: usize,
}

/// A set of tasks whose dependency names have all been resolved.
pub struct SchedulerGraph<B> {
    containers: Vec<SchedulerSystemContainer<B>>,
}

impl<B> SchedulerGraph<B> {
    /// The tasks of the graph, each at the index that is its identifier.
    pub closed spec fn containers(&self) -> Seq<SchedulerSystemContainer<B>> {
        self.containers@
    }

    /// The number of tasks.
    pub open spec fn size(&self) -> nat {
        self.containers().len()
    }

    /// The names of the tasks, by identifier.
    pub open spec fn names(&self) -> Seq<Seq<char>> {
        Seq::new(self.size(), |i: int| self.containers()[i].name@)
    }

    /// The tasks that `id` waits for.
    pub open spec fn dependencies(&self, id: int) -> Seq<usize> {
        self.containers()[id].dependencies@
    }

    /// The tasks that wait for `id`.
    pub open spec fn dependants(&self, id: int) -> Seq<usize> {
        self.containers()[id].dependants@
    }

    /// Task `task` must wait for task `dep`.
    pub open spec fn depends_on(&self, task: int, dep: int) -> bool {
        &&& 0 <= task < self.size()
        &&& 0 <= dep < self.size()
        &&& self.dependencies(task).contains(dep as usize)
    }

    /// Tasks `a` and `b` may run at the same time: their declared accesses are
    /// compatible in both dimensions.
    pub open spec fn compatible(&self, a: int, b: int) -> bool {
        &&& compatible(self.containers()[a].resource_access@, self.containers()[b].resource_access@)
        &&& compatible(
            self.containers()[a].archetype_access@,
            self.containers()[b].archetype_access@,
        )
    }

    /// The graph is consistent: names are distinct, every edge stays inside
    /// the graph and is recorded once, and the dependants are exactly the
    /// inverse of the dependencies.
    pub open spec fn wf(&self) -> bool {
        &&& self.size() <= usize::MAX
        &&& forall|i: int, j: int|
            0 <= i < self.size() && 0 <= j < self.size() && i != j ==> self.containers()[i].name@
                != self.containers()[j].name@
        &&& forall|i: int|
            0 <= i < self.size() ==> {
                &&& (#[trigger] self.containers()[i]).deps_total == self.dependencies(i).len()
                &&& self.dependencies(i).no_duplicates()
                &&& self.dependants(i).no_duplicates()
            }
        &&& forall|i: int, k: int|
            0 <= i < self.size() && 0 <= k < self.dependencies(i).len() ==> (
            #[trigger] self.dependencies(i)[k]) < self.size()
        &&& forall|i: int, k: int|
            0 <= i < self.size() && 0 <= k < self.dependants(i).len() ==> (
            #[trigger] self.dependants(i)[k]) < self.size()
        &&& forall|i: int, j: int|
            0 <= i < self.size() && 0 <= j < self.size() ==> (self.dependants(j).contains(
                i as usize,
            ) <==> #[trigger] self.depends_on(i, j))
    }

    /// `rank` numbers the tasks so that every task has a larger number than
    /// each task it waits for.
    pub open spec fn ranked_by(&self, rank: Seq<nat>) -> bool {
        &&& rank.len() == self.size()
        &&& forall|i: int, j: int| #[trigger] self.depends_on(i, j) ==> rank[j] < rank[i]
    }

    /// No task waits, directly or through other tasks, for itself.
    pub open spec fn acyclic(&self) -> bool {
        exists|rank: Seq<nat>| self.ranked_by(rank)
    }

    /// Whether two tasks may run at the same time does not depend on the
    /// order in which they are named.
    pub proof fn lemma_compatible_symmetric(self, a: int, b: int)
        ensures
            self.compatible(a, b) == self.compatible(b, a),
    {
        crate::access::lemma_compatible_symmetric(
            self.containers()[a].resource_access@,
            self.containers()[b].resource_access@,
        );
        crate::access::lemma_compatible_symmetric(
            self.containers()[a].archetype_access@,
            self.containers()[b].archetype_access@,
        );
    }

    /// Freezes a list of tasks into a graph.
    pub(crate) fn from_containers(containers: Vec<SchedulerSystemContainer<B>>) -> (g: Self)
        ensures
            g.containers() == containers@,
    {
        SchedulerGraph { containers }
    }

    /// The number of tasks.
    pub fn len(&self) -> (n: usize)
        ensures
            n == self.size(),
    {
        self.containers.len()
    }

    /// The task with identifier `id`.
    pub fn container(&self, id: usize) -> (c: &SchedulerSystemContainer<B>)
        requires
            id < self.size(),
        ensures
            *c == self.containers()[id as int],
    {
        &self.containers[id]
    }

    /// The identifier of the task registered under `name`, if there is one.
    pub fn find(&self, name: &String) -> (found: Option<usize>)
        ensures
            match found {
                Some(id) => id < self.size() && self.names()[id as int] == name@,
                None => !self.names().contains(name@),
            },
    {
        let mut i: usize = 0;
        while i < self.containers.len()
            invariant
                i <= self.size(),
                forall|k: int| 0 <= k < i ==> self.containers()[k].name@ != name@,
            decreases self.size() - i,
        {
            if self.containers[i].name == *name {
                return Some(i);
            }
            i += 1;
        }
        None
    }

    /// Whether tasks `a` and `b` may run at the same time.
    pub fn is_compatible(&self, a: usize, b: usize) -> (ok: bool)
        requires
            a < self.size(),
            b < self.size(),
        ensures
            ok == self.compatible(a as int, b as int),
    {
        let first = &self.containers[a];
        let second = &self.containers[b];
        first.resource_access.is_compatible(&second.resource_access)
            && first.archetype_access.is_compatible(&second.archetype_access)
    }

    /// Replaces the declared access of task `id`, leaving everything else as
    /// it was.
    pub fn set_access(&mut self, id: usize, resource_access: AccessSet, archetype_access: AccessSet)
        requires
            id < old(self).size(),
        ensures
            final(self).size() == old(self).size(),
            final(self).containers()[id as int] == (SchedulerSystemContainer {
                resource_access,
                archetype_access,
                ..old(self).containers()[id as int]
            }),
            forall|i: int|
                0 <= i < old(self).size() && i != id ==> final(self).containers()[i] == old(
                    self,
                ).containers()[i],
            forall|i: int|
                0 <= i < old(self).size() ==> #[trigger] final(self).dependencies(i) == old(
                    self,
                ).dependencies(i) && final(self).dependants(i) == old(self).dependants(i),
            forall|i: int, j: int| final(self).depends_on(i, j) == old(self).depends_on(i, j),
            final(self).names() == old(self).names(),
            old(self).wf() ==> final(self).wf(),
            old(self).acyclic() ==> final(self).acyclic(),
    {
        self.containers[id].resource_access = resource_access;
        self.containers[id].archetype_access = archetype_access;
        proof {
            let before = *old(self);
            let after = *self;
            assert forall|i: int| 0 <= i < before.size() implies #[trigger] after.dependencies(i)
                == before.dependencies(i) && after.dependants(i) == before.dependants(i)
                && after.containers()[i].deps_total == before.containers()[i].deps_total
                && after.containers()[i].name == before.containers()[i].name by {
                if i != id {
                    assert(after.containers()[i] == before.containers()[i]);
                }
            }
            assert forall|i: int, j: int| after.depends_on(i, j) == before.depends_on(i, j) by {
                if 0 <= i < after.size() {
                    assert(after.dependencies(i) == before.dependencies(i));
                }
            }
            assert(after.names() =~= before.names());
            if before.wf() {
                assert forall|i: int, j: int| 0 <= i < after.size() && 0 <= j < after.size() implies (
                after.dependants(j).contains(i as usize) <==> #[trigger] after.depends_on(i, j)) by {
                    assert(before.dependants(j).contains(i as usize) <==> before.depends_on(i, j));
                    assert(after.dependants(j) == before.dependants(j));
                }
                assert forall|i: int, j: int|
                    0 <= i < after.size() && 0 <= j < after.size() && i != j implies after.containers()[i].name@
                    != after.containers()[j].name@ by {
                    assert(before.containers()[i].name@ != before.containers()[j].name@);
                    assert(after.dependencies(i) == before.dependencies(i));
                    assert(after.dependencies(j) == before.dependencies(j));
                }
                assert forall|i: int, k: int|
                    0 <= i < after.size() && 0 <= k < after.dependencies(i).len() implies (
                #[trigger] after.dependencies(i)[k]) < after.size() by {
                    assert(before.dependencies(i)[k] < before.size());
                }
                assert forall|i: int, k: int|
                    0 <= i < after.size() && 0 <= k < after.dependants(i).len() implies (
                #[trigger] after.dependants(i)[k]) < after.size() by {
                    assert(after.dependencies(i) == before.dependencies(i));
                    assert(before.dependants(i)[k] < before.size());
                }
                assert forall|i: int| 0 <= i < after.size() implies {
                    &&& (#[trigger] after.containers()[i]).deps_total == after.dependencies(i).len()
                    &&& after.dependencies(i).no_duplicates()
                    &&& after.dependants(i).no_duplicates()
                } by {
                    assert(after.dependencies(i) == before.dependencies(i));
                    assert(before.containers()[i].deps_total == before.dependencies(i).len());
                }
            }
            if before.acyclic() {
                let rank = choose|rank: Seq<nat>| before.ranked_by(rank);
                assert(after.ranked_by(rank));
            }
        }
    }
}

} // verus!
