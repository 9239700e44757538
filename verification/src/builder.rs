//! Assembling a graph: tasks are registered under names, dependencies are
//! declared between names in any order, and `build` resolves the names.
//!
//! A name can be registered once; registering it again is an error. A
//! dependency that is declared more than once counts once.

use crate::access::AccessSet;
use crate::sequences::lemma_push_distinct;
use crate::graph::{SchedulerGraph, SchedulerSystemContainer};
use crate::signals::new_event;
use crate::validate::check_acyclic;
use vstd::prelude::*;

verus! {

broadcast use vstd::seq_lib::lemma_seq_contains_after_push;

/// Why a graph could not be assembled.
#[derive(Debug, PartialEq, Eq)]
pub enum BuildError {
    /// A task was registered under a name that is already taken.
    DuplicateName(String),
    /// A dependency was declared for a task that was never registered.
    UnknownTask(String),
    /// The task (first) was declared to depend on a name (second) that was
    /// never registered.
    UnknownDependency(String, String),
    /// Some task waits, directly or through other tasks, for itself.
    CyclicDependency,
}

/// A build error with its names as sequences of characters.
pub enum BuildErrorView {
    DuplicateName(Seq<char>),
    UnknownTask(Seq<char>),
    UnknownDependency(Seq<char>, Seq<char>),
    CyclicDependency,
}

impl View for BuildError {
    type V = BuildErrorView;

    open spec fn view(&self) -> BuildErrorView {
        match self {
            BuildError::DuplicateName(name) => BuildErrorView::DuplicateName(name@),
            BuildError::UnknownTask(name) => BuildErrorView::UnknownTask(name@),
            BuildError::UnknownDependency(task, dependency) => BuildErrorView::UnknownDependency(
                task@,
                dependency@,
            ),
            BuildError::CyclicDependency => BuildErrorView::CyclicDependency,
        }
    }
}

/// A declared dependency: the task named first waits for the task named
/// second.
pub type Edge = (Seq<char>, Seq<char>);

/// Both names of the edge are registered.
pub open spec fn resolvable(names: Seq<Seq<char>>, edge: Edge) -> bool {
    names.contains(edge.0) && names.contains(edge.1)
}

/// Edge `k` is the first of `edges` that names an unregistered task.
pub open spec fn first_unresolved(names: Seq<Seq<char>>, edges: Seq<Edge>, k: int) -> bool {
    &&& 0 <= k < edges.len()
    &&& !resolvable(names, edges[k])
    &&& forall|j: int| 0 <= j < k ==> resolvable(names, #[trigger] edges[j])
}

/// `rank` numbers the names so that every declared dependency leads from a
/// larger number to a smaller one.
pub open spec fn ranks_edges(names: Seq<Seq<char>>, edges: Seq<Edge>, rank: Seq<nat>) -> bool {
    &&& rank.len() == names.len()
    &&& forall|i: int, j: int|
        0 <= i < names.len() && 0 <= j < names.len() && #[trigger] edges.contains((names[i], names[j]))
            ==> rank[j] < rank[i]
}

/// No task waits for itself, directly or through other tasks.
pub open spec fn edges_acyclic(names: Seq<Seq<char>>, edges: Seq<Edge>) -> bool {
    exists|rank: Seq<nat>| ranks_edges(names, edges, rank)
}

/// The error that an edge with an unregistered name stands for: the waiting
/// task is looked at first.
pub open spec fn unresolved_error(names: Seq<Seq<char>>, edge: Edge) -> BuildErrorView {
    if !names.contains(edge.0) {
        BuildErrorView::UnknownTask(edge.0)
    } else {
        BuildErrorView::UnknownDependency(edge.0, edge.1)
    }
}

/// The tasks that task `task` waits for according to `edges`, each once, in
/// the order in which the dependencies were first declared.
pub open spec fn resolved_dependencies(names: Seq<Seq<char>>, edges: Seq<Edge>, task: int) -> Seq<
    usize,
>
    decreases edges.len(),
{
    if edges.len() == 0 {
        Seq::empty()
    } else {
        let before = resolved_dependencies(names, edges.drop_last(), task);
        let dependency = names.index_of(edges.last().1) as usize;
        if edges.last().0 == names[task] && !before.contains(dependency) {
            before.push(dependency)
        } else {
            before
        }
    }
}

/// The tasks that wait for task `dependency` according to `edges`, each
/// once, in the order in which the dependencies were first declared.
pub open spec fn resolved_dependants(names: Seq<Seq<char>>, edges: Seq<Edge>, dependency: int) -> Seq<
    usize,
>
    decreases edges.len(),
{
    if edges.len() == 0 {
        Seq::empty()
    } else {
        let before = resolved_dependants(names, edges.drop_last(), dependency);
        let task = names.index_of(edges.last().0) as usize;
        if edges.last().1 == names[dependency] && !before.contains(task) {
            before.push(task)
        } else {
            before
        }
    }
}

/// The names of `tasks`, in order.
pub open spec fn names_of<B>(tasks: Seq<SchedulerSystemContainer<B>>) -> Seq<Seq<char>> {
    Seq::new(tasks.len(), |i: int| tasks[i].name@)
}

/// Among distinct names, the position found for a name is the position at
/// which it stands.
proof fn lemma_index_of_name(names: Seq<Seq<char>>, i: int)
    requires
        0 <= i < names.len(),
        forall|a: int, b: int| 0 <= a < names.len() && 0 <= b < names.len() && a != b ==> names[a] != names[b],
    ensures
        names.index_of(names[i]) == i,
{
    let q = names.index_of(names[i]);
    assert(0 <= q < names.len() && names[q] == names[i]);
}

/// The position of the task named `name` among `tasks`, if there is one.
fn position_in<B>(tasks: &Vec<SchedulerSystemContainer<B>>, name: &String) -> (found: Option<usize>)
    ensures
        match found {
            Some(i) => i < tasks@.len() && tasks@[i as int].name@ == name@,
            None => !names_of(tasks@).contains(name@),
        },
{
    let mut i: usize = 0;
    while i < tasks.len()
        invariant
            i <= tasks@.len(),
            forall|k: int| 0 <= k < i ==> tasks@[k].name@ != name@,
        decreases tasks@.len() - i,
    {
        if tasks[i].name == *name {
            return Some(i);
        }
        i += 1;
    }
    None
}

/// Whether `id` is an entry of `list`.
fn holds(list: &Vec<usize>, id: usize) -> (found: bool)
    ensures
        found == list@.contains(id),
{
    let mut i: usize = 0;
    while i < list.len()
        invariant
            i <= list@.len(),
            forall|k: int| 0 <= k < i ==> list@[k] != id,
        decreases list@.len() - i,
    {
        if list[i] == id {
            return true;
        }
        i += 1;
    }
    false
}

/// Collects tasks and dependency declarations until they are frozen into a
/// graph.
pub struct SchedulerBuilder<B> {
    tasks: Vec<SchedulerSystemContainer<B>>,
    edges: Vec<(String, String)>,
}

impl<B> SchedulerBuilder<B> {
    /// The registered tasks, in order of registration. Their dependencies are
    /// not filled in before the graph is built.
    pub closed spec fn tasks(&self) -> Seq<SchedulerSystemContainer<B>> {
        self.tasks@
    }

    /// The declared dependencies, in order of declaration.
    pub closed spec fn edges(&self) -> Seq<Edge> {
        Seq::new(self.edges@.len(), |k: int| (self.edges@[k].0@, self.edges@[k].1@))
    }

    /// The names of the registered tasks, in order of registration.
    pub open spec fn names(&self) -> Seq<Seq<char>> {
        names_of(self.tasks())
    }

    /// No name is registered twice, and no task has dependencies filled in.
    pub open spec fn wf(&self) -> bool {
        &&& forall|i: int, j: int|
            0 <= i < self.tasks().len() && 0 <= j < self.tasks().len() && i != j
                ==> self.tasks()[i].name@ != self.tasks()[j].name@
        &&& forall|i: int|
            0 <= i < self.tasks().len() ==> {
                &&& (#[trigger] self.tasks()[i]).dependencies@.len() == 0
                &&& self.tasks()[i].dependants@.len() == 0
                &&& self.tasks()[i].deps_total == 0
            }
    }

    /// A builder with no task and no dependency.
    pub fn new() -> (b: Self)
        ensures
            b.wf(),
            b.tasks().len() == 0,
            b.edges().len() == 0,
    {
        SchedulerBuilder { tasks: Vec::new(), edges: Vec::new() }
    }

    /// Registers a task under `name`, with its declared accesses and its
    /// body. Fails, and leaves the builder as it was, when the name is
    /// already taken.
    pub fn add_task(
        &mut self,
        name: String,
        resource_access: AccessSet,
        archetype_access: AccessSet,
        system: B,
    ) -> (r: Result<(), BuildError>)
        requires
            old(self).wf(),
        ensures
            final(self).wf(),
            final(self).edges() == old(self).edges(),
            match r {
                Ok(()) => {
                    &&& !old(self).names().contains(name@)
                    &&& final(self).tasks().len() == old(self).tasks().len() + 1
                    &&& final(self).tasks().drop_last() == old(self).tasks()
                    &&& final(self).tasks().last().name == name
                    &&& final(self).tasks().last().resource_access == resource_access
                    &&& final(self).tasks().last().archetype_access == archetype_access
                    &&& final(self).tasks().last().system == system
                    &&& final(self).names() == old(self).names().push(name@)
                },
                Err(e) => {
                    &&& old(self).names().contains(name@)
                    &&& e@ == BuildErrorView::DuplicateName(name@)
                    &&& final(self).tasks() == old(self).tasks()
                },
            },
    {
        match position_in(&self.tasks, &name) {
            Some(i) => {
                assert(self.names()[i as int] == name@);
                Err(BuildError::DuplicateName(name))
            },
            None => {
                let ghost before = self.tasks@;
                self.tasks.push(
                    SchedulerSystemContainer {
                        system,
                        name,
                        resource_access,
                        archetype_access,
                        notifier: new_event(),
                        dependencies: Vec::new(),
                        dependants: Vec::new(),
                        deps_total: 0,
                    },
                );
                proof {
                    assert(self.tasks@.drop_last() =~= before);
                    assert(self.names() =~= old(self).names().push(name@));
                    assert forall|i: int, j: int|
                        0 <= i < self.tasks().len() && 0 <= j < self.tasks().len() && i
                            != j implies self.tasks()[i].name@ != self.tasks()[j].name@ by {
                        if i < before.len() {
                            assert(old(self).names()[i] == before[i].name@);
                        }
                        if j < before.len() {
                            assert(old(self).names()[j] == before[j].name@);
                        }
                    }
                }
                Ok(())
            },
        }
    }

    /// Declares that the task named `task_name` waits for the task named
    /// `depends_on_name`. Either name may be registered later; the names are
    /// resolved when the graph is built.
    pub fn add_dependency(&mut self, task_name: String, depends_on_name: String)
        requires
            old(self).wf(),
        ensures
            final(self).wf(),
            final(self).tasks() == old(self).tasks(),
            final(self).edges() == old(self).edges().push((task_name@, depends_on_name@)),
    {
        self.edges.push((task_name, depends_on_name));
        proof {
            assert(self.tasks() == old(self).tasks());
            assert(self.edges() =~= old(self).edges().push((task_name@, depends_on_name@)));
        }
    }

    /// Resolves every declared dependency, in the order of declaration, and
    /// fills in the dependencies and dependants of every task.
    fn resolve(self) -> (r: Result<SchedulerGraph<B>, BuildError>)
        requires
            self.wf(),
        ensures
            match r {
                Ok(graph) => {
                    &&& forall|k: int|
                        0 <= k < self.edges().len() ==> resolvable(self.names(), #[trigger] self.edges()[k])
                    &&& graph.wf()
                    &&& graph.size() == self.tasks().len()
                    &&& graph.names() == self.names()
                    &&& forall|i: int|
                        0 <= i < graph.size() ==> {
                            &&& (#[trigger] graph.containers()[i]).name == self.tasks()[i].name
                            &&& graph.containers()[i].system == self.tasks()[i].system
                            &&& graph.containers()[i].resource_access == self.tasks()[i].resource_access
                            &&& graph.containers()[i].archetype_access
                                == self.tasks()[i].archetype_access
                            &&& graph.containers()[i].notifier == self.tasks()[i].notifier
                            &&& graph.dependencies(i) == resolved_dependencies(
                                self.names(),
                                self.edges(),
                                i,
                            )
                            &&& graph.dependants(i) == resolved_dependants(self.names(), self.edges(), i)
                        }
                    &&& forall|i: int, j: int|
                        0 <= i < graph.size() && 0 <= j < graph.size() ==> (#[trigger] graph.depends_on(
                            i,
                            j,
                        ) <==> self.edges().contains((self.names()[i], self.names()[j])))
                },
                Err(e) => exists|k: int|
                    #[trigger] first_unresolved(self.names(), self.edges(), k) && e@ == unresolved_error(
                        self.names(),
                        self.edges()[k],
                    ),
            },
    {
        let ghost names = self.names();
        let ghost declared = self.edges();
        let ghost registered = self.tasks();
        let SchedulerBuilder { mut tasks, edges } = self;
        let n = tasks.len();
        let mut k: usize = 0;
        proof {
            assert(declared.take(0) =~= Seq::<Edge>::empty());
            assert(declared.len() == edges@.len());
        }
        while k < edges.len()
            invariant
                names == self.names(),
                declared == self.edges(),
                registered == self.tasks(),
                names == names_of(registered),
                declared.len() == edges@.len(),
                forall|j: int| 0 <= j < declared.len() ==> #[trigger] declared[j] == (edges@[j].0@, edges@[j].1@),
                forall|a: int, b: int| 0 <= a < names.len() && 0 <= b < names.len() && a != b ==> names[a] != names[b],
                n == registered.len(),
                tasks@.len() == n,
                k <= declared.len(),
                forall|j: int| 0 <= j < k ==> resolvable(names, #[trigger] declared[j]),
                forall|i: int|
                    0 <= i < n ==> {
                        &&& (#[trigger] tasks@[i]).name == registered[i].name
                        &&& tasks@[i].system == registered[i].system
                        &&& tasks@[i].resource_access == registered[i].resource_access
                        &&& tasks@[i].archetype_access == registered[i].archetype_access
                        &&& tasks@[i].notifier == registered[i].notifier
                        &&& tasks@[i].deps_total == tasks@[i].dependencies@.len()
                        &&& tasks@[i].dependencies@ == resolved_dependencies(names, declared.take(k as int), i)
                        &&& tasks@[i].dependants@ == resolved_dependants(names, declared.take(k as int), i)
                        &&& tasks@[i].dependencies@.no_duplicates()
                        &&& tasks@[i].dependants@.no_duplicates()
                    },
                forall|i: int, m: int|
                    0 <= i < n && 0 <= m < tasks@[i].dependencies@.len() ==> (#[trigger] tasks@[i].dependencies@[m]) < n,
                forall|i: int, m: int|
                    0 <= i < n && 0 <= m < tasks@[i].dependants@.len() ==> (#[trigger] tasks@[i].dependants@[m]) < n,
                forall|i: usize, j: usize|
                    i < n && j < n ==> (tasks@[j as int].dependants@.contains(i)
                        <==> #[trigger] tasks@[i as int].dependencies@.contains(j)),
                forall|i: usize, j: usize|
                    i < n && j < n ==> (#[trigger] tasks@[i as int].dependencies@.contains(j)
                        <==> declared.take(k as int).contains((names[i as int], names[j as int]))),
            decreases declared.len() - k,
        {
            let ghost edge = declared[k as int];
            let ghost prefix = declared.take(k as int);
            let ghost next = declared.take(k + 1);
            let found_task = position_in(&tasks, &edges[k].0);
            let t = match found_task {
                Some(t) => t,
                None => {
                    let e = BuildError::UnknownTask(edges[k].0.clone());
                    proof {
                        assert(names_of(tasks@) =~= names);
                        assert(!names.contains(edge.0));
                        assert(!resolvable(names, declared[k as int]));
                        assert(e@ == unresolved_error(names, declared[k as int]));
                        assert(first_unresolved(names, declared, k as int));
                    }
                    return Err(e);
                },
            };
            let found_dependency = position_in(&tasks, &edges[k].1);
            let d = match found_dependency {
                Some(d) => d,
                None => {
                    let e = BuildError::UnknownDependency(edges[k].0.clone(), edges[k].1.clone());
                    proof {
                        assert(names_of(tasks@) =~= names);
                        assert(names[t as int] == edge.0);
                        assert(names.contains(edge.0));
                        assert(!names.contains(edge.1));
                        assert(!resolvable(names, declared[k as int]));
                        assert(e@ == unresolved_error(names, declared[k as int]));
                        assert(first_unresolved(names, declared, k as int));
                    }
                    return Err(e);
                },
            };
            let ghost before = tasks@;
            proof {
                assert(names[t as int] == edge.0);
                assert(names[d as int] == edge.1);
                assert(resolvable(names, declared[k as int]));
                lemma_index_of_name(names, t as int);
                lemma_index_of_name(names, d as int);
                assert(next =~= prefix.push(edge));
                assert(next.drop_last() =~= prefix);
                assert(next.last() == edge);
            }
            let known = holds(&tasks[t].dependencies, d);
            if !known {
                tasks[t].dependencies.push(d);
                tasks[t].deps_total = tasks[t].dependencies.len();
                tasks[d].dependants.push(t);
                proof {
                    assert(before[d as int].dependants@.contains(t) <==> before[t as int].dependencies@.contains(
                        d,
                    ));
                    lemma_push_distinct(before[t as int].dependencies@, d);
                    lemma_push_distinct(before[d as int].dependants@, t);
                }
            }
            let ghost after = tasks@;
            proof {
                assert forall|i: int| 0 <= i < n implies {
                    &&& (#[trigger] after[i]).name == registered[i].name
                    &&& after[i].system == registered[i].system
                    &&& after[i].resource_access == registered[i].resource_access
                    &&& after[i].archetype_access == registered[i].archetype_access
                    &&& after[i].notifier == registered[i].notifier
                    &&& after[i].deps_total == after[i].dependencies@.len()
                    &&& after[i].dependencies@ == (if i == t && !known {
                        before[i].dependencies@.push(d)
                    } else {
                        before[i].dependencies@
                    })
                    &&& after[i].dependants@ == (if i == d && !known {
                        before[i].dependants@.push(t)
                    } else {
                        before[i].dependants@
                    })
                } by {
                    assert(before[i].name == registered[i].name);
                }
                assert forall|i: int| 0 <= i < n implies {
                    &&& (#[trigger] after[i]).dependencies@ == resolved_dependencies(names, next, i)
                    &&& after[i].dependants@ == resolved_dependants(names, next, i)
                    &&& after[i].dependencies@.no_duplicates()
                    &&& after[i].dependants@.no_duplicates()
                } by {
                    assert(before[i].dependencies@ == resolved_dependencies(names, prefix, i));
                    assert(before[i].dependants@ == resolved_dependants(names, prefix, i));
                    if i != t {
                        assert(names[i] != names[t as int]);
                    }
                    if i != d {
                        assert(names[i] != names[d as int]);
                    }
                    assert(before[d as int].dependants@.contains(t) <==> before[t as int].dependencies@.contains(
                        d,
                    ));
                }
                assert forall|i: int, m: int|
                    0 <= i < n && 0 <= m < after[i].dependencies@.len() implies (
                #[trigger] after[i].dependencies@[m]) < n by {
                    if m < before[i].dependencies@.len() {
                        assert(before[i].dependencies@[m] < n);
                    }
                }
                assert forall|i: int, m: int|
                    0 <= i < n && 0 <= m < after[i].dependants@.len() implies (
                #[trigger] after[i].dependants@[m]) < n by {
                    if m < before[i].dependants@.len() {
                        assert(before[i].dependants@[m] < n);
                    }
                }
                assert forall|i: usize, j: usize| i < n && j < n implies (after[j as int].dependants@.contains(i)
                    <==> #[trigger] after[i as int].dependencies@.contains(j)) by {
                    assert(before[j as int].dependants@.contains(i) <==> before[i as int].dependencies@.contains(
                        j,
                    ));
                }
                assert forall|i: usize, j: usize| i < n && j < n implies (
                #[trigger] after[i as int].dependencies@.contains(j) <==> next.contains(
                    (names[i as int], names[j as int]),
                )) by {
                    assert(before[i as int].dependencies@.contains(j) <==> prefix.contains(
                        (names[i as int], names[j as int]),
                    ));
                    assert(before[t as int].dependencies@.contains(d) <==> prefix.contains(
                        (names[t as int], names[d as int]),
                    ));
                    if i != t {
                        assert(names[i as int] != names[t as int]);
                    }
                    if j != d {
                        assert(names[j as int] != names[d as int]);
                    }
                }
            }
            k += 1;
        }
        let graph = SchedulerGraph::from_containers(tasks);
        proof {
            assert(declared.take(declared.len() as int) =~= declared);
            assert(graph.names() =~= names);
            assert forall|i: int, j: int| 0 <= i < graph.size() && 0 <= j < graph.size() implies (
            #[trigger] graph.depends_on(i, j) <==> declared.contains((names[i], names[j]))) by {
                let a = i as usize;
                let b = j as usize;
                assert(graph.containers()[a as int].dependencies@.contains(b) <==> declared.contains(
                    (names[a as int], names[b as int]),
                ));
            }
            assert forall|i: int, j: int| 0 <= i < graph.size() && 0 <= j < graph.size() implies (
            graph.dependants(j).contains(i as usize) <==> #[trigger] graph.depends_on(i, j)) by {
                let a = i as usize;
                let b = j as usize;
                assert(graph.containers()[b as int].dependants@.contains(a)
                    <==> graph.containers()[a as int].dependencies@.contains(b));
            }
            assert forall|i: int, j: int|
                0 <= i < graph.size() && 0 <= j < graph.size() && i != j implies graph.containers()[i].name@
                != graph.containers()[j].name@ by {
                assert(names[i] != names[j]);
            }
        }
        Ok(graph)
    }

    /// Resolves every declared dependency and freezes the tasks into a graph.
    ///
    /// The declarations are resolved in the order in which they were made.
    /// The first one that names an unregistered task decides the error: an
    /// unregistered waiting task gives `UnknownTask`, otherwise the
    /// unregistered dependency gives `UnknownDependency` with both names.
    /// Where every name is registered and some task waits for itself,
    /// directly or through other tasks, the error is `CyclicDependency`. No
    /// graph is produced in either case.
    ///
    /// In the graph every task keeps its position, name, accesses and body.
    pub fn build(self) -> (r: Result<SchedulerGraph<B>, BuildError>)
        requires
            self.wf(),
        ensures
            match r {
                Ok(graph) => {
                    &&& forall|k: int|
                        0 <= k < self.edges().len() ==> resolvable(self.names(), #[trigger] self.edges()[k])
                    &&& edges_acyclic(self.names(), self.edges())
                    &&& graph.wf()
                    &&& graph.acyclic()
                    &&& graph.size() == self.tasks().len()
                    &&& graph.names() == self.names()
                    &&& forall|i: int|
                        0 <= i < graph.size() ==> {
                            &&& (#[trigger] graph.containers()[i]).name == self.tasks()[i].name
                            &&& graph.containers()[i].system == self.tasks()[i].system
                            &&& graph.containers()[i].resource_access == self.tasks()[i].resource_access
                            &&& graph.containers()[i].archetype_access
                                == self.tasks()[i].archetype_access
                            &&& graph.containers()[i].notifier == self.tasks()[i].notifier
                            &&& graph.dependencies(i) == resolved_dependencies(
                                self.names(),
                                self.edges(),
                                i,
                            )
                            &&& graph.dependants(i) == resolved_dependants(self.names(), self.edges(), i)
                        }
                    &&& forall|i: int, j: int|
                        0 <= i < graph.size() && 0 <= j < graph.size() ==> (#[trigger] graph.depends_on(
                            i,
                            j,
                        ) <==> self.edges().contains((self.names()[i], self.names()[j])))
                },
                Err(e) => {
                    ||| exists|k: int|
                        #[trigger] first_unresolved(self.names(), self.edges(), k) && e@
                            == unresolved_error(self.names(), self.edges()[k])
                    ||| {
                        &&& forall|k: int|
                            0 <= k < self.edges().len() ==> resolvable(
                                self.names(),
                                #[trigger] self.edges()[k],
                            )
                        &&& !edges_acyclic(self.names(), self.edges())
                        &&& e@ == BuildErrorView::CyclicDependency
                    }
                },
            },
    {
        let ghost names = self.names();
        let ghost declared = self.edges();
        match self.resolve() {
            Err(e) => {
                proof {
                    let k = choose|k: int|
                        #[trigger] first_unresolved(names, declared, k) && e@ == unresolved_error(
                            names,
                            declared[k],
                        );
                    assert(first_unresolved(names, declared, k));
                }
                Err(e)
            },
            Ok(resolved) => {
                let (graph, acyclic) = check_acyclic(resolved);
                proof {
                    if graph.acyclic() {
                        let rank = choose|rank: Seq<nat>| graph.ranked_by(rank);
                        assert forall|i: int, j: int|
                            0 <= i < names.len() && 0 <= j < names.len() && #[trigger] declared.contains(
                                (names[i], names[j]),
                            ) implies rank[j] < rank[i] by {
                            assert(graph.depends_on(i, j));
                        }
                        assert(ranks_edges(names, declared, rank));
                    }
                    if edges_acyclic(names, declared) {
                        let rank = choose|rank: Seq<nat>| ranks_edges(names, declared, rank);
                        assert forall|i: int, j: int| #[trigger] graph.depends_on(i, j) implies rank[j]
                            < rank[i] by {
                            assert(declared.contains((names[i], names[j])));
                        }
                        assert(graph.ranked_by(rank));
                    }
                }
                if acyclic {
                    Ok(graph)
                } else {
                    Err(BuildError::CyclicDependency)
                }
            },
        }
    }
}

} // verus!
