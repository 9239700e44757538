//! An ordered pipeline of labelled stages.

use crate::sequences::{lemma_insert_distinct, lemma_remove_distinct};
use crate::stage::Stage;
use crate::stage_label::StageLabel;
use crate::{Resources, World};
use vstd::prelude::*;

verus! {

/// Stages in the order in which they run, each under a label of its own.
pub struct Schedule<S> {
    stages: Vec<S>,
    /// The key of the label of each stage, by position.
    index_table: Vec<u64>,
}

impl<S: Stage> Schedule<S> {
    /// The stages, in the order in which they run.
    pub closed spec fn stages(&self) -> Seq<S> {
        self.stages@
    }

    /// The keys of the labels, in the order of their stages.
    pub closed spec fn labels(&self) -> Seq<u64> {
        self.index_table@
    }

    /// Every stage has one label, and no label names two stages.
    pub open spec fn wf(&self) -> bool {
        &&& self.labels().len() == self.stages().len()
        &&& self.labels().no_duplicates()
    }

    /// A schedule without stages.
    pub fn new() -> (s: Self)
        ensures
            s.wf(),
            s.stages() == Seq::<S>::empty(),
            s.labels() == Seq::<u64>::empty(),
    {
        Default::default()
    }

    /// The position of the stage that the label with key `key` names.
    pub fn stage_index(&self, key: u64) -> (found: Option<usize>)
        ensures
            match found {
                Some(index) => index < self.labels().len() && self.labels()[index as int] == key
                    && forall|k: int| 0 <= k < index ==> self.labels()[k] != key,
                None => !self.labels().contains(key),
            },
    {
        let mut i: usize = 0;
        while i < self.index_table.len()
            invariant
                i <= self.index_table@.len(),
                forall|k: int| 0 <= k < i ==> self.index_table@[k] != key,
            decreases self.index_table@.len() - i,
        {
            if self.index_table[i] == key {
                return Some(i);
            }
            i += 1;
        }
        None
    }

    /// Puts `stage` at position `stage_index`; the stages from there on move
    /// one position up.
    fn insert_stage(&mut self, stage_index: usize, stage: S)
        requires
            stage_index <= old(self).stages@.len(),
        ensures
            final(self).stages@ == old(self).stages@.insert(stage_index as int, stage),
            final(self).index_table@ == old(self).index_table@,
    {
        self.stages.insert(stage_index, stage);
    }

    /// Takes the stage at position `stage_index` out; the stages behind it
    /// move one position down.
    fn remove_stage(&mut self, stage_index: usize) -> (stage: S)
        requires
            stage_index < old(self).stages@.len(),
        ensures
            stage == old(self).stages@[stage_index as int],
            final(self).stages@ == old(self).stages@.remove(stage_index as int),
            final(self).index_table@ == old(self).index_table@,
    {
        self.stages.remove(stage_index)
    }

    /// Records that the stage at position `stage_index` is named by `key`.
    fn insert_label(&mut self, stage_index: usize, key: u64)
        requires
            stage_index <= old(self).index_table@.len(),
            !old(self).index_table@.contains(key),
        ensures
            final(self).index_table@ == old(self).index_table@.insert(stage_index as int, key),
            final(self).stages@ == old(self).stages@,
    {
        self.index_table.insert(stage_index, key);
    }

    /// Forgets the label with key `key` and says which position it named.
    fn remove_label(&mut self, key: u64) -> (found: Option<usize>)
        ensures
            final(self).stages@ == old(self).stages@,
            match found {
                Some(index) => {
                    &&& index < old(self).index_table@.len()
                    &&& old(self).index_table@[index as int] == key
                    &&& forall|k: int| 0 <= k < index ==> old(self).index_table@[k] != key
                    &&& final(self).index_table@ == old(self).index_table@.remove(index as int)
                },
                None => {
                    &&& !old(self).index_table@.contains(key)
                    &&& final(self).index_table@ == old(self).index_table@
                },
            },
    {
        match self.stage_index(key) {
            Some(index) => {
                self.index_table.remove(index);
                Some(index)
            },
            None => None,
        }
    }

    /// The number of stages.
    pub fn len(&self) -> (n: usize)
        ensures
            n == self.stages().len(),
    {
        self.stages.len()
    }

    /// Whether `label` names a stage of the schedule.
    pub fn contains<L: StageLabel>(&self, label: &L) -> (found: bool)
        ensures
            found == self.labels().contains(label.key()),
    {
        self.stage_index(label.id()).is_some()
    }

    /// The keys of the labels, in the order in which their stages run.
    pub fn label_keys(&self) -> (keys: &Vec<u64>)
        ensures
            keys@ == self.labels(),
    {
        &self.index_table
    }

    /// The stage at position `index`.
    pub fn stage(&self, index: usize) -> (stage: &S)
        requires
            index < self.stages().len(),
        ensures
            *stage == self.stages()[index as int],
    {
        &self.stages[index]
    }

    /// Appends `stage` under `label`, which must not name a stage yet.
    pub fn add<L: StageLabel>(&mut self, label: L, stage: S)
        requires
            old(self).wf(),
            !old(self).labels().contains(label.key()),
        ensures
            final(self).wf(),
            final(self).labels() == old(self).labels().push(label.key()),
            final(self).stages() == old(self).stages().push(stage),
    {
        let key = label.id();
        let end = self.stages.len();
        self.insert_label(end, key);
        self.stages.push(stage);
        proof {
            assert(old(self).labels().insert(end as int, key) =~= old(self).labels().push(key));
            lemma_insert_distinct(old(self).labels(), end as int, key);
        }
    }

    /// Puts `stage` under `label` directly before the stage that
    /// `target_label` names. `target_label` must name a stage and `label`
    /// must not name one yet.
    pub fn add_before<T: StageLabel, L: StageLabel>(&mut self, target_label: &T, label: L, stage: S)
        requires
            old(self).wf(),
            old(self).labels().contains(target_label.key()),
            !old(self).labels().contains(label.key()),
        ensures
            final(self).wf(),
            final(self).labels() == old(self).labels().insert(
                old(self).labels().index_of(target_label.key()),
                label.key(),
            ),
            final(self).stages() == old(self).stages().insert(
                old(self).labels().index_of(target_label.key()),
                stage,
            ),
    {
        let key = label.id();
        let found = self.stage_index(target_label.id());
        assert(found is Some);
        let index = found.unwrap();
        proof {
            let at = old(self).labels().index_of(target_label.key());
            assert(0 <= at < old(self).labels().len() && old(self).labels()[at] == target_label.key());
            assert(at == index);
            lemma_insert_distinct(old(self).labels(), index as int, key);
        }
        self.insert_stage(index, stage);
        self.insert_label(index, key);
    }

    /// Puts `stage` under `label` directly behind the stage that
    /// `target_label` names. `target_label` must name a stage and `label`
    /// must not name one yet.
    pub fn add_after<T: StageLabel, L: StageLabel>(&mut self, target_label: &T, label: L, stage: S)
        requires
            old(self).wf(),
            old(self).labels().contains(target_label.key()),
            !old(self).labels().contains(label.key()),
        ensures
            final(self).wf(),
            final(self).labels() == old(self).labels().insert(
                old(self).labels().index_of(target_label.key()) + 1,
                label.key(),
            ),
            final(self).stages() == old(self).stages().insert(
                old(self).labels().index_of(target_label.key()) + 1,
                stage,
            ),
    {
        let key = label.id();
        let found = self.stage_index(target_label.id());
        assert(found is Some);
        let count = self.index_table.len();
        assert(found.unwrap() < count);
        let index = found.unwrap() + 1;
        proof {
            let at = old(self).labels().index_of(target_label.key());
            assert(0 <= at < old(self).labels().len() && old(self).labels()[at] == target_label.key());
            assert(at + 1 == index);
            lemma_insert_distinct(old(self).labels(), index as int, key);
        }
        self.insert_stage(index, stage);
        self.insert_label(index, key);
    }

    /// Takes the stage that `label` names out of the schedule, together with
    /// the label. Nothing changes when `label` names no stage.
    pub fn remove<L: StageLabel>(&mut self, label: &L) -> (removed: Option<S>)
        requires
            old(self).wf(),
        ensures
            final(self).wf(),
            match removed {
                Some(stage) => {
                    let at = old(self).labels().index_of(label.key());
                    &&& old(self).labels().contains(label.key())
                    &&& stage == old(self).stages()[at]
                    &&& final(self).labels() == old(self).labels().remove(at)
                    &&& final(self).stages() == old(self).stages().remove(at)
                },
                None => {
                    &&& !old(self).labels().contains(label.key())
                    &&& final(self).labels() == old(self).labels()
                    &&& final(self).stages() == old(self).stages()
                },
            },
    {
        match self.remove_label(label.id()) {
            Some(index) => {
                proof {
                    let at = old(self).labels().index_of(label.key());
                    assert(0 <= at < old(self).labels().len() && old(self).labels()[at] == label.key());
                    assert(at == index);
                    lemma_remove_distinct(old(self).labels(), index as int);
                }
                Some(self.remove_stage(index))
            },
            None => None,
        }
    }

    /// The stage that `label` names, for changing it in place.
    pub fn stage_mut<L: StageLabel>(&mut self, label: &L) -> (found: Option<&mut S>)
        requires
            old(self).wf(),
        ensures
            final(self).wf(),
            final(self).labels() == old(self).labels(),
            match found {
                Some(stage) => {
                    let at = old(self).labels().index_of(label.key());
                    &&& old(self).labels().contains(label.key())
                    &&& *stage == old(self).stages()[at]
                    &&& final(self).stages() == old(self).stages().update(at, *final(stage))
                },
                None => {
                    &&& !old(self).labels().contains(label.key())
                    &&& final(self).stages() == old(self).stages()
                },
            },
    {
        match self.stage_index(label.id()) {
            Some(index) => {
                proof {
                    let at = old(self).labels().index_of(label.key());
                    assert(0 <= at < old(self).labels().len() && old(self).labels()[at] == label.key());
                    assert(at == index);
                }
                Some(&mut self.stages[index])
            },
            None => None,
        }
    }

    /// Runs every stage once, in order, against `world` and `resources`. The
    /// labels stay with their stages.
    pub fn run(&mut self, world: &mut World, resources: &mut Resources)
        requires
            old(self).wf(),
        ensures
            final(self).wf(),
            final(self).labels() == old(self).labels(),
            final(self).stages().len() == old(self).stages().len(),
            forall|i: int|
                0 <= i < old(self).stages().len() ==> old(self).stages()[i].runs_to(
                    &#[trigger] final(self).stages()[i],
                ),
    {
        let count = self.stages.len();
        let mut i: usize = 0;
        while i < count
            invariant
                i <= count,
                count == self.stages@.len(),
                self.index_table@ == old(self).index_table@,
                self.stages@.len() == old(self).stages@.len(),
                forall|k: int|
                    0 <= k < i ==> old(self).stages@[k].runs_to(&#[trigger] self.stages@[k]),
                forall|k: int| i <= k < count ==> #[trigger] self.stages@[k] == old(self).stages@[k],
            decreases count - i,
        {
            self.stages[i].run(world, resources);
            i += 1;
        }
    }
}

impl<S: Stage> Default for Schedule<S> {
    /// A schedule without stages.
    fn default() -> (s: Self)
        ensures
            s.wf(),
            s.stages() == Seq::<S>::empty(),
            s.labels() == Seq::<u64>::empty(),
    {
        Schedule { stages: Vec::new(), index_table: Vec::new() }
    }
}

} // verus!
