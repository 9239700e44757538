//! Declared data access of a task, and the conflict model over it.

use crate::sequences::lemma_push_distinct;
use std::collections::HashMap;
use vstd::prelude::*;
use vstd::seq_lib::lemma_seq_contains_after_push;

verus! {

broadcast use vstd::std_specs::hash::group_hash_axioms;

/// How a task touches one resource.
#[derive(Clone, Copy, PartialEq, Eq, Structural, Debug)]
pub enum AccessMode {
    Read,
    Write,
}

/// The declared accesses of one task: for each resource it touches, the mode.
///
/// A resource is declared at most once; declaring it again replaces the
/// earlier mode (the last declaration wins).
pub struct AccessSet {
    /// Every declared resource exactly once, in order of first declaration.
    resources: Vec<u64>,
    /// The mode of each declared resource.
    modes: HashMap<u64, AccessMode>,
}

/// Resource `r` is touched by both sides and at least one side writes it.
pub open spec fn conflict_on(a: Map<u64, AccessMode>, b: Map<u64, AccessMode>, r: u64) -> bool {
    &&& a.contains_key(r)
    &&& b.contains_key(r)
    &&& (a[r] == AccessMode::Write || b[r] == AccessMode::Write)
}

/// Two access sets may be used concurrently: no shared resource is written by
/// either side.
pub open spec fn compatible(a: Map<u64, AccessMode>, b: Map<u64, AccessMode>) -> bool {
    forall|r: u64| !conflict_on(a, b, r)
}

/// Compatibility does not depend on the order of its arguments.
pub proof fn lemma_compatible_symmetric(a: Map<u64, AccessMode>, b: Map<u64, AccessMode>)
    ensures
        compatible(a, b) == compatible(b, a),
{
    if compatible(a, b) {
        assert forall|r: u64| !conflict_on(b, a, r) by {
            assert(!conflict_on(a, b, r));
        }
    }
    if compatible(b, a) {
        assert forall|r: u64| !conflict_on(a, b, r) by {
            assert(!conflict_on(b, a, r));
        }
    }
}

/// Two access sets that only read are compatible.
pub proof fn lemma_readers_compatible(a: Map<u64, AccessMode>, b: Map<u64, AccessMode>)
    requires
        forall|r: u64| a.contains_key(r) ==> a[r] == AccessMode::Read,
        forall|r: u64| b.contains_key(r) ==> b[r] == AccessMode::Read,
    ensures
        compatible(a, b),
{
}

impl View for AccessSet {
    type V = Map<u64, AccessMode>;

    closed spec fn view(&self) -> Map<u64, AccessMode> {
        self.modes@
    }
}

impl AccessSet {
    #[verifier::type_invariant]
    spec fn inv(self) -> bool {
        &&& self.resources@.no_duplicates()
        &&& forall|r: u64| self.resources@.contains(r) <==> self.modes@.contains_key(r)
    }

    /// An access set that declares nothing.
    pub fn new() -> (s: Self)
        ensures
            s@ == Map::<u64, AccessMode>::empty(),
    {
        AccessSet { resources: Vec::new(), modes: HashMap::new() }
    }

    fn insert_parts(
        resources: &mut Vec<u64>,
        modes: &mut HashMap<u64, AccessMode>,
        resource: u64,
        mode: AccessMode,
    )
        requires
            old(resources)@.no_duplicates(),
            forall|r: u64| old(resources)@.contains(r) <==> old(modes)@.contains_key(r),
        ensures
            final(resources)@.no_duplicates(),
            forall|r: u64| final(resources)@.contains(r) <==> final(modes)@.contains_key(r),
            final(modes)@ == old(modes)@.insert(resource, mode),
    {
        let earlier = modes.insert(resource, mode);
        if earlier.is_none() {
            resources.push(resource);
            proof {
                let before = old(resources)@;
                assert(resources@ == before.push(resource));
                assert(!before.contains(resource));
                lemma_push_distinct(before, resource);
                lemma_seq_contains_after_push(before, resource, resource);
                assert forall|r: u64| resources@.contains(r) <==> modes@.contains_key(r) by {
                    lemma_seq_contains_after_push(before, resource, r);
                }
            }
        }
    }

    /// Declares that the task touches `resource` in `mode`, replacing any
    /// earlier declaration for the same resource.
    pub fn insert(&mut self, resource: u64, mode: AccessMode)
        ensures
            final(self)@ == old(self)@.insert(resource, mode),
    {
        let mut taken = AccessSet::new();
        core::mem::swap(self, &mut taken);
        proof {
            use_type_invariant(&taken);
        }
        let AccessSet { mut resources, mut modes } = taken;
        Self::insert_parts(&mut resources, &mut modes, resource, mode);
        *self = AccessSet { resources, modes };
    }

    /// The number of resources declared.
    pub fn len(&self) -> (n: usize)
        ensures
            n == self@.dom().len(),
    {
        proof {
            use_type_invariant(self);
        }
        self.modes.len()
    }

    /// The mode declared for `resource`, if any.
    pub fn mode_of(&self, resource: u64) -> (m: Option<AccessMode>)
        ensures
            m == (if self@.contains_key(resource) {
                Some(self@[resource])
            } else {
                None
            }),
    {
        match self.modes.get(&resource) {
            Some(m) => Some(*m),
            None => None,
        }
    }

    /// Looks every resource of `self` up in `other`.
    fn scan(&self, other: &AccessSet) -> (ok: bool)
        ensures
            ok == compatible(self@, other@),
    {
        proof {
            use_type_invariant(self);
        }
        let mut i: usize = 0;
        while i < self.resources.len()
            invariant
                i <= self.resources@.len(),
                forall|r: u64| self.resources@.contains(r) <==> self.modes@.contains_key(r),
                forall|k: int| 0 <= k < i ==> !conflict_on(self@, other@, #[trigger] self.resources@[k]),
            decreases self.resources@.len() - i,
        {
            let r = self.resources[i];
            assert(self.resources@.contains(r));
            let mine = self.mode_of(r);
            let theirs = other.mode_of(r);
            let clash = match (mine, theirs) {
                (Some(AccessMode::Write), Some(_)) => true,
                (Some(_), Some(AccessMode::Write)) => true,
                _ => false,
            };
            if clash {
                assert(conflict_on(self@, other@, r));
                return false;
            }
            i += 1;
        }
        proof {
            assert forall|r: u64| !conflict_on(self@, other@, r) by {
                if self@.contains_key(r) {
                    assert(self.resources@.contains(r));
                    let k = choose|k: int| 0 <= k < self.resources@.len() && self.resources@[k] == r;
                    assert(!conflict_on(self@, other@, self.resources@[k]));
                }
            }
        }
        true
    }

    /// Whether the two access sets may be used concurrently.
    ///
    /// Walks the smaller of the two sets and looks each of its resources up
    /// in the other.
    pub fn is_compatible(&self, other: &AccessSet) -> (ok: bool)
        ensures
            ok == compatible(self@, other@),
    {
        if self.len() <= other.len() {
            self.scan(other)
        } else {
            proof {
                lemma_compatible_symmetric(self@, other@);
            }
            other.scan(self)
        }
    }
}

} // verus!
