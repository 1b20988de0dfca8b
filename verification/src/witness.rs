//! Assignments of values to targets.

use crate::target::Target;
use vstd::prelude::*;

verus! {

/// The value of the first entry for `t`, if there is one.
pub open spec fn lookup(entries: Seq<(Target, u64)>, t: Target) -> Option<u64>
    decreases entries.len(),
{
    if entries.len() == 0 {
        None
    } else if entries[0].0 == t {
        Some(entries[0].1)
    } else {
        lookup(entries.drop_first(), t)
    }
}

/// The values that a witness generator has produced, in the order produced.
#[derive(Debug)]
pub struct GeneratedValues {
    pub target_values: Vec<(Target, u64)>,
}

impl GeneratedValues {
    /// No values.
    pub fn empty() -> (r: Self)
        ensures
            r.target_values.len() == 0,
    {
        GeneratedValues { target_values: Vec::new() }
    }

    /// Records the value of a target.
    pub fn set_target(&mut self, target: Target, value: u64)
        ensures
            final(self).target_values@ == old(self).target_values@.push((target, value)),
    {
        self.target_values.push((target, value));
    }
}

/// The values known of a circuit's targets.
#[derive(Debug)]
pub struct PartitionWitness {
    pub target_values: Vec<(Target, u64)>,
}

impl PartitionWitness {
    /// A witness that knows no value.
    pub fn new() -> (r: Self)
        ensures
            r.target_values.len() == 0,
    {
        PartitionWitness { target_values: Vec::new() }
    }

    /// The value of `target`, if the witness knows one.
    pub open spec fn spec_get(self, target: Target) -> Option<u64> {
        lookup(self.target_values@, target)
    }

    /// The value of `target`, if the witness knows one.
    pub fn try_get_target(&self, target: Target) -> (r: Option<u64>)
        ensures
            r == self.spec_get(target),
    {
        let mut i: usize = 0;
        proof {
            assert(self.target_values@.skip(0) =~= self.target_values@);
        }
        while i < self.target_values.len()
            invariant
                i <= self.target_values.len(),
                self.spec_get(target) == lookup(self.target_values@.skip(i as int), target),
            decreases self.target_values.len() - i,
        {
            let entry = self.target_values[i];
            proof {
                let here = self.target_values@.skip(i as int);
                assert(here[0] == entry);
                assert(here.drop_first() =~= self.target_values@.skip(i + 1));
            }
            if entry.0 == target {
                return Some(entry.1);
            }
            i = i + 1;
        }
        None
    }

    /// The value of a target that the witness knows.
    pub fn get_target(&self, target: Target) -> (r: u64)
        requires
            self.spec_get(target).is_some(),
        ensures
            self.spec_get(target) == Some(r),
    {
        match self.try_get_target(target) {
            Some(v) => v,
            None => 0,
        }
    }

    /// Sets the value of a target that has none yet.
    pub fn set_target(&mut self, target: Target, value: u64)
        requires
            old(self).spec_get(target).is_none(),
        ensures
            final(self).target_values@ == old(self).target_values@.push((target, value)),
            final(self).spec_get(target) == Some(value),
            forall|t: Target|
                t != target ==> #[trigger] final(self).spec_get(t) == old(self).spec_get(t),
    {
        let ghost before = self.target_values@;
        self.target_values.push((target, value));
        proof {
            lemma_lookup_push(before, (target, value), target);
            assert forall|t: Target| t != target implies #[trigger] self.spec_get(t) == lookup(
                before,
                t,
            ) by {
                lemma_lookup_push(before, (target, value), t);
            }
        }
    }
}

/// An entry appended to the end answers for its target where no earlier
/// entry does, and for no other target.
pub proof fn lemma_lookup_push(entries: Seq<(Target, u64)>, entry: (Target, u64), t: Target)
    ensures
        lookup(entries.push(entry), t) == (if lookup(entries, t).is_some() {
            lookup(entries, t)
        } else if entry.0 == t {
            Some(entry.1)
        } else {
            None
        }),
    decreases entries.len(),
{
    let extended = entries.push(entry);
    if entries.len() == 0 {
        assert(extended.drop_first().len() == 0);
        assert(extended[0] == entry);
        assert(lookup(extended.drop_first(), t).is_none());
    } else {
        assert(extended.drop_first() =~= entries.drop_first().push(entry));
        assert(extended[0] == entries[0]);
        lemma_lookup_push(entries.drop_first(), entry, t);
    }
}

} // verus!
