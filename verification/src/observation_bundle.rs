use std::collections::HashSet;
use vstd::prelude::*;

verus! {

broadcast use vstd::std_specs::hash::group_hash_axioms;

/// The observations that share one value of a covariate. They move between
/// the two sides of a split together.
#[derive(Debug)]
pub struct ObservationBundle {
    pub cut_point: i64,
    pub indexes: HashSet<usize>,
}

impl ObservationBundle {
    /// The set of member observations.
    pub open spec fn members(&self) -> Set<usize> {
        self.indexes@
    }

    /// A bundle with the single member `index`.
    pub fn new(cut_point: i64, index: usize) -> (b: ObservationBundle)
        ensures
            b.cut_point == cut_point,
            b.members() == set![index],
    {
        let mut indexes: HashSet<usize> = HashSet::new();
        indexes.insert(index);
        assert(indexes@ =~= set![index]);
        ObservationBundle { cut_point, indexes }
    }

    /// Makes `index` a member; a bundle that holds it already stays as it is.
    pub fn add(&mut self, index: usize)
        ensures
            final(self).cut_point == old(self).cut_point,
            final(self).members() == old(self).members().insert(index),
    {
        self.indexes.insert(index);
    }

    /// Takes `index` out; a bundle that does not hold it stays as it is.
    pub fn remove(&mut self, index: usize)
        ensures
            final(self).cut_point == old(self).cut_point,
            final(self).members() == old(self).members().remove(index),
    {
        self.indexes.remove(&index);
    }
}

impl Clone for ObservationBundle {
    /// A bundle with the same cut point and the same members.
    fn clone(&self) -> (copy: ObservationBundle)
        ensures
            copy.cut_point == self.cut_point,
            copy.members() == self.members(),
    {
        let mut indexes: HashSet<usize> = HashSet::new();
        for member in iter: self.indexes.iter()
            invariant
                iter.seq().unref().to_set() == self.indexes@,
                forall|m: usize|
                    indexes@.contains(m) <==> (exists|t: int|
                        0 <= t < iter.index() && #[trigger] iter.seq().unref()[t] == m),
        {
            assert(member == iter.seq()[iter.index() as int]);
            indexes.insert(*member);
        }
        assert(indexes@ =~= self.indexes@);
        ObservationBundle { cut_point: self.cut_point, indexes }
    }
}

} // verus!
