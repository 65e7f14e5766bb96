use vstd::prelude::*;

verus! {

/// A set of state indices below a fixed bound, kept as one flag per index.
/// Two sets with the same members are the same set, whatever their bounds.
#[derive(Debug)]
pub struct StateSet {
    pub bits: Vec<bool>,
}

impl View for StateSet {
    type V = Set<int>;

    open spec fn view(&self) -> Set<int> {
        Set::new(|i: int| 0 <= i < self.bits@.len() && self.bits@[i])
    }
}

/// The number of flags in `bits` that are not set.
pub open spec fn unset(bits: Seq<bool>) -> nat
    decreases bits.len(),
{
    if bits.len() == 0 {
        0
    } else if bits.last() {
        unset(bits.drop_last())
    } else {
        unset(bits.drop_last()) + 1
    }
}

/// Setting a flag that was not set leaves one flag fewer unset.
pub proof fn lemma_unset_update(bits: Seq<bool>, i: int)
    requires
        0 <= i < bits.len(),
        !bits[i],
    ensures
        unset(bits.update(i, true)) + 1 == unset(bits),
    decreases bits.len(),
{
    if i == bits.len() - 1 {
        assert(bits.update(i, true).drop_last() =~= bits.drop_last());
    } else {
        assert(bits.update(i, true).drop_last() =~= bits.drop_last().update(i, true));
        lemma_unset_update(bits.drop_last(), i);
    }
}

impl StateSet {
    /// The bound: only indices below it can be members.
    pub open spec fn bound(self) -> nat {
        self.bits@.len()
    }

    /// The number of indices below the bound that are not members.
    pub open spec fn vacant(self) -> nat {
        unset(self.bits@)
    }

    /// The empty set of indices below `universe`.
    pub fn new(universe: usize) -> (s: Self)
        ensures
            s@ == Set::<int>::empty(),
            s.bound() == universe,
    {
        let mut bits: Vec<bool> = Vec::new();
        while bits.len() < universe
            invariant
                bits@.len() <= universe,
                forall|i: int| 0 <= i < bits@.len() ==> !bits@[i],
            decreases universe - bits@.len(),
        {
            bits.push(false);
        }
        let s = StateSet { bits };
        assert(s@ =~= Set::<int>::empty());
        s
    }

    /// The bound of the set.
    pub fn universe(&self) -> (n: usize)
        ensures
            n == self.bound(),
    {
        self.bits.len()
    }

    /// Whether `index` is a member.
    pub fn contains(&self, index: usize) -> (found: bool)
        ensures
            found == self@.contains(index as int),
    {
        index < self.bits.len() && self.bits[index]
    }

    /// Adds `index` where it is below the bound, and says whether the set grew.
    pub fn insert(&mut self, index: usize) -> (grew: bool)
        ensures
            final(self).bound() == old(self).bound(),
            index < old(self).bound() ==> final(self)@ == old(self)@.insert(index as int),
            index >= old(self).bound() ==> final(self)@ == old(self)@,
            grew == (index < old(self).bound() && !old(self)@.contains(index as int)),
            final(self).vacant() + (if grew { 1nat } else { 0nat }) == old(self).vacant(),
    {
        if index < self.bits.len() {
            let grew = !self.bits[index];
            proof {
                if grew {
                    lemma_unset_update(self.bits@, index as int);
                } else {
                    assert(self.bits@.update(index as int, true) =~= self.bits@);
                }
            }
            self.bits.set(index, true);
            assert(self@ =~= old(self)@.insert(index as int));
            grew
        } else {
            false
        }
    }

    /// Whether the set has no member.
    pub fn is_empty(&self) -> (empty: bool)
        ensures
            empty == (self@ == Set::<int>::empty()),
    {
        let mut i: usize = 0;
        while i < self.bits.len()
            invariant
                i <= self.bits@.len(),
                forall|k: int| 0 <= k < i ==> !self.bits@[k],
            decreases self.bits@.len() - i,
        {
            if self.bits[i] {
                assert(self@.contains(i as int));
                return false;
            }
            i += 1;
        }
        assert(self@ =~= Set::<int>::empty());
        true
    }

    /// Whether both sets have the same members.
    pub fn equals(&self, other: &StateSet) -> (same: bool)
        ensures
            same == (self@ == other@),
    {
        let n = self.bits.len();
        let m = other.bits.len();
        let mut i: usize = 0;
        while i < n || i < m
            invariant
                n == self.bits@.len(),
                m == other.bits@.len(),
                forall|k: int| 0 <= k < i ==> (self@.contains(k) <==> other@.contains(k)),
            decreases (if n >= m { n } else { m }) - i,
        {
            let a = i < n && self.bits[i];
            let b = i < m && other.bits[i];
            if a != b {
                assert(self@.contains(i as int) != other@.contains(i as int));
                return false;
            }
            i += 1;
        }
        assert(self@ =~= other@);
        true
    }

    /// A copy of the set.
    pub fn duplicate(&self) -> (copy: Self)
        ensures
            copy.bits@ == self.bits@,
            copy@ == self@,
    {
        let mut bits: Vec<bool> = Vec::new();
        let mut i: usize = 0;
        while i < self.bits.len()
            invariant
                i <= self.bits@.len(),
                bits@ == self.bits@.take(i as int),
            decreases self.bits@.len() - i,
        {
            bits.push(self.bits[i]);
            assert(self.bits@.take(i + 1) =~= self.bits@.take(i as int).push(self.bits@[i as int]));
            i += 1;
        }
        assert(self.bits@.take(i as int) =~= self.bits@);
        StateSet { bits }
    }
}

} // verus!
