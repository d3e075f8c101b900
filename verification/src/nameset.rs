//! Sets of names.

use vstd::prelude::*;
use vstd::hash_set::StringHashSet;
use crate::assoc::Name;
use crate::text::names;

verus! {

/// A set of names.
pub struct NameSet {
    items: StringHashSet,
}

impl View for NameSet {
    type V = Set<Name>;

    closed spec fn view(&self) -> Set<Name> {
        self.items@
    }
}

impl NameSet {
    /// The empty set.
    pub fn new() -> (r: NameSet)
        ensures
            r@ == Set::<Name>::empty(),
    {
        NameSet { items: StringHashSet::new() }
    }

    /// The set of the items of a list.
    pub fn of(v: &Vec<String>) -> (r: NameSet)
        ensures
            r@ == names(v@).to_set(),
    {
        let mut r = NameSet::new();
        let mut i: usize = 0;
        while i < v.len()
            invariant
                i <= v.len(),
                forall|x: Name| #[trigger]
                    r@.contains(x) <==> exists|j: int| 0 <= j < i && #[trigger] names(v@)[j] == x,
            decreases v.len() - i,
        {
            let ghost before = r@;
            r.insert(v[i].clone());
            proof {
                assert forall|x: Name| #[trigger] r@.contains(x) <==> exists|j: int|
                    0 <= j < i + 1 && #[trigger] names(v@)[j] == x by {
                    if before.contains(x) {
                        let j = choose|j: int| 0 <= j < i && #[trigger] names(v@)[j] == x;
                        assert(names(v@)[j] == x);
                    }
                    if x == v@[i as int]@ {
                        assert(names(v@)[i as int] == x);
                    }
                }
            }
            i += 1;
        }
        assert(r@ =~= names(v@).to_set());
        r
    }

    /// Adds a name; tells whether it was new.
    pub fn insert(&mut self, n: String) -> (r: bool)
        ensures
            final(self)@ == old(self)@.insert(n@),
            r == !old(self)@.contains(n@),
    {
        self.items.insert(n)
    }

    /// Takes a name out; tells whether it was there.
    pub fn remove(&mut self, n: &str) -> (r: bool)
        ensures
            final(self)@ == old(self)@.remove(n@),
            r == old(self)@.contains(n@),
    {
        self.items.remove(n)
    }

    /// Whether a name is in the set.
    pub fn contains(&self, n: &str) -> (r: bool)
        ensures
            r == self@.contains(n@),
    {
        self.items.contains(n)
    }
}

} // verus!
