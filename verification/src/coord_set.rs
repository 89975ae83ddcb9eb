//! A finite set of chunk coordinates.

use vstd::prelude::*;
use crate::coord::ChunkCoord;

verus! {

/// A set of coordinates, such as those of the chunks that are being
/// generated. Membership is all it records: each coordinate is in the set
/// once or not at all.
pub struct CoordSet {
    items: Vec<ChunkCoord>,
}

impl View for CoordSet {
    type V = Set<ChunkCoord>;

    closed spec fn view(&self) -> Set<ChunkCoord> {
        self.items@.to_set()
    }
}

proof fn lemma_push_fresh(s: Seq<ChunkCoord>, c: ChunkCoord)
    requires
        s.no_duplicates(),
        !s.contains(c),
    ensures
        s.push(c).no_duplicates(),
        s.push(c).to_set() == s.to_set().insert(c),
{
    let t = s.push(c);
    assert forall|d: ChunkCoord| t.contains(d) <==> (s.contains(d) || d == c) by {
        if t.contains(d) {
            let i = choose|i: int| 0 <= i < t.len() && t[i] == d;
            if i < s.len() {
                assert(s[i] == d);
            }
        }
        if s.contains(d) {
            let i = choose|i: int| 0 <= i < s.len() && s[i] == d;
            assert(t[i] == d);
        }
        if d == c {
            assert(t[s.len() as int] == d);
        }
    }
    assert(t.to_set() =~= s.to_set().insert(c));
}

proof fn lemma_swap_remove_member(s: Seq<ChunkCoord>, i: int)
    requires
        s.no_duplicates(),
        0 <= i < s.len(),
    ensures
        s.update(i, s.last()).drop_last().no_duplicates(),
        s.update(i, s.last()).drop_last().to_set() == s.to_set().remove(s[i]),
{
    let t = s.update(i, s.last()).drop_last();
    let last = s.len() - 1;
    assert forall|d: ChunkCoord| t.contains(d) <==> (s.contains(d) && d != s[i]) by {
        if t.contains(d) {
            let j = choose|j: int| 0 <= j < t.len() && t[j] == d;
            if j == i {
                assert(s[last] == d);
            } else {
                assert(s[j] == d);
            }
        }
        if s.contains(d) && d != s[i] {
            let j = choose|j: int| 0 <= j < s.len() && s[j] == d;
            if j == last {
                assert(t[i] == d);
            } else {
                assert(t[j] == d);
            }
        }
    }
    assert(t.to_set() =~= s.to_set().remove(s[i]));
}

impl CoordSet {
    #[verifier::type_invariant]
    spec fn well_formed(self) -> bool {
        self.items@.no_duplicates()
    }

    /// The empty set.
    pub fn new() -> (set: CoordSet)
        ensures
            set@ == Set::<ChunkCoord>::empty(),
    {
        let set = CoordSet { items: Vec::new() };
        assert(set.items@.to_set() =~= Set::empty());
        set
    }

    /// The number of coordinates in the set.
    pub fn len(&self) -> (n: usize)
        ensures
            self@.finite(),
            n == self@.len(),
    {
        proof {
            use_type_invariant(self);
            self.items@.unique_seq_to_set();
            vstd::seq_lib::seq_to_set_is_finite(self.items@);
        }
        self.items.len()
    }

    fn find(&self, coord: ChunkCoord) -> (r: Option<usize>)
        ensures
            match r {
                Some(i) => i < self.items@.len() && self.items@[i as int] == coord,
                None => !self.items@.contains(coord),
            },
    {
        let mut i: usize = 0;
        while i < self.items.len()
            invariant
                i <= self.items@.len(),
                forall|j: int| 0 <= j < i ==> self.items@[j] != coord,
            decreases self.items@.len() - i,
        {
            if self.items[i] == coord {
                return Some(i);
            }
            i += 1;
        }
        None
    }

    /// Whether `coord` is in the set.
    pub fn contains(&self, coord: ChunkCoord) -> (r: bool)
        ensures
            r == self@.contains(coord),
    {
        let found = self.find(coord);
        proof {
            if let Some(i) = found {
                assert(self.items@.contains(coord));
            }
        }
        found.is_some()
    }

    /// Puts `coord` into the set, and says whether it was new.
    pub fn insert(&mut self, coord: ChunkCoord) -> (fresh: bool)
        ensures
            fresh == !old(self)@.contains(coord),
            final(self)@ == old(self)@.insert(coord),
            final(self)@.finite(),
    {
        proof {
            use_type_invariant(&*self);
            vstd::seq_lib::seq_to_set_is_finite(self.items@);
        }
        match self.find(coord) {
            Some(i) => {
                assert(self.items@.contains(coord));
                assert(self@.insert(coord) =~= self@);
                false
            },
            None => {
                proof {
                    lemma_push_fresh(self.items@, coord);
                }
                let mut items = Vec::new();
                std::mem::swap(&mut items, &mut self.items);
                items.push(coord);
                self.items = items;
                true
            },
        }
    }

    /// Takes `coord` out of the set, and says whether it was there.
    pub fn remove(&mut self, coord: ChunkCoord) -> (present: bool)
        ensures
            present == old(self)@.contains(coord),
            final(self)@ == old(self)@.remove(coord),
            final(self)@.finite(),
    {
        proof {
            use_type_invariant(&*self);
            vstd::seq_lib::seq_to_set_is_finite(self.items@);
        }
        match self.find(coord) {
            Some(i) => {
                proof {
                    assert(self.items@.contains(coord));
                    lemma_swap_remove_member(self.items@, i as int);
                }
                let mut items = Vec::new();
                std::mem::swap(&mut items, &mut self.items);
                items.swap_remove(i);
                self.items = items;
                true
            },
            None => {
                assert(self@.remove(coord) =~= self@);
                false
            },
        }
    }
}

} // verus!
