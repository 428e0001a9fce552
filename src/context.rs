use std::collections::HashMap;
use vstd::prelude::*;

use crate::handle::TypePair;

verus! {

broadcast use vstd::std_specs::hash::group_hash_axioms;

/// One past the largest handle that the allocator can issue.
pub open spec fn handle_space() -> nat {
    0x1_0000_0000
}

/// The per-channel fork table: which forks are live, which item types each
/// one carries, and the state of the handle allocator.
pub struct Context {
    channel_types: HashMap<u32, TypePair>,
    unused_indices: Vec<u32>,
    next_index: u64,
}

impl View for Context {
    type V = Map<u32, TypePair>;

    /// The live forks and their type pairs.
    closed spec fn view(&self) -> Map<u32, TypePair> {
        self.channel_types@
    }
}

impl Context {
    /// Handles released for reuse, the most recently released last.
    pub closed spec fn free_list(&self) -> Seq<u32> {
        self.unused_indices@
    }

    /// The next never-issued handle.
    pub closed spec fn next_fresh(&self) -> nat {
        self.next_index as nat
    }

    pub closed spec fn wf(&self) -> bool {
        &&& 1 <= self.next_index <= handle_space()
        &&& forall|k: u32| #[trigger] self.channel_types@.contains_key(k) ==> k < self.next_index
        &&& forall|i: int|
            0 <= i < self.unused_indices@.len() ==> #[trigger] self.unused_indices@[i] != 0
                && self.unused_indices@[i] < self.next_index
                && !self.channel_types@.contains_key(self.unused_indices@[i])
        &&& forall|i: int, j: int|
            0 <= i < j < self.unused_indices@.len() ==> #[trigger] self.unused_indices@[i]
                != #[trigger] self.unused_indices@[j]
    }

    /// Whether `create` can still issue a handle: a released one, or a
    /// never-issued one.
    pub open spec fn can_allocate(&self) -> bool {
        self.free_list().len() > 0 || self.next_fresh() < handle_space()
    }

    /// The table holds finitely many forks.
    pub proof fn lemma_finite(&self)
        ensures
            self@.dom().finite(),
    {
    }

    /// The fresh handles of a well-formed table never run past the handle
    /// space.
    pub proof fn lemma_bounded(&self)
        requires
            self.wf(),
        ensures
            self.next_fresh() <= handle_space(),
    {
    }

    /// An empty table.
    pub fn new() -> (r: Context)
        ensures
            r.wf(),
            r@ == Map::<u32, TypePair>::empty(),
            r.free_list().len() == 0,
            r.next_fresh() == 1,
    {
        Context { channel_types: HashMap::new(), unused_indices: Vec::new(), next_index: 1 }
    }

    /// A table whose root fork is already live with the given type pair.
    pub fn new_with(root: TypePair) -> (r: Context)
        ensures
            r.wf(),
            r@ == Map::<u32, TypePair>::empty().insert(0, root),
            r.free_list().len() == 0,
            r.next_fresh() == 1,
    {
        let mut channel_types = HashMap::new();
        channel_types.insert(0, root);
        Context { channel_types, unused_indices: Vec::new(), next_index: 1 }
    }

    /// The type pair recorded for a fork, if it is live.
    pub fn get(&self, channel: u32) -> (r: Option<TypePair>)
        ensures
            r == (if self@.contains_key(channel) {
                Some(self@[channel])
            } else {
                None
            }),
    {
        match self.channel_types.get(&channel) {
            Some(pair) => Some(*pair),
            None => None,
        }
    }

    /// Allocates a handle for a new fork carrying `pair`: the most recently
    /// released handle, or else the next fresh one.
    pub fn create(&mut self, pair: TypePair) -> (r: Option<u32>)
        requires
            old(self).wf(),
        ensures
            final(self).wf(),
            r is Some <==> old(self).can_allocate(),
            r matches Some(h) ==> {
                &&& h != 0
                &&& !old(self)@.contains_key(h)
                &&& final(self)@ == old(self)@.insert(h, pair)
                &&& final(self)@.len() == old(self)@.len() + 1
            },
            old(self).free_list().len() > 0 ==> {
                &&& r == Some(old(self).free_list().last())
                &&& final(self).free_list() == old(self).free_list().drop_last()
                &&& final(self).next_fresh() == old(self).next_fresh()
            },
            old(self).free_list().len() == 0 && old(self).next_fresh() < handle_space() ==> {
                &&& r == Some(old(self).next_fresh() as u32)
                &&& final(self).free_list() == old(self).free_list()
                &&& final(self).next_fresh() == old(self).next_fresh() + 1
            },
            r is None ==> {
                &&& final(self)@ == old(self)@
                &&& final(self).free_list() == old(self).free_list()
                &&& final(self).next_fresh() == old(self).next_fresh()
            },
    {
        proof {
            self.lemma_finite();
        }
        match self.unused_indices.pop() {
            Some(id) => {
                self.channel_types.insert(id, pair);
                Some(id)
            },
            None => {
                if self.next_index < 0x1_0000_0000 {
                    let id = self.next_index as u32;
                    self.next_index = self.next_index + 1;
                    self.channel_types.insert(id, pair);
                    Some(id)
                } else {
                    None
                }
            },
        }
    }

    /// Records the type pair of a fork whose handle was issued elsewhere
    /// (by the peer, or by convention for the root). The handle leaves the
    /// free list, and the fresh handles start above it. A live fork keeps its
    /// type pair: recording another one is refused, and nothing changes.
    pub fn add(&mut self, handle: u32, pair: TypePair) -> (r: bool)
        requires
            old(self).wf(),
        ensures
            final(self).wf(),
            r == !(old(self)@.contains_key(handle) && old(self)@[handle] != pair),
            !r ==> final(self)@ == old(self)@ && final(self).free_list() == old(self).free_list()
                && final(self).next_fresh() == old(self).next_fresh(),
            r ==> final(self)@ == old(self)@.insert(handle, pair),
            r ==> final(self).next_fresh() == (if old(self).next_fresh() <= handle {
                (handle + 1) as nat
            } else {
                old(self).next_fresh()
            }),
            r && !old(self).free_list().contains(handle) ==> final(self).free_list() == old(
                self,
            ).free_list(),
            r && old(self).free_list().contains(handle) ==> exists|i: int|
                0 <= i < old(self).free_list().len() && old(self).free_list()[i] == handle
                    && final(self).free_list() == old(self).free_list().remove(i),
    {
        match self.channel_types.get(&handle) {
            Some(known) => {
                if *known != pair {
                    return false;
                }
            },
            None => {},
        }
        let mut i: usize = 0;
        while i < self.unused_indices.len()
            invariant
                i <= self.unused_indices@.len(),
                forall|j: int| 0 <= j < i ==> self.unused_indices@[j] != handle,
            ensures
                i <= self.unused_indices@.len(),
                forall|j: int| 0 <= j < i ==> self.unused_indices@[j] != handle,
                i < self.unused_indices@.len() ==> self.unused_indices@[i as int] == handle,
            decreases self.unused_indices.len() - i,
        {
            if self.unused_indices[i] == handle {
                break;
            }
            i = i + 1;
        }
        let ghost free = self.unused_indices@;
        if i < self.unused_indices.len() {
            self.unused_indices.remove(i);
            proof {
                assert forall|a: int, b: int|
                    0 <= a < b < self.unused_indices@.len() implies #[trigger] self.unused_indices@[a]
                    != #[trigger] self.unused_indices@[b] by {
                    let a2 = if a < i { a } else { a + 1 };
                    let b2 = if b < i { b } else { b + 1 };
                    assert(free[a2] != free[b2]);
                }
                assert forall|a: int| 0 <= a < self.unused_indices@.len() implies #[trigger] self.unused_indices@[a]
                    != handle by {
                    let a2 = if a < i { a } else { a + 1 };
                    if a2 < i {
                        assert(free[a2] != handle);
                    } else {
                        assert(free[a2] != free[i as int]);
                    }
                }
            }
        } else {
            proof {
                assert(!free.contains(handle));
            }
        }
        self.channel_types.insert(handle, pair);
        if self.next_index <= handle as u64 {
            self.next_index = handle as u64 + 1;
        }
        true
    }

    /// Ends a fork: its entry leaves the table and, unless it is the root,
    /// its handle goes onto the free list. Returns whether it was live.
    pub fn release(&mut self, handle: u32) -> (r: bool)
        requires
            old(self).wf(),
        ensures
            final(self).wf(),
            r == old(self)@.contains_key(handle),
            final(self)@ == old(self)@.remove(handle),
            final(self).next_fresh() == old(self).next_fresh(),
            r && handle != 0 ==> final(self).free_list() == old(self).free_list().push(handle),
            !(r && handle != 0) ==> final(self).free_list() == old(self).free_list(),
            r ==> final(self)@.len() == old(self)@.len() - 1,
    {
        proof {
            self.lemma_finite();
        }
        match self.channel_types.remove(&handle) {
            Some(_) => {
                if handle != 0 {
                    self.unused_indices.push(handle);
                }
                true
            },
            None => false,
        }
    }

    /// The number of live forks.
    pub fn len(&self) -> (r: usize)
        ensures
            r == self@.len(),
    {
        self.channel_types.len()
    }

    /// The single live fork, when exactly one is live.
    pub fn only(&self) -> (r: Option<(u32, TypePair)>)
        ensures
            self@.len() == 1 ==> (r matches Some((h, pair)) && self@ == Map::<u32, TypePair>::empty().insert(
                h,
                pair,
            )),
            self@.len() != 1 ==> r is None,
    {
        if self.channel_types.len() == 1 {
            for entry in it: self.channel_types.iter()
                invariant
                    it.index() == 0,
                    self.channel_types@.len() == 1,
            {
                let (h, pair) = (*entry.0, *entry.1);
                proof {
                    let m = self.channel_types@;
                    assert(m.contains_key(h) && m[h] == pair);
                    let rest = m.dom().remove(h);
                    vstd::set_lib::lemma_set_empty_equivalency_len(rest);
                    assert forall|k: u32| m.contains_key(k) implies k == h by {
                        if k != h {
                            assert(rest.contains(k));
                        }
                    }
                    assert(m =~= Map::<u32, TypePair>::empty().insert(h, pair));
                }
                return Some((h, pair));
            }
            None
        } else {
            None
        }
    }
}

} // verus!
