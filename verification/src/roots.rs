//! The bookkeeping of the chunk roots: which module starts which chunk, and
//! which root was split off below which other root.

use vstd::prelude::*;

verus! {

/// For each module that starts a chunk, the id of that chunk and the id of
/// its chunk group.
#[derive(Debug)]
pub struct ChunkRoots {
    table: Vec<Option<(usize, usize)>>,
}

impl View for ChunkRoots {
    type V = Map<usize, (usize, usize)>;

    closed spec fn view(&self) -> Map<usize, (usize, usize)> {
        Map::new(
            |m: usize| m < self.table.len() && self.table[m as int] is Some,
            |m: usize| self.table[m as int].unwrap(),
        )
    }
}

impl ChunkRoots {
    /// The number of modules that the table was made for.
    pub closed spec fn capacity(&self) -> nat {
        self.table.len() as nat
    }

    /// Every root is a module below the capacity.
    pub proof fn lemma_roots_below_capacity(&self)
        ensures
            forall|m: usize| self@.dom().contains(m) ==> m < self.capacity(),
    {
    }

    /// The table without roots, for `module_count` modules.
    pub fn new(module_count: usize) -> (roots: ChunkRoots)
        ensures
            roots@ == Map::<usize, (usize, usize)>::empty(),
            roots.capacity() == module_count,
    {
        let mut table: Vec<Option<(usize, usize)>> = Vec::new();
        let mut i: usize = 0;
        while i < module_count
            invariant
                i <= module_count,
                table.len() == i,
                forall|k: int| 0 <= k < i ==> table[k] is None,
            decreases module_count - i,
        {
            table.push(None);
            i = i + 1;
        }
        let roots = ChunkRoots { table };
        assert(roots@ =~= Map::<usize, (usize, usize)>::empty());
        roots
    }

    /// Makes `module` a root with the given chunk id and chunk group id.
    pub fn insert(&mut self, module: usize, ids: (usize, usize))
        requires
            module < old(self).capacity(),
        ensures
            final(self)@ == old(self)@.insert(module, ids),
            final(self).capacity() == old(self).capacity(),
    {
        self.table.set(module, Some(ids));
        assert(self@ =~= old(self)@.insert(module, ids));
    }

    /// The chunk id and chunk group id of `module`, if it is a root.
    pub fn get(&self, module: usize) -> (ids: Option<(usize, usize)>)
        ensures
            match ids {
                Some(found) => self@.dom().contains(module) && self@[module] == found,
                None => !self@.dom().contains(module),
            },
    {
        if module < self.table.len() {
            self.table[module]
        } else {
            None
        }
    }

    /// Whether `module` is a root.
    pub fn contains(&self, module: usize) -> (found: bool)
        ensures
            found == self@.dom().contains(module),
    {
        self.get(module).is_some()
    }
}

/// The pairs of an ancestor root and a root that was split off by an async
/// import below it.
#[derive(Debug)]
pub struct ReachableChunks {
    pairs: Vec<(usize, usize)>,
}

impl View for ReachableChunks {
    type V = Set<(usize, usize)>;

    closed spec fn view(&self) -> Set<(usize, usize)> {
        self.pairs@.to_set()
    }
}

impl ReachableChunks {
    /// The empty relation.
    pub fn new() -> (pairs: ReachableChunks)
        ensures
            pairs@ == Set::<(usize, usize)>::empty(),
    {
        let pairs = ReachableChunks { pairs: Vec::new() };
        assert(pairs@ =~= Set::<(usize, usize)>::empty());
        pairs
    }

    /// Whether `descendant` was split off below `ancestor`.
    pub fn contains(&self, ancestor: usize, descendant: usize) -> (found: bool)
        ensures
            found == self@.contains((ancestor, descendant)),
    {
        let mut i: usize = 0;
        while i < self.pairs.len()
            invariant
                i <= self.pairs.len(),
                forall|k: int| 0 <= k < i ==> self.pairs[k] != (ancestor, descendant),
            decreases self.pairs.len() - i,
        {
            let pair = self.pairs[i];
            if pair.0 == ancestor && pair.1 == descendant {
                return true;
            }
            i = i + 1;
        }
        false
    }

    /// Records that `descendant` was split off below `ancestor`.
    pub fn insert(&mut self, ancestor: usize, descendant: usize)
        ensures
            final(self)@ == old(self)@.insert((ancestor, descendant)),
    {
        if !self.contains(ancestor, descendant) {
            self.pairs.push((ancestor, descendant));
            assert forall|p: (usize, usize)| self@.contains(p) == old(self)@.insert(
                (ancestor, descendant),
            ).contains(p) by {
                if old(self).pairs@.contains(p) {
                    let k = choose|k: int| 0 <= k < old(self).pairs.len() && old(self).pairs[k] == p;
                    assert(self.pairs[k] == p);
                }
                if p == (ancestor, descendant) {
                    assert(self.pairs[self.pairs.len() - 1] == p);
                }
            }
        }
        assert(self@ =~= old(self)@.insert((ancestor, descendant)));
    }
}

} // verus!
