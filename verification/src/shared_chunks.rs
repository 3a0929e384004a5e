//! The table of shared chunks: which chunk holds the modules of which key.

use vstd::prelude::*;

verus! {

/// The map that results from inserting the entries one after the other.
pub open spec fn table_map(entries: Seq<(Vec<usize>, usize)>) -> Map<Seq<usize>, usize>
    decreases entries.len(),
{
    if entries.len() == 0 {
        Map::empty()
    } else {
        table_map(entries.drop_last()).insert(entries.last().0@, entries.last().1)
    }
}

/// The last entry with a key decides what the map holds for it.
pub proof fn lemma_table_hit(entries: Seq<(Vec<usize>, usize)>, i: int, key: Seq<usize>)
    requires
        0 <= i < entries.len(),
        entries[i].0@ == key,
        forall|j: int| i < j < entries.len() ==> (#[trigger] entries[j]).0@ != key,
    ensures
        table_map(entries).dom().contains(key),
        table_map(entries)[key] == entries[i].1,
    decreases entries.len(),
{
    if i < entries.len() - 1 {
        assert(entries.last() == entries[entries.len() - 1]);
        lemma_table_hit(entries.drop_last(), i, key);
    }
}

/// A key that no entry has is not in the map.
pub proof fn lemma_table_miss(entries: Seq<(Vec<usize>, usize)>, key: Seq<usize>)
    requires
        forall|j: int| 0 <= j < entries.len() ==> (#[trigger] entries[j]).0@ != key,
    ensures
        !table_map(entries).dom().contains(key),
    decreases entries.len(),
{
    if entries.len() > 0 {
        assert(entries.last() == entries[entries.len() - 1]);
        lemma_table_miss(entries.drop_last(), key);
    }
}

/// Whether two keys hold the same roots in the same order.
pub fn same_key(a: &Vec<usize>, b: &Vec<usize>) -> (same: bool)
    ensures
        same == (a@ == b@),
{
    if a.len() != b.len() {
        return false;
    }
    let mut i: usize = 0;
    while i < a.len()
        invariant
            i <= a.len(),
            a.len() == b.len(),
            forall|k: int| 0 <= k < i ==> a[k] == b[k],
        decreases a.len() - i,
    {
        if a[i] != b[i] {
            return false;
        }
        i = i + 1;
    }
    assert(a@ =~= b@);
    true
}

/// For each key that has a shared chunk, the id of that chunk.
pub struct SharedChunks {
    entries: Vec<(Vec<usize>, usize)>,
}

impl View for SharedChunks {
    type V = Map<Seq<usize>, usize>;

    closed spec fn view(&self) -> Map<Seq<usize>, usize> {
        table_map(self.entries@)
    }
}

impl SharedChunks {
    /// The table without keys.
    pub fn new() -> (table: SharedChunks)
        ensures
            table@ == Map::<Seq<usize>, usize>::empty(),
    {
        SharedChunks { entries: Vec::new() }
    }

    /// The chunk of `key`, if it has one.
    pub fn get(&self, key: &Vec<usize>) -> (id: Option<usize>)
        ensures
            match id {
                Some(found) => self@.dom().contains(key@) && self@[key@] == found,
                None => !self@.dom().contains(key@),
            },
    {
        let mut i: usize = self.entries.len();
        while i > 0
            invariant
                i <= self.entries.len(),
                forall|j: int| i <= j < self.entries.len() ==> (#[trigger] self.entries[j]).0@ != key@,
            decreases i,
        {
            i = i - 1;
            if same_key(&self.entries[i].0, key) {
                proof {
                    lemma_table_hit(self.entries@, i as int, key@);
                }
                return Some(self.entries[i].1);
            }
        }
        proof {
            lemma_table_miss(self.entries@, key@);
        }
        None
    }

    /// Gives `key` the chunk `id`.
    pub fn insert(&mut self, key: Vec<usize>, id: usize)
        ensures
            final(self)@ == old(self)@.insert(key@, id),
    {
        self.entries.push((key, id));
        assert(self.entries@.drop_last() =~= old(self).entries@);
    }
}

} // verus!
