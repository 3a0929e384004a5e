//! Root seeding: one chunk for each entry module.

use crate::chunk::{lemma_single_sized, Chunk, ChunkView};
use crate::chunk_graph::{leads, lemma_extended_keeps, slot_live, slots_extended, ChunkGraph};
use crate::module_graph::ModuleGraph;
use crate::roots::ChunkRoots;
use vstd::prelude::*;

verus! {

/// The chunks after seeding: the chunk with id `i` holds the `i`-th entry.
pub open spec fn entry_chunks(sizes: Seq<usize>, entries: Seq<usize>) -> Seq<Option<ChunkView>> {
    Seq::new(
        entries.len(),
        |i: int| Some(ChunkView::single(entries[i], sizes[entries[i] as int])),
    )
}

/// The roots after seeding: each entry with the id of its chunk, which is
/// also the id of its chunk group; of an entry that is listed more than once,
/// the last chunk counts.
pub open spec fn entry_roots(entries: Seq<usize>) -> Map<usize, (usize, usize)>
    decreases entries.len(),
{
    if entries.len() == 0 {
        Map::empty()
    } else {
        let id = (entries.len() - 1) as usize;
        entry_roots(entries.drop_last()).insert(entries.last(), (id, id))
    }
}

/// Whether the chunk ids of all roots are below `count`.
pub open spec fn roots_below(roots: Map<usize, (usize, usize)>, count: nat) -> bool {
    forall|m: usize| #[trigger] roots.dom().contains(m) ==> roots[m].0 < count && roots[m].1 < count
}

/// Whether the chunk of every root is there and begins with the root, and
/// the chunk group of every root is there.
pub open spec fn roots_lead(roots: Map<usize, (usize, usize)>, chunks: Seq<Option<ChunkView>>) -> bool {
    forall|m: usize| #[trigger]
        roots.dom().contains(m) ==> leads(chunks, roots[m].0, m) && slot_live(chunks, roots[m].1)
}

/// Whether the `i`-th chunk is there and begins with the `i`-th entry, for
/// every entry.
pub open spec fn entries_lead(entries: Seq<usize>, chunks: Seq<Option<ChunkView>>) -> bool {
    forall|i: int| 0 <= i < entries.len() ==> leads(chunks, i as usize, #[trigger] entries[i])
}

/// The chunks of the entries still begin with the entries when the table is
/// extended.
pub proof fn lemma_entries_still_lead(
    entries: Seq<usize>,
    before: Seq<Option<ChunkView>>,
    after: Seq<Option<ChunkView>>,
)
    requires
        entries_lead(entries, before),
        slots_extended(before, after),
    ensures
        entries_lead(entries, after),
{
    assert forall|i: int| 0 <= i < entries.len() implies leads(
        after,
        i as usize,
        #[trigger] entries[i],
    ) by {
        assert(leads(before, i as usize, entries[i]));
        lemma_extended_keeps(before, after, i as usize, entries[i]);
    }
}

/// Whether every chunk is an entry chunk that holds one module, a root.
pub open spec fn all_entries(chunks: Seq<Option<ChunkView>>, roots: Map<usize, (usize, usize)>) -> bool {
    forall|i: int|
        0 <= i < chunks.len() && (#[trigger] chunks[i]) is Some ==> {
            &&& chunks[i].unwrap().is_entry()
            &&& chunks[i].unwrap().module_ids.len() == 1
            &&& roots.dom().contains(chunks[i].unwrap().module_ids[0])
        }
}

/// Creates the chunk graph with one entry chunk for each entry, in the order
/// of the entries, and the table of their roots.
pub fn seed_entry_chunks(modules: &ModuleGraph, entries: &Vec<usize>) -> (seeded: (
    ChunkGraph,
    ChunkRoots,
))
    requires
        forall|i: int| 0 <= i < entries.len() ==> entries[i] < modules.modules().len(),
    ensures
        seeded.0.wf(),
        seeded.0.chunks() == entry_chunks(modules.sizes(), entries@),
        seeded.0.links() == Set::<(usize, usize)>::empty(),
        seeded.0.dense(),
        seeded.0.sizes_agree(modules.sizes()),
        seeded.1@ == entry_roots(entries@),
        seeded.1.capacity() == modules.modules().len(),
        roots_below(seeded.1@, entries.len() as nat),
        roots_lead(seeded.1@, seeded.0.chunks()),
        entries_lead(entries@, seeded.0.chunks()),
        all_entries(seeded.0.chunks(), seeded.1@),
        forall|i: int| 0 <= i < entries.len() ==> seeded.1@.dom().contains(entries[i]),
{
    let mut chunks = ChunkGraph::new();
    let mut roots = ChunkRoots::new(modules.module_count());
    let ghost sizes = modules.sizes();
    let mut i: usize = 0;
    assert(entries@.take(0) =~= Seq::<usize>::empty());
    assert(chunks.chunks() =~= entry_chunks(sizes, entries@.take(0)));
    while i < entries.len()
        invariant
            i <= entries.len(),
            sizes == modules.sizes(),
            forall|k: int| 0 <= k < entries.len() ==> entries[k] < modules.modules().len(),
            chunks.wf(),
            chunks.chunks() == entry_chunks(sizes, entries@.take(i as int)),
            chunks.links() == Set::<(usize, usize)>::empty(),
            chunks.sizes_agree(sizes),
            roots@ == entry_roots(entries@.take(i as int)),
            roots.capacity() == modules.modules().len(),
            roots_below(roots@, i as nat),
            roots_lead(roots@, chunks.chunks()),
            forall|k: int| 0 <= k < i ==> roots@.dom().contains(entries[k]),
            all_entries(chunks.chunks(), roots@),
        decreases entries.len() - i,
    {
        let entry: usize = entries[i];
        let chunk = Chunk::from_js_module(entry, modules.module(entry));
        let chunk_id: usize = chunks.add_chunk(chunk);
        roots.insert(entry, (chunk_id, chunk_id));
        proof {
            let next = entries@.take(i + 1);
            assert(next.drop_last() =~= entries@.take(i as int));
            assert(next.last() == entry);
            assert(chunks.chunks() =~= entry_chunks(sizes, next));
            lemma_single_sized(sizes, entry);
            assert(chunks.chunk_view(chunk_id) == ChunkView::single(entry, sizes[entry as int]));
        }
        i = i + 1;
    }
    assert(entries@.take(entries.len() as int) =~= entries@);
    assert(entries.len() <= usize::MAX);
    (chunks, roots)
}

} // verus!
