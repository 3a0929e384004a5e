//! Minimum-size dissolution: shared chunks below a minimum size are dissolved
//! into their source chunks.

use crate::chunk::ChunkView;
use crate::chunk_graph::{holds, leads, links_apart, placed_in, slot_live, ChunkGraph};
use crate::module_graph::ModuleGraph;
use crate::placement_key::{lemma_ascending_is_members, members_below};
use vstd::prelude::*;

verus! {

/// The chunks and the edges of a chunk graph.
pub struct GraphState {
    /// The chunk slots by chunk id.
    pub chunks: Seq<Option<ChunkView>>,
    /// The edges, each as source and target.
    pub links: Set<(usize, usize)>,
}

/// The slots after the modules were appended to each of the source chunks
/// that is there, one source after the other.
pub open spec fn absorb(
    sizes: Seq<usize>,
    chunks: Seq<Option<ChunkView>>,
    sources: Seq<usize>,
    module_ids: Seq<usize>,
) -> Seq<Option<ChunkView>>
    decreases sources.len(),
{
    if sources.len() == 0 {
        chunks
    } else {
        let before = absorb(sizes, chunks, sources.drop_last(), module_ids);
        let s = sources.last();
        if slot_live(before, s) {
            before.update(s as int, Some(before[s as int].unwrap().with_modules(sizes, module_ids)))
        } else {
            before
        }
    }
}

/// The graph without the chunk `id` and without the edges that touch it.
pub open spec fn without_chunk(st: GraphState, id: usize) -> GraphState {
    GraphState {
        chunks: st.chunks.update(id as int, None),
        links: links_apart(st.links, id),
    }
}

/// The graph after the chunk `id` was dissolved: the chunk is removed, and
/// its modules are appended to each of its source chunks.
pub open spec fn dissolved(sizes: Seq<usize>, st: GraphState, id: usize) -> GraphState {
    if slot_live(st.chunks, id) {
        let chunk = st.chunks[id as int].unwrap();
        let rest = without_chunk(st, id);
        GraphState {
            chunks: absorb(sizes, rest.chunks, chunk.source_chunks, chunk.module_ids),
            links: rest.links,
        }
    } else {
        st
    }
}

/// Whether the chunk `id` is a shared chunk below the minimum size.
pub open spec fn is_small_shared(chunks: Seq<Option<ChunkView>>, id: usize, min_size: usize) -> bool {
    slot_live(chunks, id) && chunks[id as int].unwrap().source_chunks.len() > 0
        && chunks[id as int].unwrap().size < min_size
}

/// The graph after the chunks `ids` were looked at one after the other, and
/// each that was a small shared chunk at its turn was dissolved.
pub open spec fn dissolve_small(
    sizes: Seq<usize>,
    st: GraphState,
    ids: Seq<usize>,
    min_size: usize,
) -> GraphState
    decreases ids.len(),
{
    if ids.len() == 0 {
        st
    } else {
        let before = dissolve_small(sizes, st, ids.drop_last(), min_size);
        if is_small_shared(before.chunks, ids.last(), min_size) {
            dissolved(sizes, before, ids.last())
        } else {
            before
        }
    }
}

/// The ids of the chunks that are there, ascending.
pub open spec fn live_ids(chunks: Seq<Option<ChunkView>>) -> Seq<usize> {
    members_below(Set::new(|id: usize| slot_live(chunks, id)), chunks.len())
}

/// How two slot tables relate when chunks were only removed or given more
/// modules: no slot came to life, and what is still there has its old modules
/// first, at least its old size, and no more source chunks than before.
pub open spec fn slots_grown(before: Seq<Option<ChunkView>>, after: Seq<Option<ChunkView>>) -> bool {
    &&& after.len() == before.len()
    &&& forall|i: int|
        0 <= i < after.len() && (#[trigger] after[i]) is Some ==> {
            &&& before[i] is Some
            &&& before[i].unwrap().module_ids.is_prefix_of(after[i].unwrap().module_ids)
            &&& after[i].unwrap().source_chunks.len() <= before[i].unwrap().source_chunks.len()
            &&& before[i].unwrap().size <= after[i].unwrap().size
        }
}

/// A table has grown from itself.
pub proof fn lemma_grown_same(chunks: Seq<Option<ChunkView>>)
    ensures
        slots_grown(chunks, chunks),
{
    assert forall|i: int| 0 <= i < chunks.len() && (#[trigger] chunks[i]) is Some implies chunks[i].unwrap().module_ids.is_prefix_of(
        chunks[i].unwrap().module_ids,
    ) by {
        let a = chunks[i].unwrap().module_ids;
        assert(a =~= a.subrange(0, a.len() as int));
    }
}

/// Growing twice is growing.
pub proof fn lemma_grown_twice(
    first: Seq<Option<ChunkView>>,
    second: Seq<Option<ChunkView>>,
    third: Seq<Option<ChunkView>>,
)
    requires
        slots_grown(first, second),
        slots_grown(second, third),
    ensures
        slots_grown(first, third),
{
    assert forall|i: int| 0 <= i < third.len() && (#[trigger] third[i]) is Some implies {
        &&& first[i] is Some
        &&& first[i].unwrap().module_ids.is_prefix_of(third[i].unwrap().module_ids)
        &&& third[i].unwrap().source_chunks.len() <= first[i].unwrap().source_chunks.len()
        &&& first[i].unwrap().size <= third[i].unwrap().size
    } by {
        assert(second[i] is Some);
        let a = first[i].unwrap().module_ids;
        let b = second[i].unwrap().module_ids;
        let c = third[i].unwrap().module_ids;
        assert(a =~= c.subrange(0, a.len() as int)) by {
            assert(a =~= b.subrange(0, a.len() as int));
            assert(b =~= c.subrange(0, b.len() as int));
        }
    }
}

/// A graph that loses a chunk, dissolved or not, has otherwise only grown.
pub proof fn lemma_dissolved_grows(sizes: Seq<usize>, st: GraphState, id: usize)
    ensures
        slots_grown(st.chunks, dissolved(sizes, st, id).chunks),
        slot_live(st.chunks, id) ==> slots_grown(st.chunks, without_chunk(st, id).chunks),
        dissolved(sizes, st, id).links.subset_of(st.links),
{
    if slot_live(st.chunks, id) {
        let chunk = st.chunks[id as int].unwrap();
        let rest = st.chunks.update(id as int, None);
        lemma_absorb_grows(sizes, rest, chunk.source_chunks, chunk.module_ids);
        let after = dissolved(sizes, st, id).chunks;
        assert forall|i: int| 0 <= i < after.len() && (#[trigger] after[i]) is Some implies {
            &&& st.chunks[i] is Some
            &&& st.chunks[i].unwrap().module_ids.is_prefix_of(after[i].unwrap().module_ids)
            &&& after[i].unwrap().source_chunks.len() <= st.chunks[i].unwrap().source_chunks.len()
            &&& st.chunks[i].unwrap().size <= after[i].unwrap().size
        } by {
            assert(rest[i] is Some);
        }
        assert forall|i: int| 0 <= i < rest.len() && (#[trigger] rest[i]) is Some implies {
            &&& st.chunks[i] is Some
            &&& st.chunks[i].unwrap().module_ids.is_prefix_of(rest[i].unwrap().module_ids)
        } by {
            assert(st.chunks[i].unwrap().module_ids =~= rest[i].unwrap().module_ids.subrange(
                0,
                st.chunks[i].unwrap().module_ids.len() as int,
            ));
        }
    } else {
        lemma_grown_same(st.chunks);
    }
}

/// Absorbing modules removes no chunk, lets chunks only grow, and leaves
/// their source chunks as they are.
pub proof fn lemma_absorb_grows(
    sizes: Seq<usize>,
    chunks: Seq<Option<ChunkView>>,
    sources: Seq<usize>,
    module_ids: Seq<usize>,
)
    ensures
        slots_grown(chunks, absorb(sizes, chunks, sources, module_ids)),
        forall|i: int|
            0 <= i < chunks.len() && (#[trigger] chunks[i]) is Some ==> absorb(
                sizes,
                chunks,
                sources,
                module_ids,
            )[i] is Some && absorb(sizes, chunks, sources, module_ids)[i].unwrap().source_chunks
                == chunks[i].unwrap().source_chunks,
    decreases sources.len(),
{
    if sources.len() == 0 {
        lemma_grown_same(chunks);
    } else {
        let before = absorb(sizes, chunks, sources.drop_last(), module_ids);
        let after = absorb(sizes, chunks, sources, module_ids);
        lemma_absorb_grows(sizes, chunks, sources.drop_last(), module_ids);
        assert forall|i: int| 0 <= i < after.len() && (#[trigger] after[i]) is Some implies {
            &&& before[i] is Some
            &&& before[i].unwrap().module_ids.is_prefix_of(after[i].unwrap().module_ids)
            &&& after[i].unwrap().source_chunks.len() <= before[i].unwrap().source_chunks.len()
            &&& before[i].unwrap().size <= after[i].unwrap().size
        } by {
            let a = before[i].unwrap().module_ids;
            assert(a =~= (a + module_ids).subrange(0, a.len() as int));
            assert(a =~= a.subrange(0, a.len() as int));
        }
        lemma_grown_twice(chunks, before, after);
    }
}

/// A module stays in its chunk when the table grows and the chunk is still
/// there.
pub proof fn lemma_grown_keeps(
    before: Seq<Option<ChunkView>>,
    after: Seq<Option<ChunkView>>,
    id: usize,
    module_id: usize,
)
    requires
        slots_grown(before, after),
        slot_live(after, id),
    ensures
        holds(before, id, module_id) ==> holds(after, id, module_id),
        leads(before, id, module_id) ==> leads(after, id, module_id),
{
    assert(after[id as int] is Some);
    let a = before[id as int].unwrap().module_ids;
    let b = after[id as int].unwrap().module_ids;
    if a.contains(module_id) {
        let k = choose|k: int| 0 <= k < a.len() && a[k] == module_id;
        assert(b.subrange(0, a.len() as int)[k] == module_id);
        assert(b[k] == module_id);
    }
    if a.len() > 0 {
        assert(b.subrange(0, a.len() as int)[0] == a[0]);
    }
}

/// Every source chunk that is there gets the modules.
pub proof fn lemma_absorb_delivers(
    sizes: Seq<usize>,
    chunks: Seq<Option<ChunkView>>,
    sources: Seq<usize>,
    module_ids: Seq<usize>,
    k: int,
    module_id: usize,
)
    requires
        0 <= k < sources.len(),
        slot_live(chunks, sources[k]),
        module_ids.contains(module_id),
    ensures
        holds(absorb(sizes, chunks, sources, module_ids), sources[k], module_id),
    decreases sources.len(),
{
    let before = absorb(sizes, chunks, sources.drop_last(), module_ids);
    let after = absorb(sizes, chunks, sources, module_ids);
    lemma_absorb_grows(sizes, chunks, sources.drop_last(), module_ids);
    lemma_absorb_grows(sizes, chunks, sources, module_ids);
    assert(chunks[sources[k] as int] is Some);
    let s = sources.last();
    if k == sources.len() - 1 {
        assert(slot_live(before, s));
        let j = choose|j: int| 0 <= j < module_ids.len() && module_ids[j] == module_id;
        let a = before[s as int].unwrap().module_ids;
        assert((a + module_ids)[a.len() + j] == module_id);
    } else {
        lemma_absorb_delivers(sizes, chunks, sources.drop_last(), module_ids, k, module_id);
        assert(sources.drop_last()[k] == sources[k]);
        if slot_live(before, s) {
            let a = before[s as int].unwrap().module_ids;
            if s == sources[k] {
                let j = choose|j: int| 0 <= j < a.len() && a[j] == module_id;
                assert((a + module_ids)[j] == module_id);
            }
        }
    }
}

/// Whether every chunk with source chunks has a source chunk that is there
/// and is an entry chunk.
pub open spec fn sources_anchored(chunks: Seq<Option<ChunkView>>) -> bool {
    forall|id: usize|
        slot_live(chunks, id) && !(#[trigger] chunks[id as int]).unwrap().is_entry() ==> exists|
            k: int,
        |
            #[trigger] anchors(chunks, id, k)
}

/// Whether the `k`-th source chunk of the chunk `id` is there and is an entry
/// chunk.
pub open spec fn anchors(chunks: Seq<Option<ChunkView>>, id: usize, k: int) -> bool {
    &&& 0 <= k < chunks[id as int].unwrap().source_chunks.len()
    &&& slot_live(chunks, chunks[id as int].unwrap().source_chunks[k])
    &&& chunks[chunks[id as int].unwrap().source_chunks[k] as int].unwrap().is_entry()
}

/// When a shared chunk is dissolved, every module that was in a chunk is
/// still in a chunk, as long as every shared chunk has an entry chunk among
/// its source chunks.
pub proof fn lemma_dissolved_keeps_placed(sizes: Seq<usize>, st: GraphState, id: usize)
    requires
        sources_anchored(st.chunks),
        slot_live(st.chunks, id),
        !st.chunks[id as int].unwrap().is_entry(),
    ensures
        sources_anchored(dissolved(sizes, st, id).chunks),
        forall|m: usize| placed_in(st.chunks, m) ==> placed_in(dissolved(sizes, st, id).chunks, m),
{
    let chunk = st.chunks[id as int].unwrap();
    let rest = st.chunks.update(id as int, None);
    let after = dissolved(sizes, st, id).chunks;
    lemma_absorb_grows(sizes, rest, chunk.source_chunks, chunk.module_ids);
    assert(st.chunks[id as int] is Some);
    let k0 = choose|k: int| #[trigger] anchors(st.chunks, id, k);
    let s0 = chunk.source_chunks[k0];
    assert(s0 != id);
    assert(rest[s0 as int] is Some);
    assert forall|x: usize|
        slot_live(after, x) && !(#[trigger] after[x as int]).unwrap().is_entry() implies exists|
        k: int,
    |
        #[trigger] anchors(after, x, k) by {
        assert(after[x as int] is Some);
        assert(rest[x as int] is Some);
        assert(st.chunks[x as int] is Some);
        assert(x != id);
        let k = choose|k: int| #[trigger] anchors(st.chunks, x, k);
        let s = st.chunks[x as int].unwrap().source_chunks[k];
        assert(st.chunks[s as int] is Some);
        assert(s != id);
        assert(rest[s as int] is Some);
        assert(anchors(after, x, k));
    }
    assert forall|m: usize| placed_in(st.chunks, m) implies placed_in(after, m) by {
        let h = choose|h: usize| holds(st.chunks, h, m);
        if h == id {
            lemma_absorb_delivers(sizes, rest, chunk.source_chunks, chunk.module_ids, k0, m);
            assert(holds(after, s0, m));
        } else {
            assert(st.chunks[h as int] is Some);
            assert(rest[h as int] is Some);
            assert(holds(rest, h, m));
            lemma_grown_keeps(rest, after, h, m);
            assert(holds(after, h, m));
        }
    }
}

/// Removes a chunk and appends its modules to each of its source chunks that
/// is there.
pub fn remove_bundle(modules: &ModuleGraph, chunks: &mut ChunkGraph, bundle_id: usize)
    requires
        old(chunks).wf(),
        old(chunks).sizes_agree(modules.sizes()),
        old(chunks).contains(bundle_id),
    ensures
        final(chunks).wf(),
        final(chunks).sizes_agree(modules.sizes()),
        (GraphState { chunks: final(chunks).chunks(), links: final(chunks).links() }) == dissolved(
            modules.sizes(),
            GraphState { chunks: old(chunks).chunks(), links: old(chunks).links() },
            bundle_id,
        ),
{
    let ghost sizes = modules.sizes();
    let bundle = chunks.remove_chunk(bundle_id).unwrap();
    let ghost rest = chunks.chunks();
    let mut k: usize = 0;
    assert(bundle.source_chunks@.take(0) =~= Seq::<usize>::empty());
    while k < bundle.source_chunks.len()
        invariant
            k <= bundle.source_chunks.len(),
            sizes == modules.sizes(),
            chunks.wf(),
            chunks.sizes_agree(sizes),
            chunks.links() == links_apart(old(chunks).links(), bundle_id),
            chunks.chunks() == absorb(
                sizes,
                rest,
                bundle.source_chunks@.take(k as int),
                bundle.module_ids@,
            ),
            forall|j: int| 0 <= j < bundle.module_ids.len() ==> bundle.module_ids[j] < sizes.len(),
        decreases bundle.source_chunks.len() - k,
    {
        let source: usize = bundle.source_chunks[k];
        if chunks.contains_chunk(source) {
            chunks.push_modules(modules, source, &bundle.module_ids);
        }
        proof {
            let next = bundle.source_chunks@.take(k + 1);
            assert(next.drop_last() =~= bundle.source_chunks@.take(k as int));
            assert(next.last() == source);
        }
        k = k + 1;
    }
    assert(bundle.source_chunks@.take(bundle.source_chunks.len() as int) =~= bundle.source_chunks@);
}

/// Dissolves every shared chunk that is smaller than `min_size` into its
/// source chunks.
///
/// The chunks are looked at in ascending order of the ids that are in use when
/// the pass starts. Afterwards no shared chunk is smaller than `min_size`, and
/// every entry chunk is still there.
pub fn remove_small_shared_chunks(modules: &ModuleGraph, chunks: &mut ChunkGraph, min_size: usize)
    requires
        old(chunks).wf(),
        old(chunks).sizes_agree(modules.sizes()),
    ensures
        final(chunks).wf(),
        final(chunks).sizes_agree(modules.sizes()),
        (GraphState { chunks: final(chunks).chunks(), links: final(chunks).links() })
            == dissolve_small(
            modules.sizes(),
            GraphState { chunks: old(chunks).chunks(), links: old(chunks).links() },
            live_ids(old(chunks).chunks()),
            min_size,
        ),
        slots_grown(old(chunks).chunks(), final(chunks).chunks()),
        final(chunks).links().subset_of(old(chunks).links()),
        forall|id: usize| !is_small_shared(final(chunks).chunks(), id, min_size),
        forall|id: usize|
            old(chunks).contains(id) && old(chunks).chunk_view(id).is_entry()
                ==> final(chunks).contains(id),
        sources_anchored(old(chunks).chunks()) ==> forall|m: usize|
            placed_in(old(chunks).chunks(), m) ==> placed_in(final(chunks).chunks(), m),
{
    let ghost sizes = modules.sizes();
    let ghost start = GraphState { chunks: old(chunks).chunks(), links: old(chunks).links() };
    let ids = chunks.chunk_ids();
    proof {
        let live = Set::new(|id: usize| slot_live(start.chunks, id));
        assert forall|x: usize|
            #![trigger ids@.contains(x)]
            #![trigger live.contains(x)]
            ids@.contains(x) <==> live.contains(x) && x < start.chunks.len() by {
            assert(chunks.contains(x) == slot_live(start.chunks, x));
        }
        lemma_ascending_is_members(ids@, live, start.chunks.len());
    }
    let mut i: usize = 0;
    assert(ids@.take(0) =~= Seq::<usize>::empty());
    while i < ids.len()
        invariant
            i <= ids.len(),
            sizes == modules.sizes(),
            ids@ == live_ids(start.chunks),
            forall|x: usize| ids@.contains(x) <==> slot_live(start.chunks, x),
            start == (GraphState { chunks: old(chunks).chunks(), links: old(chunks).links() }),
            chunks.wf(),
            chunks.sizes_agree(sizes),
            (GraphState { chunks: chunks.chunks(), links: chunks.links() }) == dissolve_small(
                sizes,
                start,
                ids@.take(i as int),
                min_size,
            ),
            slots_grown(start.chunks, chunks.chunks()),
            chunks.links().subset_of(start.links),
            forall|j: int| 0 <= j < i ==> !is_small_shared(chunks.chunks(), #[trigger] ids[j], min_size),
            forall|id: usize|
                slot_live(start.chunks, id) && start.chunks[id as int].unwrap().is_entry()
                    ==> slot_live(chunks.chunks(), id),
            sources_anchored(start.chunks) ==> sources_anchored(chunks.chunks()) && forall|
                m: usize,
            |
                placed_in(start.chunks, m) ==> placed_in(chunks.chunks(), m),
        decreases ids.len() - i,
    {
        let id: usize = ids[i];
        let ghost before = chunks.chunks();
        let ghost before_links = chunks.links();
        let small = match chunks.chunk(id) {
            Some(chunk) => chunk.source_chunks.len() > 0 && chunk.size < min_size as u128,
            None => false,
        };
        if small {
            let ghost chunk = before[id as int].unwrap();
            remove_bundle(modules, chunks, id);
            proof {
                let rest = before.update(id as int, None);
                lemma_absorb_grows(sizes, rest, chunk.source_chunks, chunk.module_ids);
                let after = chunks.chunks();
                lemma_dissolved_grows(sizes, GraphState { chunks: before, links: before_links }, id);
                lemma_grown_twice(start.chunks, before, after);
                if sources_anchored(start.chunks) {
                    lemma_dissolved_keeps_placed(
                        sizes,
                        GraphState { chunks: before, links: before_links },
                        id,
                    );
                    assert forall|m: usize| placed_in(start.chunks, m) implies placed_in(
                        after,
                        m,
                    ) by {
                        assert(placed_in(before, m));
                    }
                }
                assert forall|x: usize|
                    slot_live(start.chunks, x) && start.chunks[x as int].unwrap().is_entry()
                        implies slot_live(after, x) by {
                    assert(slot_live(before, x));
                    assert(before[x as int] is Some);
                    assert(before[id as int] is Some);
                    assert(x != id);
                    assert(rest[x as int] is Some);
                }
                assert forall|j: int| 0 <= j < i + 1 implies !is_small_shared(
                    chunks.chunks(),
                    #[trigger] ids[j],
                    min_size,
                ) by {
                    if j < i {
                        assert(!is_small_shared(before, ids[j], min_size));
                    }
                }
            }
        }
        proof {
            assert(ids@.take(i + 1).drop_last() =~= ids@.take(i as int));
            assert(ids@.take(i + 1).last() == id);
        }
        i = i + 1;
    }
    proof {
        assert(ids@.take(ids.len() as int) =~= ids@);
        assert forall|id: usize| !is_small_shared(chunks.chunks(), id, min_size) by {
            if slot_live(chunks.chunks(), id) {
                assert(chunks.chunks()[id as int] is Some);
                assert(slot_live(start.chunks, id));
                assert(ids@.contains(id));
                let j = choose|j: int| 0 <= j < ids.len() && ids[j] == id;
                assert(!is_small_shared(chunks.chunks(), ids[j], min_size));
            }
        }
    }
}

} // verus!
