//! Parallel-load enforcement: a chunk that has edges to more chunks than the
//! limit allows loses its edges to the smallest of them.

use crate::chunk::ChunkView;
use crate::chunk_graph::{slot_live, ChunkGraph};
use crate::module_graph::ModuleGraph;
use crate::placement_key::{ascending, insert_ascending, lemma_ascending_is_members, members_below};
use crate::pruning::{
    dissolved, lemma_dissolved_grows, lemma_grown_same, lemma_grown_twice, live_ids, remove_bundle,
    slots_grown, without_chunk, GraphState,
};
use vstd::prelude::*;
use vstd::seq_lib::seq_to_set_is_finite;
use vstd::set_lib::lemma_len_subset;

verus! {

/// The size of the chunk `id`, 0 if it is not there.
pub open spec fn size_of(chunks: Seq<Option<ChunkView>>, id: usize) -> nat {
    if slot_live(chunks, id) {
        chunks[id as int].unwrap().size
    } else {
        0
    }
}

/// A list that is ordered by size, with `x` put behind the last chunk that is
/// not larger than `x`.
pub open spec fn insert_by_size(chunks: Seq<Option<ChunkView>>, list: Seq<usize>, x: usize) -> Seq<
    usize,
>
    decreases list.len(),
{
    if list.len() == 0 {
        seq![x]
    } else if size_of(chunks, list.last()) <= size_of(chunks, x) {
        list.push(x)
    } else {
        insert_by_size(chunks, list.drop_last(), x).push(list.last())
    }
}

/// The chunks `ids` ordered by size; chunks of one size keep their order.
pub open spec fn by_size(chunks: Seq<Option<ChunkView>>, ids: Seq<usize>) -> Seq<usize>
    decreases ids.len(),
{
    if ids.len() == 0 {
        Seq::empty()
    } else {
        insert_by_size(chunks, by_size(chunks, ids.drop_last()), ids.last())
    }
}

/// The chunks to which `g` has an edge.
pub open spec fn loaded_by(links: Set<(usize, usize)>, g: usize) -> Set<usize> {
    Set::new(|to: usize| links.contains((g, to)))
}

/// The chunks from which `v` has an edge.
pub open spec fn loaders_of(links: Set<(usize, usize)>, v: usize) -> Set<usize> {
    Set::new(|from: usize| links.contains((from, v)))
}

/// The chunks to which `g` has an edge, the smallest first, of two chunks of
/// one size the one with the smaller id first.
pub open spec fn ordered_successors(st: GraphState, g: usize) -> Seq<usize> {
    by_size(st.chunks, members_below(loaded_by(st.links, g), st.chunks.len()))
}

/// The slots after the modules were appended to each of the source chunks
/// that is in `group` and is there, one source after the other.
pub open spec fn absorb_within(
    sizes: Seq<usize>,
    chunks: Seq<Option<ChunkView>>,
    sources: Seq<usize>,
    group: Seq<usize>,
    module_ids: Seq<usize>,
) -> Seq<Option<ChunkView>>
    decreases sources.len(),
{
    if sources.len() == 0 {
        chunks
    } else {
        let before = absorb_within(sizes, chunks, sources.drop_last(), group, module_ids);
        let s = sources.last();
        if group.contains(s) && slot_live(before, s) {
            before.update(s as int, Some(before[s as int].unwrap().with_modules(sizes, module_ids)))
        } else {
            before
        }
    }
}

/// The source chunks that are not in `group`, in their order.
pub open spec fn kept_sources(sources: Seq<usize>, group: Seq<usize>) -> Seq<usize>
    decreases sources.len(),
{
    if sources.len() == 0 {
        Seq::empty()
    } else if group.contains(sources.last()) {
        kept_sources(sources.drop_last(), group)
    } else {
        kept_sources(sources.drop_last(), group).push(sources.last())
    }
}

/// The chunk with other source chunks.
pub open spec fn with_sources(chunk: ChunkView, source_chunks: Seq<usize>) -> ChunkView {
    ChunkView { module_ids: chunk.module_ids, size: chunk.size, source_chunks }
}

/// The graph after `g` lost its edge to `v`.
///
/// The modules of `v` move into those source chunks of `v` that are in
/// `group`, and `v` keeps the other source chunks. Then the edge goes. If one
/// edge to `v` is left, `v` is dissolved into the source chunks that it kept;
/// if none is left, `v` is removed.
pub open spec fn evict(
    sizes: Seq<usize>,
    st: GraphState,
    g: usize,
    group: Seq<usize>,
    v: usize,
) -> GraphState {
    if !slot_live(st.chunks, v) {
        st
    } else {
        let chunk = st.chunks[v as int].unwrap();
        let moved = absorb_within(sizes, st.chunks, chunk.source_chunks, group, chunk.module_ids);
        let handed = GraphState {
            chunks: moved.update(
                v as int,
                Some(
                    with_sources(moved[v as int].unwrap(), kept_sources(chunk.source_chunks, group)),
                ),
            ),
            links: st.links.remove((g, v)),
        };
        let left = loaders_of(handed.links, v).len();
        if left == 1 {
            dissolved(sizes, handed, v)
        } else if left == 0 {
            without_chunk(handed, v)
        } else {
            handed
        }
    }
}

/// The graph after `g` lost its edges to the victims, one after the other.
pub open spec fn evict_all(
    sizes: Seq<usize>,
    st: GraphState,
    g: usize,
    group: Seq<usize>,
    victims: Seq<usize>,
) -> GraphState
    decreases victims.len(),
{
    if victims.len() == 0 {
        st
    } else {
        evict(sizes, evict_all(sizes, st, g, group, victims.drop_last()), g, group, victims.last())
    }
}

/// The graph after the chunk group of `g` was brought within the limit: if
/// `g` has edges to more chunks than `limit`, it loses the edges to the
/// smallest of them, so that `limit` are left.
pub open spec fn relieve(sizes: Seq<usize>, st: GraphState, g: usize, limit: usize) -> GraphState {
    let group = ordered_successors(st, g);
    if group.len() <= limit {
        st
    } else {
        evict_all(sizes, st, g, group, group.take(group.len() - limit))
    }
}

/// The graph after the chunk groups of `ids` were brought within the limit,
/// one after the other.
pub open spec fn enforce_limit(sizes: Seq<usize>, st: GraphState, ids: Seq<usize>, limit: usize) -> GraphState
    decreases ids.len(),
{
    if ids.len() == 0 {
        st
    } else {
        relieve(sizes, enforce_limit(sizes, st, ids.drop_last(), limit), ids.last(), limit)
    }
}

/// Whether `g` has edges to at most `limit` chunks.
pub open spec fn loads_at_most(links: Set<(usize, usize)>, g: usize, limit: usize) -> bool {
    loaded_by(links, g).finite() && loaded_by(links, g).len() <= limit
}

/// A chunk that is within the limit stays within it when edges go.
pub proof fn lemma_fewer_links(
    before: Set<(usize, usize)>,
    after: Set<(usize, usize)>,
    g: usize,
    limit: usize,
)
    requires
        after.subset_of(before),
        loads_at_most(before, g, limit),
    ensures
        loads_at_most(after, g, limit),
{
    assert(loaded_by(after, g).subset_of(loaded_by(before, g)));
    lemma_len_subset(loaded_by(after, g), loaded_by(before, g));
}

/// Putting `x` at index `i` orders by size if every chunk from `i` on is
/// larger than `x` and the chunk before `i` is not.
pub proof fn lemma_insert_by_size_at(
    chunks: Seq<Option<ChunkView>>,
    list: Seq<usize>,
    x: usize,
    i: int,
)
    requires
        0 <= i <= list.len(),
        forall|j: int| i <= j < list.len() ==> size_of(chunks, list[j]) > size_of(chunks, x),
        i > 0 ==> size_of(chunks, list[i - 1]) <= size_of(chunks, x),
    ensures
        insert_by_size(chunks, list, x) == list.insert(i, x),
    decreases list.len(),
{
    if list.len() == 0 {
        assert(list.insert(i, x) =~= seq![x]);
    } else if i == list.len() {
        assert(list.insert(i, x) =~= list.push(x));
    } else {
        lemma_insert_by_size_at(chunks, list.drop_last(), x, i);
        assert(list.insert(i, x) =~= list.drop_last().insert(i, x).push(list.last()));
    }
}

/// Absorbing modules brings no slot to life, removes no chunk, and lets
/// chunks only grow.
pub proof fn lemma_absorb_within_keeps(
    sizes: Seq<usize>,
    chunks: Seq<Option<ChunkView>>,
    sources: Seq<usize>,
    group: Seq<usize>,
    module_ids: Seq<usize>,
)
    ensures
        absorb_within(sizes, chunks, sources, group, module_ids).len() == chunks.len(),
        forall|i: int|
            0 <= i < chunks.len() ==> ((#[trigger] absorb_within(
                sizes,
                chunks,
                sources,
                group,
                module_ids,
            )[i]) is Some <==> chunks[i] is Some),
    decreases sources.len(),
{
    if sources.len() > 0 {
        lemma_absorb_within_keeps(sizes, chunks, sources.drop_last(), group, module_ids);
    }
}

/// Absorbing modules lets chunks only grow and leaves their source chunks
/// as they are.
pub proof fn lemma_absorb_within_grows(
    sizes: Seq<usize>,
    chunks: Seq<Option<ChunkView>>,
    sources: Seq<usize>,
    group: Seq<usize>,
    module_ids: Seq<usize>,
)
    ensures
        slots_grown(chunks, absorb_within(sizes, chunks, sources, group, module_ids)),
        forall|i: int|
            0 <= i < chunks.len() && (#[trigger] chunks[i]) is Some ==> absorb_within(
                sizes,
                chunks,
                sources,
                group,
                module_ids,
            )[i].unwrap().source_chunks == chunks[i].unwrap().source_chunks,
    decreases sources.len(),
{
    if sources.len() == 0 {
        lemma_grown_same(chunks);
    } else {
        let before = absorb_within(sizes, chunks, sources.drop_last(), group, module_ids);
        let after = absorb_within(sizes, chunks, sources, group, module_ids);
        lemma_absorb_within_grows(sizes, chunks, sources.drop_last(), group, module_ids);
        lemma_absorb_within_keeps(sizes, chunks, sources.drop_last(), group, module_ids);
        assert forall|i: int| 0 <= i < after.len() && (#[trigger] after[i]) is Some implies {
            &&& before[i] is Some
            &&& before[i].unwrap().module_ids.is_prefix_of(after[i].unwrap().module_ids)
            &&& after[i].unwrap().source_chunks.len() <= before[i].unwrap().source_chunks.len()
            &&& before[i].unwrap().size <= after[i].unwrap().size
        } by {
            let a = before[i].unwrap().module_ids;
            assert(a =~= (a + module_ids).subrange(0, a.len() as int));
            assert(a =~= a.subrange(0, a.len() as int));
        }
        lemma_grown_twice(chunks, before, after);
    }
}

/// The source chunks that are kept are no more than there were.
pub proof fn lemma_kept_sources_len(sources: Seq<usize>, group: Seq<usize>)
    ensures
        kept_sources(sources, group).len() <= sources.len(),
    decreases sources.len(),
{
    if sources.len() > 0 {
        lemma_kept_sources_len(sources.drop_last(), group);
    }
}

/// A graph only grows when a chunk group loses an edge.
pub proof fn lemma_evict_grows(sizes: Seq<usize>, st: GraphState, g: usize, group: Seq<usize>, v: usize)
    ensures
        slots_grown(st.chunks, evict(sizes, st, g, group, v).chunks),
{
    if !slot_live(st.chunks, v) {
        lemma_grown_same(st.chunks);
    } else {
        let chunk = st.chunks[v as int].unwrap();
        let moved = absorb_within(sizes, st.chunks, chunk.source_chunks, group, chunk.module_ids);
        lemma_absorb_within_grows(sizes, st.chunks, chunk.source_chunks, group, chunk.module_ids);
        lemma_absorb_within_keeps(sizes, st.chunks, chunk.source_chunks, group, chunk.module_ids);
        lemma_kept_sources_len(chunk.source_chunks, group);
        let handed = GraphState {
            chunks: moved.update(
                v as int,
                Some(
                    with_sources(moved[v as int].unwrap(), kept_sources(chunk.source_chunks, group)),
                ),
            ),
            links: st.links.remove((g, v)),
        };
        assert(slots_grown(moved, handed.chunks)) by {
            assert forall|i: int|
                0 <= i < handed.chunks.len() && (#[trigger] handed.chunks[i]) is Some implies {
                &&& moved[i] is Some
                &&& moved[i].unwrap().module_ids.is_prefix_of(handed.chunks[i].unwrap().module_ids)
                &&& handed.chunks[i].unwrap().source_chunks.len()
                    <= moved[i].unwrap().source_chunks.len()
                &&& moved[i].unwrap().size <= handed.chunks[i].unwrap().size
            } by {
                let a = moved[i].unwrap().module_ids;
                assert(a =~= a.subrange(0, a.len() as int));
            }
        }
        lemma_grown_twice(st.chunks, moved, handed.chunks);
        lemma_dissolved_grows(sizes, handed, v);
        lemma_grown_twice(st.chunks, handed.chunks, evict(sizes, st, g, group, v).chunks);
    }
}

/// Whether `x` is in the list.
pub fn contains_id(list: &Vec<usize>, x: usize) -> (found: bool)
    ensures
        found == list@.contains(x),
{
    let mut i: usize = 0;
    while i < list.len()
        invariant
            i <= list.len(),
            forall|k: int| 0 <= k < i ==> list[k] != x,
        decreases list.len() - i,
    {
        if list[i] == x {
            return true;
        }
        i = i + 1;
    }
    false
}

/// A copy of the list.
pub fn copy_ids(list: &Vec<usize>) -> (copy: Vec<usize>)
    ensures
        copy@ == list@,
{
    let mut copy: Vec<usize> = Vec::new();
    let mut i: usize = 0;
    while i < list.len()
        invariant
            i <= list.len(),
            copy@ == list@.take(i as int),
        decreases list.len() - i,
    {
        copy.push(list[i]);
        assert(copy@ =~= list@.take(i + 1));
        i = i + 1;
    }
    assert(list@.take(list.len() as int) =~= list@);
    copy
}

/// The size of a chunk of the graph.
pub fn chunk_size(chunks: &ChunkGraph, id: usize) -> (size: u128)
    ensures
        size == size_of(chunks.chunks(), id),
{
    match chunks.chunk(id) {
        Some(chunk) => chunk.size,
        None => 0,
    }
}

/// The chunks to which `g` has an edge, the smallest first, of two chunks of
/// one size the one with the smaller id first.
pub fn order_successors(chunks: &ChunkGraph, g: usize) -> (group: Vec<usize>)
    requires
        chunks.wf(),
        chunks.chunks().len() <= usize::MAX,
    ensures
        group@ == ordered_successors(
            GraphState { chunks: chunks.chunks(), links: chunks.links() },
            g,
        ),
        group@.no_duplicates(),
        group@.to_set() == loaded_by(chunks.links(), g),
{
    let successors = chunks.successor_list(g);
    let ghost wanted = loaded_by(chunks.links(), g);
    assert(wanted =~= chunks.successors(g));
    let mut by_id: Vec<usize> = Vec::new();
    let mut i: usize = 0;
    while i < successors.len()
        invariant
            i <= successors.len(),
            ascending(by_id@),
            forall|y: usize|
                #![trigger by_id@.contains(y)]
                by_id@.contains(y) <==> successors@.take(i as int).contains(y),
        decreases successors.len() - i,
    {
        let ghost before = by_id@;
        insert_ascending(&mut by_id, successors[i]);
        proof {
            let done = successors@.take(i as int);
            let next = successors@.take(i + 1);
            assert(next =~= done.push(successors[i as int]));
            assert forall|y: usize| #![trigger by_id@.contains(y)]
                by_id@.contains(y) <==> next.contains(y) by {
                if next.contains(y) {
                    let k = choose|k: int| 0 <= k < next.len() && next[k] == y;
                    if k < i {
                        assert(done[k] == y);
                    }
                }
                if done.contains(y) {
                    let k = choose|k: int| 0 <= k < done.len() && done[k] == y;
                    assert(next[k] == y);
                }
                assert(next[i as int] == successors[i as int]);
            }
        }
        i = i + 1;
    }
    proof {
        assert(successors@.take(successors.len() as int) =~= successors@);
        chunks.lemma_links_live();
        assert forall|x: usize|
            #![trigger by_id@.contains(x)]
            #![trigger wanted.contains(x)]
            by_id@.contains(x) <==> wanted.contains(x) && x < chunks.chunks().len() by {
            assert(successors@.to_set().contains(x) == successors@.contains(x));
            if wanted.contains(x) {
                assert(chunks.links().contains((g, x)));
            }
        }
        lemma_ascending_is_members(by_id@, wanted, chunks.chunks().len());
    }
    let mut group: Vec<usize> = Vec::new();
    let mut k: usize = 0;
    assert(by_id@.take(0) =~= Seq::<usize>::empty());
    while k < by_id.len()
        invariant
            k <= by_id.len(),
            ascending(by_id@),
            group@ == by_size(chunks.chunks(), by_id@.take(k as int)),
            group@.no_duplicates(),
            forall|y: usize|
                #![trigger group@.contains(y)]
                group@.contains(y) <==> by_id@.take(k as int).contains(y),
        decreases by_id.len() - k,
    {
        let x: usize = by_id[k];
        let size: u128 = chunk_size(chunks, x);
        let mut at: usize = group.len();
        while at > 0 && chunk_size(chunks, group[at - 1]) > size
            invariant
                at <= group.len(),
                size == size_of(chunks.chunks(), x),
                forall|j: int|
                    at <= j < group.len() ==> size_of(chunks.chunks(), group[j]) > size_of(
                        chunks.chunks(),
                        x,
                    ),
            decreases at,
        {
            at = at - 1;
        }
        let ghost before = group@;
        proof {
            lemma_insert_by_size_at(chunks.chunks(), before, x, at as int);
            let done = by_id@.take(k as int);
            if before.contains(x) {
                assert(done.contains(x));
                let j = choose|j: int| 0 <= j < done.len() && done[j] == x;
                assert(by_id[j] < by_id[k as int]);
            }
        }
        group.insert(at, x);
        proof {
            let done = by_id@.take(k as int);
            let next = by_id@.take(k + 1);
            assert(next.drop_last() =~= done);
            assert(next.last() == x);
            let after = group@;
            assert forall|y: usize| #![trigger after.contains(y)]
                after.contains(y) <==> next.contains(y) by {
                if after.contains(y) {
                    let j = choose|j: int| 0 <= j < after.len() && after[j] == y;
                    if j < at {
                        assert(before[j] == y);
                        assert(before.contains(y));
                    } else if j > at {
                        assert(before[j - 1] == y);
                        assert(before.contains(y));
                    }
                    if before.contains(y) {
                        let d = choose|d: int| 0 <= d < done.len() && done[d] == y;
                        assert(next[d] == y);
                    } else {
                        assert(next[k as int] == y);
                    }
                }
                if next.contains(y) {
                    let d = choose|d: int| 0 <= d < next.len() && next[d] == y;
                    if d < k {
                        assert(done[d] == y);
                        assert(done.contains(y));
                        assert(before.contains(y));
                        let j = choose|j: int| 0 <= j < before.len() && before[j] == y;
                        if j < at {
                            assert(after[j] == y);
                        } else {
                            assert(after[j + 1] == y);
                        }
                    } else {
                        assert(after[at as int] == y);
                    }
                }
            }
            assert forall|a: int, b: int| 0 <= a < after.len() && 0 <= b < after.len() && a
                != b implies after[a] != after[b] by {
                let pa = if a < at { a } else { a - 1 };
                let pb = if b < at { b } else { b - 1 };
                if a != at && b != at {
                    assert(after[a] == before[pa] && after[b] == before[pb]);
                } else if a == at {
                    assert(after[b] == before[pb]);
                    assert(before.contains(before[pb]));
                } else {
                    assert(after[a] == before[pa]);
                    assert(before.contains(before[pa]));
                }
            }
        }
        k = k + 1;
    }
    proof {
        assert(by_id@.take(by_id.len() as int) =~= by_id@);
        assert(group@.to_set() =~= wanted) by {
            assert forall|y: usize| group@.to_set().contains(y) == wanted.contains(y) by {
                assert(group@.contains(y) == by_id@.contains(y));
            }
        }
    }
    group
}

/// Takes the edge from `g` to `v` away.
///
/// The modules of `v` move into those source chunks of `v` that are in
/// `group`, and `v` keeps the other source chunks. If one edge to `v` is left
/// then, `v` is dissolved into the source chunks that it kept; if none is
/// left, `v` is removed.
pub fn evict_chunk(
    modules: &ModuleGraph,
    chunks: &mut ChunkGraph,
    g: usize,
    group: &Vec<usize>,
    v: usize,
)
    requires
        old(chunks).wf(),
        old(chunks).sizes_agree(modules.sizes()),
    ensures
        final(chunks).wf(),
        final(chunks).sizes_agree(modules.sizes()),
        slots_grown(old(chunks).chunks(), final(chunks).chunks()),
        final(chunks).links().subset_of(old(chunks).links()),
        !final(chunks).links().contains((g, v)),
        (GraphState { chunks: final(chunks).chunks(), links: final(chunks).links() }) == evict(
            modules.sizes(),
            GraphState { chunks: old(chunks).chunks(), links: old(chunks).links() },
            g,
            group@,
            v,
        ),
{
    let ghost sizes = modules.sizes();
    let ghost start = GraphState { chunks: old(chunks).chunks(), links: old(chunks).links() };
    let (module_ids, sources) = match chunks.chunk(v) {
        Some(chunk) => (copy_ids(&chunk.module_ids), copy_ids(&chunk.source_chunks)),
        None => {
            proof {
                chunks.lemma_links_live();
                lemma_grown_same(chunks.chunks());
            }
            return ;
        },
    };
    proof {
        lemma_evict_grows(sizes, start, g, group@, v);
    }
    let ghost chunk = start.chunks[v as int].unwrap();
    let mut kept: Vec<usize> = Vec::new();
    let mut k: usize = 0;
    assert(sources@.take(0) =~= Seq::<usize>::empty());
    while k < sources.len()
        invariant
            k <= sources.len(),
            sizes == modules.sizes(),
            chunks.wf(),
            chunks.sizes_agree(sizes),
            chunks.links() == start.links,
            slot_live(start.chunks, v),
            forall|j: int| 0 <= j < module_ids.len() ==> module_ids[j] < sizes.len(),
            chunks.chunks() == absorb_within(
                sizes,
                start.chunks,
                sources@.take(k as int),
                group@,
                module_ids@,
            ),
            kept@ == kept_sources(sources@.take(k as int), group@),
        decreases sources.len() - k,
    {
        let source: usize = sources[k];
        if contains_id(group, source) {
            if chunks.contains_chunk(source) {
                chunks.push_modules(modules, source, &module_ids);
            }
        } else {
            kept.push(source);
        }
        proof {
            let next = sources@.take(k + 1);
            assert(next.drop_last() =~= sources@.take(k as int));
            assert(next.last() == source);
        }
        k = k + 1;
    }
    proof {
        assert(sources@.take(sources.len() as int) =~= sources@);
        lemma_absorb_within_keeps(sizes, start.chunks, sources@, group@, module_ids@);
    }
    let ghost moved = chunks.chunks();
    let chunk_in_place = chunks.chunk_mut(v);
    chunk_in_place.source_chunks = kept;
    assert(chunks.chunks() == moved.update(
        v as int,
        Some(with_sources(moved[v as int].unwrap(), kept_sources(chunk.source_chunks, group@))),
    ));
    chunks.disconnect(g, v);
    let ghost handed = GraphState { chunks: chunks.chunks(), links: chunks.links() };
    let loaders = chunks.predecessor_list(v);
    proof {
        assert(loaders@.to_set() =~= loaders_of(handed.links, v));
        loaders@.unique_seq_to_set();
    }
    if loaders.len() == 1 {
        remove_bundle(modules, chunks, v);
    } else if loaders.len() == 0 {
        chunks.remove_chunk(v);
    }
}

/// Brings the chunk group of `g` within the limit: if `g` has edges to more
/// chunks than `limit`, it loses the edges to the smallest of them.
pub fn relieve_group(modules: &ModuleGraph, chunks: &mut ChunkGraph, g: usize, limit: usize)
    requires
        old(chunks).wf(),
        old(chunks).sizes_agree(modules.sizes()),
        old(chunks).chunks().len() <= usize::MAX,
    ensures
        final(chunks).wf(),
        final(chunks).sizes_agree(modules.sizes()),
        slots_grown(old(chunks).chunks(), final(chunks).chunks()),
        final(chunks).links().subset_of(old(chunks).links()),
        loads_at_most(final(chunks).links(), g, limit),
        (GraphState { chunks: final(chunks).chunks(), links: final(chunks).links() }) == relieve(
            modules.sizes(),
            GraphState { chunks: old(chunks).chunks(), links: old(chunks).links() },
            g,
            limit,
        ),
{
    let ghost sizes = modules.sizes();
    let ghost start = GraphState { chunks: old(chunks).chunks(), links: old(chunks).links() };
    let group = order_successors(chunks, g);
    proof {
        seq_to_set_is_finite(group@);
        group@.unique_seq_to_set();
    }
    proof {
        lemma_grown_same(start.chunks);
    }
    if group.len() <= limit {
        return ;
    }
    let cut: usize = group.len() - limit;
    let ghost victims = group@.take(cut as int);
    let mut k: usize = 0;
    assert(victims.take(0) =~= Seq::<usize>::empty());
    while k < cut
        invariant
            k <= cut,
            cut == group.len() - limit,
            victims == group@.take(cut as int),
            sizes == modules.sizes(),
            chunks.wf(),
            chunks.sizes_agree(sizes),
            slots_grown(start.chunks, chunks.chunks()),
            chunks.links().subset_of(start.links),
            forall|j: int| 0 <= j < k ==> !chunks.links().contains((g, #[trigger] group[j])),
            (GraphState { chunks: chunks.chunks(), links: chunks.links() }) == evict_all(
                sizes,
                start,
                g,
                group@,
                victims.take(k as int),
            ),
        decreases cut - k,
    {
        let ghost before = chunks.links();
        let ghost slots = chunks.chunks();
        evict_chunk(modules, chunks, g, &group, group[k]);
        proof {
            lemma_grown_twice(start.chunks, slots, chunks.chunks());
            assert(victims.take(k + 1).drop_last() =~= victims.take(k as int));
            assert(victims.take(k + 1).last() == group[k as int]);
            assert forall|j: int| 0 <= j < k + 1 implies !chunks.links().contains(
                (g, #[trigger] group[j]),
            ) by {
                if j < k {
                    assert(!before.contains((g, group[j])));
                }
            }
        }
        k = k + 1;
    }
    proof {
        assert(victims.take(cut as int) =~= victims);
        let rest = group@.skip(cut as int);
        assert forall|to: usize| loaded_by(chunks.links(), g).contains(to) implies rest.to_set().contains(
            to,
        ) by {
            assert(start.links.contains((g, to)));
            assert(group@.to_set().contains(to));
            let j = choose|j: int| 0 <= j < group.len() && group[j] == to;
            if j < cut {
                assert(!chunks.links().contains((g, group[j])));
            }
            assert(rest[j - cut] == to);
        }
        seq_to_set_is_finite(rest);
        rest.lemma_cardinality_of_set();
        lemma_len_subset(loaded_by(chunks.links(), g), rest.to_set());
    }
}

/// Brings every chunk group within the limit of chunks that load in
/// parallel.
///
/// The chunks are looked at in ascending order of the ids that are in use when
/// the pass starts. A chunk that has edges to more chunks than `limit` loses
/// the edges to the smallest of them. Afterwards no chunk has edges to more
/// than `limit` chunks.
pub fn enforce_parallel_limit(modules: &ModuleGraph, chunks: &mut ChunkGraph, limit: usize)
    requires
        old(chunks).wf(),
        old(chunks).sizes_agree(modules.sizes()),
    ensures
        final(chunks).wf(),
        final(chunks).sizes_agree(modules.sizes()),
        slots_grown(old(chunks).chunks(), final(chunks).chunks()),
        final(chunks).links().subset_of(old(chunks).links()),
        forall|g: usize| loads_at_most(final(chunks).links(), g, limit),
        (GraphState { chunks: final(chunks).chunks(), links: final(chunks).links() })
            == enforce_limit(
            modules.sizes(),
            GraphState { chunks: old(chunks).chunks(), links: old(chunks).links() },
            live_ids(old(chunks).chunks()),
            limit,
        ),
{
    let ghost sizes = modules.sizes();
    let ghost start = GraphState { chunks: old(chunks).chunks(), links: old(chunks).links() };
    let ids = chunks.chunk_ids();
    proof {
        let live = Set::new(|id: usize| slot_live(start.chunks, id));
        assert forall|x: usize|
            #![trigger ids@.contains(x)]
            #![trigger live.contains(x)]
            ids@.contains(x) <==> live.contains(x) && x < start.chunks.len() by {
            assert(chunks.contains(x) == slot_live(start.chunks, x));
        }
        lemma_ascending_is_members(ids@, live, start.chunks.len());
        chunks.lemma_links_live();
        lemma_grown_same(start.chunks);
    }
    let mut i: usize = 0;
    assert(ids@.take(0) =~= Seq::<usize>::empty());
    while i < ids.len()
        invariant
            i <= ids.len(),
            sizes == modules.sizes(),
            ids@ == live_ids(start.chunks),
            start.chunks.len() <= usize::MAX,
            chunks.wf(),
            chunks.sizes_agree(sizes),
            slots_grown(start.chunks, chunks.chunks()),
            chunks.links().subset_of(start.links),
            forall|j: int| 0 <= j < i ==> loads_at_most(chunks.links(), #[trigger] ids[j], limit),
            (GraphState { chunks: chunks.chunks(), links: chunks.links() }) == enforce_limit(
                sizes,
                start,
                ids@.take(i as int),
                limit,
            ),
        decreases ids.len() - i,
    {
        let ghost before = chunks.links();
        let ghost slots = chunks.chunks();
        relieve_group(modules, chunks, ids[i], limit);
        proof {
            lemma_grown_twice(start.chunks, slots, chunks.chunks());
            assert(ids@.take(i + 1).drop_last() =~= ids@.take(i as int));
            assert(ids@.take(i + 1).last() == ids[i as int]);
            assert forall|j: int| 0 <= j < i + 1 implies loads_at_most(
                chunks.links(),
                #[trigger] ids[j],
                limit,
            ) by {
                if j < i {
                    lemma_fewer_links(before, chunks.links(), ids[j], limit);
                }
            }
        }
        i = i + 1;
    }
    proof {
        assert(ids@.take(ids.len() as int) =~= ids@);
        assert forall|g: usize| loads_at_most(chunks.links(), g, limit) by {
            if slot_live(start.chunks, g) {
                assert(old(chunks).contains(g));
                assert(ids@.contains(g));
                let j = choose|j: int| 0 <= j < ids.len() && ids[j] == g;
                assert(loads_at_most(chunks.links(), ids[j], limit));
            } else {
                assert forall|to: usize| !loaded_by(chunks.links(), g).contains(to) by {
                    if chunks.links().contains((g, to)) {
                        assert(start.links.contains((g, to)));
                        assert(old(chunks).contains(g));
                    }
                }
                assert(loaded_by(chunks.links(), g) =~= Set::<usize>::empty());
            }
        }
    }
}

} // verus!
