//! Module placement: every module that a root reaches goes into the chunk of
//! its key, and the chunk groups of the key's roots get an edge to that chunk.

use crate::chunk::{sum_sizes, Chunk, ChunkView};
use crate::chunk_graph::{
    holds, leads, lemma_extended_by_module, lemma_extended_by_push, lemma_extended_keeps,
    lemma_extended_same, lemma_extended_twice, placed_in, slot_live, slots_extended, ChunkGraph,
};
use crate::module_graph::ModuleGraph;
use crate::placement_key::{
    lemma_key_excludes_dominated, lemma_members_below, placement_key, placement_key_of, reaching,
    undominated,
};
use crate::pruning::{anchors, sources_anchored};
use crate::reachability::{pairs_from_roots, ReachableModules};
use crate::roots::{ChunkRoots, ReachableChunks};
use crate::seeding::{all_entries, roots_below, roots_lead};
use crate::shared_chunks::SharedChunks;
use vstd::prelude::*;

verus! {

/// What the placement keeps while it runs.
pub struct PlaceState {
    /// The chunk slots by chunk id.
    pub chunks: Seq<Option<ChunkView>>,
    /// The edges of the chunk graph.
    pub links: Set<(usize, usize)>,
    /// The shared chunk of each key of more than one root.
    pub shared: Map<Seq<usize>, usize>,
}

/// The chunk ids of the roots of a key, in the order of the key.
pub open spec fn source_ids(roots: Map<usize, (usize, usize)>, key: Seq<usize>) -> Seq<usize> {
    Seq::new(key.len(), |k: int| roots[key[k]].0)
}

/// The chunk group from which the root `a` gets an edge to `target`, if it
/// gets one: with `except_root` a root `m`, every root but `m` does; without,
/// every root whose own chunk is not `target`.
pub open spec fn link_source(
    roots: Map<usize, (usize, usize)>,
    a: usize,
    target: usize,
    except_root: Option<usize>,
) -> Option<usize> {
    let skip = match except_root {
        Some(m) => a == m,
        None => roots[a].0 == target,
    };
    if skip {
        None
    } else {
        Some(roots[a].1)
    }
}

/// The edges to `target` from the chunk groups of the roots of a key.
pub open spec fn group_links(
    roots: Map<usize, (usize, usize)>,
    key: Seq<usize>,
    target: usize,
    except_root: Option<usize>,
) -> Set<(usize, usize)> {
    Set::new(
        |l: (usize, usize)|
            l.1 == target && exists|k: int|
                0 <= k < key.len() && #[trigger] link_source(roots, key[k], target, except_root)
                    == Some(l.0),
    )
}

/// The state after the module `m` with the given key is placed.
///
/// A root stays in its own chunk, to which the groups of the other roots of
/// its key get an edge. Another module with a key goes into the chunk of the
/// key: the chunk of the root if the key is one root, else the shared chunk of
/// the key, which is made when its first module is placed. A module without a
/// key is not placed.
pub open spec fn place_step(
    sizes: Seq<usize>,
    roots: Map<usize, (usize, usize)>,
    key: Seq<usize>,
    st: PlaceState,
    m: usize,
) -> PlaceState {
    if roots.dom().contains(m) {
        PlaceState { links: st.links.union(group_links(roots, key, roots[m].0, Some(m))), ..st }
    } else if key.len() == 0 {
        st
    } else {
        let made = key.len() > 1 && !st.shared.dom().contains(key);
        let target: usize = if key.len() == 1 {
            roots[key[0]].0
        } else if made {
            st.chunks.len() as usize
        } else {
            st.shared[key]
        };
        let chunks = if made {
            st.chunks.push(Some(ChunkView::shared(source_ids(roots, key))))
        } else {
            st.chunks
        };
        PlaceState {
            chunks: chunks.update(
                target as int,
                Some(chunks[target as int].unwrap().with_module(m, sizes[m as int] as nat)),
            ),
            links: st.links.union(group_links(roots, key, target, None)),
            shared: if made {
                st.shared.insert(key, target)
            } else {
                st.shared
            },
        }
    }
}

/// The state after the modules below `upto` are placed, in ascending order.
pub open spec fn place_fold(
    sizes: Seq<usize>,
    roots: Map<usize, (usize, usize)>,
    reachable_modules: Set<(usize, usize)>,
    reachable_chunks: Set<(usize, usize)>,
    st: PlaceState,
    upto: nat,
) -> PlaceState
    decreases upto,
{
    if upto == 0 {
        st
    } else {
        let m = (upto - 1) as usize;
        place_step(
            sizes,
            roots,
            placement_key(reachable_modules, reachable_chunks, sizes.len(), m),
            place_fold(sizes, roots, reachable_modules, reachable_chunks, st, (upto - 1) as nat),
            m,
        )
    }
}

/// Whether the chunk of every key is below `count`.
pub open spec fn shared_below(shared: Map<Seq<usize>, usize>, count: nat) -> bool {
    forall|key: Seq<usize>| #[trigger] shared.dom().contains(key) ==> shared[key] < count
}

/// Whether a chunk is the shared chunk of a key: its source chunks are the
/// chunks of the roots of the key, and the key of each of its modules is the
/// key.
pub open spec fn chunk_of_key(
    chunk: ChunkView,
    roots: Map<usize, (usize, usize)>,
    reachable_modules: Set<(usize, usize)>,
    reachable_chunks: Set<(usize, usize)>,
    count: nat,
    key: Seq<usize>,
) -> bool {
    &&& key.len() > 1
    &&& forall|k: int| 0 <= k < key.len() ==> roots.dom().contains(#[trigger] key[k])
    &&& chunk.source_chunks == source_ids(roots, key)
    &&& forall|k: int|
        0 <= k < chunk.module_ids.len() ==> placement_key(
            reachable_modules,
            reachable_chunks,
            count,
            #[trigger] chunk.module_ids[k],
        ) == key
}

/// Whether the shared chunks are the chunks of the keys in the table: each
/// key has a chunk of its own, and every chunk with source chunks is the chunk
/// of a key.
pub open spec fn shared_match(
    shared: Map<Seq<usize>, usize>,
    chunks: Seq<Option<ChunkView>>,
    roots: Map<usize, (usize, usize)>,
    reachable_modules: Set<(usize, usize)>,
    reachable_chunks: Set<(usize, usize)>,
    count: nat,
) -> bool {
    &&& forall|key: Seq<usize>| #[trigger]
        shared.dom().contains(key) ==> slot_live(chunks, shared[key]) && chunk_of_key(
            chunks[shared[key] as int].unwrap(),
            roots,
            reachable_modules,
            reachable_chunks,
            count,
            key,
        )
    &&& forall|k1: Seq<usize>, k2: Seq<usize>|
        #![trigger shared[k1], shared[k2]]
        shared.dom().contains(k1) && shared.dom().contains(k2) && shared[k1] == shared[k2] ==> k1
            == k2
    &&& forall|id: usize|
        slot_live(chunks, id) && !(#[trigger] chunks[id as int]).unwrap().is_entry() ==> exists|
            key: Seq<usize>,
        |
            #[trigger] shared.dom().contains(key) && shared[key] == id
}

/// The modules of a shared chunk are reached by exactly the roots of its
/// key, so the key holds no root together with another root that was split off
/// below it.
pub proof fn lemma_shared_excludes_dominated(
    shared: Map<Seq<usize>, usize>,
    chunks: Seq<Option<ChunkView>>,
    roots: Map<usize, (usize, usize)>,
    reachable_modules: Set<(usize, usize)>,
    reachable_chunks: Set<(usize, usize)>,
    count: nat,
    key: Seq<usize>,
    ancestor: usize,
    descendant: usize,
)
    requires
        count <= usize::MAX + 1,
        shared_match(shared, chunks, roots, reachable_modules, reachable_chunks, count),
        shared.dom().contains(key),
        chunks[shared[key] as int].unwrap().module_ids.len() > 0,
        reachable_chunks.contains((ancestor, descendant)),
        ancestor != descendant,
    ensures
        !(key.contains(ancestor) && key.contains(descendant)),
{
    let chunk = chunks[shared[key] as int].unwrap();
    assert(placement_key(reachable_modules, reachable_chunks, count, chunk.module_ids[0]) == key);
    lemma_key_excludes_dominated(
        reachable_modules,
        reachable_chunks,
        count,
        chunk.module_ids[0],
        ancestor,
        descendant,
    );
}

/// The source chunks of a shared chunk are the chunks of the roots of its
/// key, and a root is in the key exactly if it reaches each module of the
/// chunk and no other root that reaches the module dominates it.
pub proof fn lemma_sources_are_reaching_roots(
    shared: Map<Seq<usize>, usize>,
    chunks: Seq<Option<ChunkView>>,
    roots: Map<usize, (usize, usize)>,
    reachable_modules: Set<(usize, usize)>,
    reachable_chunks: Set<(usize, usize)>,
    count: nat,
    id: usize,
    k: int,
    root: usize,
) -> (key: Seq<usize>)
    requires
        count <= usize::MAX + 1,
        shared_match(shared, chunks, roots, reachable_modules, reachable_chunks, count),
        pairs_from_roots(reachable_modules, roots, count),
        forall|r: usize| roots.dom().contains(r) ==> r < count,
        slot_live(chunks, id),
        !chunks[id as int].unwrap().is_entry(),
        0 <= k < chunks[id as int].unwrap().module_ids.len(),
    ensures
        shared.dom().contains(key),
        shared[key] == id,
        chunks[id as int].unwrap().source_chunks == source_ids(roots, key),
        key.contains(root) <==> undominated(
            reaching(reachable_modules, chunks[id as int].unwrap().module_ids[k]),
            reachable_chunks,
        ).contains(root),
{
    assert(chunks[id as int] is Some);
    let key = choose|key: Seq<usize>| #[trigger] shared.dom().contains(key) && shared[key] == id;
    let module = chunks[id as int].unwrap().module_ids[k];
    let wanted = undominated(reaching(reachable_modules, module), reachable_chunks);
    assert(placement_key(reachable_modules, reachable_chunks, count, module) == key);
    lemma_members_below(wanted, count);
    if wanted.contains(root) {
        assert(reachable_modules.contains((root, module)));
    }
    key
}

/// Every shared chunk has an entry chunk among its source chunks: the chunk
/// of the first root of its key.
pub proof fn lemma_shared_anchored(
    shared: Map<Seq<usize>, usize>,
    chunks: Seq<Option<ChunkView>>,
    roots: Map<usize, (usize, usize)>,
    reachable_modules: Set<(usize, usize)>,
    reachable_chunks: Set<(usize, usize)>,
    count: nat,
)
    requires
        shared_match(shared, chunks, roots, reachable_modules, reachable_chunks, count),
        roots_lead(roots, chunks),
    ensures
        sources_anchored(chunks),
{
    assert forall|id: usize|
        slot_live(chunks, id) && !(#[trigger] chunks[id as int]).unwrap().is_entry() implies exists|
        k: int,
    |
        #[trigger] anchors(chunks, id, k) by {
        let key = choose|key: Seq<usize>| #[trigger] shared.dom().contains(key) && shared[key] == id;
        assert(roots.dom().contains(key[0]));
        assert(leads(chunks, roots[key[0]].0, key[0]));
        assert(anchors(chunks, id, 0));
    }
}

/// Whether every module of every chunk is a root or below `upto`, and no
/// module other than a root is held twice, in two chunks or in one.
pub open spec fn placed_once(
    chunks: Seq<Option<ChunkView>>,
    roots: Map<usize, (usize, usize)>,
    upto: nat,
) -> bool {
    &&& forall|id: usize, k: int|
        slot_live(chunks, id) && 0 <= k < chunks[id as int].unwrap().module_ids.len()
            ==> roots.dom().contains(#[trigger] chunks[id as int].unwrap().module_ids[k])
            || chunks[id as int].unwrap().module_ids[k] < upto
    &&& forall|id1: usize, k1: int, id2: usize, k2: int|
        slot_live(chunks, id1) && 0 <= k1 < chunks[id1 as int].unwrap().module_ids.len()
            && slot_live(chunks, id2) && 0 <= k2 < chunks[id2 as int].unwrap().module_ids.len()
            && #[trigger] chunks[id1 as int].unwrap().module_ids[k1]
            == #[trigger] chunks[id2 as int].unwrap().module_ids[k2] && !roots.dom().contains(
            chunks[id1 as int].unwrap().module_ids[k1],
        ) ==> id1 == id2 && k1 == k2
}

/// A table of entry chunks of one root each holds no other module twice.
pub proof fn lemma_entries_placed_once(
    chunks: Seq<Option<ChunkView>>,
    roots: Map<usize, (usize, usize)>,
)
    requires
        all_entries(chunks, roots),
    ensures
        placed_once(chunks, roots, 0),
{
    assert forall|id: usize, k: int|
        slot_live(chunks, id) && 0 <= k < chunks[id as int].unwrap().module_ids.len() implies roots.dom().contains(
        #[trigger] chunks[id as int].unwrap().module_ids[k],
    ) by {
        assert(chunks[id as int] is Some);
    }
}

/// Placing a module that is no root at the end of a chunk keeps every module
/// other than a root in one place.
pub proof fn lemma_placed_once_more(
    before: Seq<Option<ChunkView>>,
    after: Seq<Option<ChunkView>>,
    roots: Map<usize, (usize, usize)>,
    target: usize,
    module: usize,
)
    requires
        placed_once(before, roots, module as nat),
        !roots.dom().contains(module),
        slot_live(after, target),
        after.len() >= before.len(),
        forall|id: usize|
            id != target && #[trigger] slot_live(after, id) ==> slot_live(before, id)
                && after[id as int] == before[id as int],
        after[target as int].unwrap().module_ids.len() > 0,
        after[target as int].unwrap().module_ids.last() == module,
        slot_live(before, target) ==> before[target as int].unwrap().module_ids
            == after[target as int].unwrap().module_ids.drop_last(),
        !slot_live(before, target) ==> after[target as int].unwrap().module_ids.len() == 1,
    ensures
        placed_once(after, roots, (module + 1) as nat),
{
    let last = after[target as int].unwrap().module_ids.len() - 1;
    // Where a module of the new table was in the old table, if it was there.
    assert forall|id: usize, k: int|
        slot_live(after, id) && 0 <= k < after[id as int].unwrap().module_ids.len() && !(id
            == target && k == last) implies slot_live(before, id) && 0 <= k
        < before[id as int].unwrap().module_ids.len() && #[trigger] after[id as int].unwrap().module_ids[k]
        == before[id as int].unwrap().module_ids[k] by {
        if id == target {
            assert(slot_live(before, target));
            assert(after[target as int].unwrap().module_ids.drop_last()[k] == after[target as int].unwrap().module_ids[k]);
        } else {
            assert(slot_live(after, id));
        }
    }
    assert forall|id: usize, k: int|
        slot_live(after, id) && 0 <= k < after[id as int].unwrap().module_ids.len() implies roots.dom().contains(
        #[trigger] after[id as int].unwrap().module_ids[k],
    ) || after[id as int].unwrap().module_ids[k] < module + 1 by {
        if !(id == target && k == last) {
            let x = before[id as int].unwrap().module_ids[k];
            assert(roots.dom().contains(x) || x < module);
        }
    }
    assert forall|id1: usize, k1: int, id2: usize, k2: int|
        slot_live(after, id1) && 0 <= k1 < after[id1 as int].unwrap().module_ids.len()
            && slot_live(after, id2) && 0 <= k2 < after[id2 as int].unwrap().module_ids.len()
            && #[trigger] after[id1 as int].unwrap().module_ids[k1]
            == #[trigger] after[id2 as int].unwrap().module_ids[k2] && !roots.dom().contains(
            after[id1 as int].unwrap().module_ids[k1],
        ) implies id1 == id2 && k1 == k2 by {
        let new1 = id1 == target && k1 == last;
        let new2 = id2 == target && k2 == last;
        if !new1 && !new2 {
            assert(before[id1 as int].unwrap().module_ids[k1] == before[id2 as int].unwrap().module_ids[k2]);
        } else if !new1 {
            let x = before[id1 as int].unwrap().module_ids[k1];
            assert(roots.dom().contains(x) || x < module);
        } else if !new2 {
            let x = before[id2 as int].unwrap().module_ids[k2];
            assert(roots.dom().contains(x) || x < module);
        }
    }
}

/// Whether `module` has a place: it is a root, or some root reaches it.
pub open spec fn has_place(
    roots: Map<usize, (usize, usize)>,
    reachable_modules: Set<(usize, usize)>,
    reachable_chunks: Set<(usize, usize)>,
    count: nat,
    module: usize,
) -> bool {
    roots.dom().contains(module) || placement_key(
        reachable_modules,
        reachable_chunks,
        count,
        module,
    ).len() > 0
}

/// Adds the edges to `target` from the chunk groups of the roots of a key.
pub fn add_group_links(
    chunks: &mut ChunkGraph,
    roots: &ChunkRoots,
    key: &Vec<usize>,
    target: usize,
    except_root: Option<usize>,
)
    requires
        old(chunks).wf(),
        old(chunks).dense(),
        roots_below(roots@, old(chunks).chunks().len()),
        target < old(chunks).chunks().len(),
        forall|k: int| 0 <= k < key.len() ==> roots@.dom().contains(key[k]),
    ensures
        final(chunks).wf(),
        final(chunks).chunks() == old(chunks).chunks(),
        final(chunks).links() == old(chunks).links().union(
            group_links(roots@, key@, target, except_root),
        ),
{
    let mut k: usize = 0;
    assert(chunks.links() =~= old(chunks).links().union(
        group_links(roots@, key@.take(0), target, except_root),
    ));
    while k < key.len()
        invariant
            k <= key.len(),
            chunks.wf(),
            chunks.chunks() == old(chunks).chunks(),
            old(chunks).dense(),
            roots_below(roots@, old(chunks).chunks().len()),
            target < old(chunks).chunks().len(),
            forall|j: int| 0 <= j < key.len() ==> roots@.dom().contains(key[j]),
            chunks.links() == old(chunks).links().union(
                group_links(roots@, key@.take(k as int), target, except_root),
            ),
        decreases key.len() - k,
    {
        let a: usize = key[k];
        let ids = roots.get(a).unwrap();
        let skip = match except_root {
            Some(m) => a == m,
            None => ids.0 == target,
        };
        if !skip {
            assert(roots@.dom().contains(a));
            assert(old(chunks).chunks()[ids.1 as int] is Some);
            assert(old(chunks).chunks()[target as int] is Some);
            chunks.connect(ids.1, target);
        }
        proof {
            let done = key@.take(k as int);
            let next = key@.take(k + 1);
            let added = link_source(roots@, a, target, except_root);
            assert forall|l: (usize, usize)|
                group_links(roots@, next, target, except_root).contains(l) == (group_links(
                    roots@,
                    done,
                    target,
                    except_root,
                ).contains(l) || (l.1 == target && added == Some(l.0))) by {
                if group_links(roots@, next, target, except_root).contains(l) {
                    let j = choose|j: int|
                        0 <= j < next.len() && #[trigger] link_source(
                            roots@,
                            next[j],
                            target,
                            except_root,
                        ) == Some(l.0);
                    if j < k {
                        assert(link_source(roots@, done[j], target, except_root) == Some(l.0));
                    }
                }
                if group_links(roots@, done, target, except_root).contains(l) {
                    let j = choose|j: int|
                        0 <= j < done.len() && #[trigger] link_source(
                            roots@,
                            done[j],
                            target,
                            except_root,
                        ) == Some(l.0);
                    assert(link_source(roots@, next[j], target, except_root) == Some(l.0));
                }
                if l.1 == target && added == Some(l.0) {
                    assert(link_source(roots@, next[k as int], target, except_root) == Some(l.0));
                }
            }
            assert(chunks.links() =~= old(chunks).links().union(
                group_links(roots@, next, target, except_root),
            ));
        }
        k = k + 1;
    }
    assert(key@.take(key.len() as int) =~= key@);
}

/// The chunk ids of the roots of a key.
pub fn source_chunks_of(roots: &ChunkRoots, key: &Vec<usize>) -> (sources: Vec<usize>)
    requires
        forall|k: int| 0 <= k < key.len() ==> roots@.dom().contains(key[k]),
    ensures
        sources@ == source_ids(roots@, key@),
{
    let mut sources: Vec<usize> = Vec::new();
    let mut k: usize = 0;
    while k < key.len()
        invariant
            k <= key.len(),
            forall|j: int| 0 <= j < key.len() ==> roots@.dom().contains(key[j]),
            sources.len() == k,
            forall|j: int| 0 <= j < k ==> sources[j] == roots@[key[j]].0,
        decreases key.len() - k,
    {
        let ids = roots.get(key[k]).unwrap();
        sources.push(ids.0);
        k = k + 1;
    }
    assert(sources@ =~= source_ids(roots@, key@));
    sources
}

/// Places one module.
pub fn place_module(
    modules: &ModuleGraph,
    roots: &ChunkRoots,
    reachable_modules: &ReachableModules,
    reachable_chunks: &ReachableChunks,
    chunks: &mut ChunkGraph,
    shared: &mut SharedChunks,
    module: usize,
)
    requires
        module < modules.modules().len(),
        roots.capacity() == modules.modules().len(),
        pairs_from_roots(reachable_modules@, roots@, modules.modules().len()),
        old(chunks).wf(),
        old(chunks).dense(),
        old(chunks).sizes_agree(modules.sizes()),
        roots_below(roots@, old(chunks).chunks().len()),
        shared_below(old(shared)@, old(chunks).chunks().len()),
        roots_lead(roots@, old(chunks).chunks()),
        shared_match(
            old(shared)@,
            old(chunks).chunks(),
            roots@,
            reachable_modules@,
            reachable_chunks@,
            modules.modules().len(),
        ),
        placed_once(old(chunks).chunks(), roots@, module as nat),
    ensures
        placed_once(final(chunks).chunks(), roots@, (module + 1) as nat),
        final(chunks).wf(),
        final(chunks).dense(),
        final(chunks).sizes_agree(modules.sizes()),
        roots_below(roots@, final(chunks).chunks().len()),
        shared_below(final(shared)@, final(chunks).chunks().len()),
        roots_lead(roots@, final(chunks).chunks()),
        shared_match(
            final(shared)@,
            final(chunks).chunks(),
            roots@,
            reachable_modules@,
            reachable_chunks@,
            modules.modules().len(),
        ),
        slots_extended(old(chunks).chunks(), final(chunks).chunks()),
        has_place(roots@, reachable_modules@, reachable_chunks@, modules.modules().len(), module)
            ==> placed_in(final(chunks).chunks(), module),
        (PlaceState {
            chunks: final(chunks).chunks(),
            links: final(chunks).links(),
            shared: final(shared)@,
        }) == place_step(
            modules.sizes(),
            roots@,
            placement_key(
                reachable_modules@,
                reachable_chunks@,
                modules.modules().len(),
                module,
            ),
            PlaceState {
                chunks: old(chunks).chunks(),
                links: old(chunks).links(),
                shared: old(shared)@,
            },
            module,
        ),
{
    let count: usize = modules.module_count();
    proof {
        roots.lemma_roots_below_capacity();
        assert forall|p: (usize, usize)| #[trigger]
            reachable_modules@.contains(p) implies p.0 < count by {}
    }
    let key = placement_key_of(reachable_modules, reachable_chunks, count, module);
    proof {
        let wanted = undominated(reaching(reachable_modules@, module), reachable_chunks@);
        lemma_members_below(wanted, count as nat);
        assert forall|k: int| 0 <= k < key.len() implies roots@.dom().contains(key[k]) by {
            assert(key@.contains(key[k]));
            assert(wanted.contains(key[k]));
            assert(reachable_modules@.contains((key[k], module)));
        }
    }
    let ghost before = chunks.chunks();
    let ghost table = shared@;
    let ghost wanted_key = key@;
    let ghost rm = reachable_modules@;
    let ghost rc = reachable_chunks@;
    proof {
        lemma_extended_same(before);
    }
    if let Some(ids) = roots.get(module) {
        add_group_links(chunks, roots, &key, ids.0, Some(module));
        proof {
            assert(leads(before, ids.0, module));
            assert(before[ids.0 as int].unwrap().module_ids[0] == module);
            assert(holds(before, ids.0, module));
        }
    } else if key.len() > 0 {
        let mut made = false;
        let target: usize = if key.len() == 1 {
            roots.get(key[0]).unwrap().0
        } else {
            match shared.get(&key) {
                Some(id) => id,
                None => {
                    made = true;
                    let sources = source_chunks_of(roots, &key);
                    let chunk = Chunk { module_ids: Vec::new(), size: 0, source_chunks: sources };
                    assert(chunk@.module_ids =~= Seq::<usize>::empty());
                    assert(chunk@ == ChunkView::shared(source_ids(roots@, key@)));
                    assert(sum_sizes(modules.sizes(), chunk@.module_ids) == 0);
                    chunks.add_chunk(chunk)
                },
            }
        };
        let ghost mid = chunks.chunks();
        chunks.push_module(modules, target, module);
        add_group_links(chunks, roots, &key, target, None);
        if made {
            shared.insert(key, target);
        }
        proof {
            let after = chunks.chunks();
            let size = modules.sizes()[module as int] as nat;
            assert(after[target as int].unwrap().module_ids.drop_last()
                =~= mid[target as int].unwrap().module_ids);
            lemma_placed_once_more(before, after, roots@, target, module);
            if made {
                lemma_extended_by_push(
                    before,
                    Some(ChunkView::shared(source_ids(roots@, wanted_key))),
                );
            }
            lemma_extended_by_module(mid, target, module, size);
            lemma_extended_twice(before, mid, after);
            assert(after[target as int].unwrap().module_ids.last() == module);
            assert(holds(after, target, module));
            assert forall|m: usize| #[trigger] roots@.dom().contains(m) implies leads(
                after,
                roots@[m].0,
                m,
            ) && slot_live(after, roots@[m].1) by {
                lemma_extended_keeps(before, after, roots@[m].0, m);
                assert(before[roots@[m].1 as int] is Some);
            }
            if wanted_key.len() == 1 {
                assert(roots@.dom().contains(wanted_key[0]));
                assert(leads(before, target, wanted_key[0]));
            }
            let fresh = shared@;
            assert forall|key2: Seq<usize>| #[trigger] fresh.dom().contains(key2) implies slot_live(
                after,
                fresh[key2],
            ) && chunk_of_key(
                after[fresh[key2] as int].unwrap(),
                roots@,
                rm,
                rc,
                count as nat,
                key2,
            ) by {
                if key2 == wanted_key && wanted_key.len() > 1 {
                    assert(fresh[key2] == target);
                    let held = mid[target as int].unwrap();
                    if !made {
                        assert(table.dom().contains(wanted_key));
                        assert(chunk_of_key(held, roots@, rm, rc, count as nat, wanted_key));
                    }
                    let now = after[target as int].unwrap();
                    assert forall|k: int| 0 <= k < now.module_ids.len() implies placement_key(
                        rm,
                        rc,
                        count as nat,
                        #[trigger] now.module_ids[k],
                    ) == key2 by {
                        if k < held.module_ids.len() {
                            assert(now.module_ids[k] == held.module_ids[k]);
                        }
                    }
                } else {
                    assert(table.dom().contains(key2));
                    let id2 = table[key2];
                    assert(chunk_of_key(before[id2 as int].unwrap(), roots@, rm, rc, count as nat, key2));
                    assert(source_ids(roots@, key2).len() > 1);
                    assert(id2 != target);
                    assert(after[id2 as int] == before[id2 as int]);
                }
            }
            assert forall|k1: Seq<usize>, k2: Seq<usize>|
                #![trigger fresh[k1], fresh[k2]]
                fresh.dom().contains(k1) && fresh.dom().contains(k2) && fresh[k1]
                    == fresh[k2] implies k1 == k2 by {
                if made {
                    if k1 != wanted_key {
                        assert(table.dom().contains(k1));
                    }
                    if k2 != wanted_key {
                        assert(table.dom().contains(k2));
                    }
                }
            }
            assert forall|id: usize|
                slot_live(after, id) && !(#[trigger] after[id as int]).unwrap().is_entry() implies exists|
                key2: Seq<usize>,
            |
                #[trigger] fresh.dom().contains(key2) && fresh[key2] == id by {
                if id == target {
                    assert(wanted_key.len() > 1);
                    assert(fresh.dom().contains(wanted_key) && fresh[wanted_key] == id);
                } else {
                    assert(after[id as int] == before[id as int]);
                    assert(slot_live(before, id));
                    let key2 = choose|key2: Seq<usize>| #[trigger]
                        table.dom().contains(key2) && table[key2] == id;
                    assert(fresh.dom().contains(key2) && fresh[key2] == id);
                }
            }
        }
    }
}

/// Places every module that a root reaches, in ascending order of the
/// module handles, and returns the table of the shared chunks.
pub fn place_modules(
    modules: &ModuleGraph,
    roots: &ChunkRoots,
    reachable_modules: &ReachableModules,
    reachable_chunks: &ReachableChunks,
    chunks: &mut ChunkGraph,
) -> (shared: SharedChunks)
    requires
        roots.capacity() == modules.modules().len(),
        pairs_from_roots(reachable_modules@, roots@, modules.modules().len()),
        old(chunks).wf(),
        old(chunks).dense(),
        old(chunks).sizes_agree(modules.sizes()),
        roots_below(roots@, old(chunks).chunks().len()),
        roots_lead(roots@, old(chunks).chunks()),
        all_entries(old(chunks).chunks(), roots@),
    ensures
        final(chunks).wf(),
        final(chunks).dense(),
        final(chunks).sizes_agree(modules.sizes()),
        roots_below(roots@, final(chunks).chunks().len()),
        shared_below(shared@, final(chunks).chunks().len()),
        roots_lead(roots@, final(chunks).chunks()),
        shared_match(
            shared@,
            final(chunks).chunks(),
            roots@,
            reachable_modules@,
            reachable_chunks@,
            modules.modules().len(),
        ),
        slots_extended(old(chunks).chunks(), final(chunks).chunks()),
        placed_once(final(chunks).chunks(), roots@, modules.modules().len()),
        forall|m: usize|
            m < modules.modules().len() && #[trigger] has_place(
                roots@,
                reachable_modules@,
                reachable_chunks@,
                modules.modules().len(),
                m,
            ) ==> placed_in(final(chunks).chunks(), m),
        (PlaceState {
            chunks: final(chunks).chunks(),
            links: final(chunks).links(),
            shared: shared@,
        }) == place_fold(
            modules.sizes(),
            roots@,
            reachable_modules@,
            reachable_chunks@,
            PlaceState {
                chunks: old(chunks).chunks(),
                links: old(chunks).links(),
                shared: Map::empty(),
            },
            modules.modules().len(),
        ),
{
    let count: usize = modules.module_count();
    let mut shared = SharedChunks::new();
    let ghost start = PlaceState {
        chunks: old(chunks).chunks(),
        links: old(chunks).links(),
        shared: Map::empty(),
    };
    let mut module: usize = 0;
    proof {
        lemma_extended_same(chunks.chunks());
        lemma_entries_placed_once(chunks.chunks(), roots@);
    }
    while module < count
        invariant
            module <= count,
            placed_once(chunks.chunks(), roots@, module as nat),
            count == modules.modules().len(),
            count == modules.sizes().len(),
            roots_lead(roots@, chunks.chunks()),
            shared_match(
                shared@,
                chunks.chunks(),
                roots@,
                reachable_modules@,
                reachable_chunks@,
                count as nat,
            ),
            slots_extended(old(chunks).chunks(), chunks.chunks()),
            forall|m: usize|
                m < module && #[trigger] has_place(
                    roots@,
                    reachable_modules@,
                    reachable_chunks@,
                    count as nat,
                    m,
                ) ==> placed_in(chunks.chunks(), m),
            roots.capacity() == modules.modules().len(),
            pairs_from_roots(reachable_modules@, roots@, modules.modules().len()),
            chunks.wf(),
            chunks.dense(),
            chunks.sizes_agree(modules.sizes()),
            roots_below(roots@, chunks.chunks().len()),
            shared_below(shared@, chunks.chunks().len()),
            (PlaceState { chunks: chunks.chunks(), links: chunks.links(), shared: shared@ })
                == place_fold(
                modules.sizes(),
                roots@,
                reachable_modules@,
                reachable_chunks@,
                start,
                module as nat,
            ),
        decreases count - module,
    {
        let ghost slots = chunks.chunks();
        place_module(modules, roots, reachable_modules, reachable_chunks, chunks, &mut shared, module);
        proof {
            lemma_extended_twice(old(chunks).chunks(), slots, chunks.chunks());
            assert forall|m: usize|
                m < module + 1 && #[trigger] has_place(
                    roots@,
                    reachable_modules@,
                    reachable_chunks@,
                    count as nat,
                    m,
                ) implies placed_in(chunks.chunks(), m) by {
                if m < module {
                    assert(placed_in(slots, m));
                    let id = choose|id: usize| holds(slots, id, m);
                    lemma_extended_keeps(slots, chunks.chunks(), id, m);
                }
            }
        }
        module = module + 1;
    }
    shared
}

} // verus!
