//! The whole algorithm: seeding, async split discovery, reachability,
//! placement and the two pruning passes, one after the other.

use crate::async_split::{discover_async_splits, split_fold, split_start, SplitState};
use crate::chunk_graph::{leads, lemma_extended_twice, placed_in, slot_live, ChunkGraph};
use crate::coverage::{lemma_reachable_is_placed, reachable_from_entry};
use crate::module_graph::ModuleGraph;
use crate::parallel_limit::{enforce_limit, enforce_parallel_limit, loads_at_most};
use crate::placement::{
    lemma_shared_anchored, place_fold, place_modules, placed_once, shared_match, PlaceState,
};
use crate::pruning::{
    dissolve_small, is_small_shared, lemma_grown_keeps, live_ids, remove_small_shared_chunks,
    sources_anchored, GraphState,
};
use crate::reachability::{claimed_pairs, collect_reachable_modules, ReachableModules};
use crate::roots::{ChunkRoots, ReachableChunks};
use crate::seeding::{
    entries_lead, entry_chunks, entry_roots, lemma_entries_still_lead, roots_lead,
    seed_entry_chunks,
};
use crate::shared_chunks::SharedChunks;
use crate::traversal::dfs_events;
use vstd::prelude::*;

verus! {

/// The two tuning parameters.
#[derive(Debug, Clone, Copy)]
pub struct SplitConfig {
    /// A shared chunk that is smaller is dissolved into its source chunks.
    pub min_shared_chunk_size: usize,
    /// The largest number of chunks that one chunk group may load; `None` for
    /// no limit.
    pub parallel_request_limit: Option<usize>,
}

impl Default for SplitConfig {
    fn default() -> (config: SplitConfig)
        ensures
            config.min_shared_chunk_size == 10,
            config.parallel_request_limit is None,
    {
        SplitConfig { min_shared_chunk_size: 10, parallel_request_limit: None }
    }
}

/// The state of the async split discovery when it ends.
pub open spec fn split_end(
    sizes: Seq<usize>,
    imports: Seq<Seq<(usize, bool)>>,
    entries: Seq<usize>,
) -> SplitState {
    split_fold(
        sizes,
        imports,
        split_start(entry_chunks(sizes, entries), entry_roots(entries)),
        dfs_events(imports, entries),
    )
}

/// The chunk graph after placement, with the table of the shared chunks.
pub open spec fn placed(
    sizes: Seq<usize>,
    imports: Seq<Seq<(usize, bool)>>,
    entries: Seq<usize>,
) -> PlaceState {
    let split = split_end(sizes, imports, entries);
    place_fold(
        sizes,
        split.roots,
        claimed_pairs(imports, split.roots),
        split.reachable,
        PlaceState { chunks: split.chunks, links: Set::empty(), shared: Map::empty() },
        sizes.len(),
    )
}

/// The chunk graph after both pruning passes.
pub open spec fn pruned(sizes: Seq<usize>, st: GraphState, config: SplitConfig) -> GraphState {
    let kept = dissolve_small(sizes, st, live_ids(st.chunks), config.min_shared_chunk_size);
    match config.parallel_request_limit {
        Some(limit) => enforce_limit(sizes, kept, live_ids(kept.chunks), limit),
        None => kept,
    }
}

/// The chunk graph that the algorithm makes of a module graph.
pub open spec fn split_result(
    sizes: Seq<usize>,
    imports: Seq<Seq<(usize, bool)>>,
    entries: Seq<usize>,
    config: SplitConfig,
) -> GraphState {
    let done = placed(sizes, imports, entries);
    pruned(sizes, GraphState { chunks: done.chunks, links: done.links }, config)
}

/// Whether a chunk graph is what the algorithm makes of the module graph.
pub open spec fn is_split_of(
    chunks: &ChunkGraph,
    modules: &ModuleGraph,
    entries: Seq<usize>,
    config: SplitConfig,
) -> bool {
    (GraphState { chunks: chunks.chunks(), links: chunks.links() }) == split_result(
        modules.sizes(),
        modules.imports(),
        entries,
        config,
    )
}

/// Two runs on the same modules, entries and parameters give the same
/// chunks, with the same ids, the same modules in the same order, and the
/// same edges.
pub proof fn lemma_split_is_deterministic(
    first: &ChunkGraph,
    second: &ChunkGraph,
    modules: &ModuleGraph,
    entries: Seq<usize>,
    config: SplitConfig,
)
    requires
        is_split_of(first, modules, entries, config),
        is_split_of(second, modules, entries, config),
    ensures
        first.chunks() == second.chunks(),
        first.links() == second.links(),
{
}

/// What placement leaves behind: the chunk graph and the tables it was made
/// with.
pub struct Placement {
    pub chunks: ChunkGraph,
    pub roots: ChunkRoots,
    pub reachable_chunks: ReachableChunks,
    pub reachable_modules: ReachableModules,
    pub shared: SharedChunks,
}

/// Splits the modules into chunks without pruning: every module that an
/// entry reaches is in a chunk, no module other than a root is in two, and
/// every shared chunk holds the modules of one key.
pub fn place_all(modules: &ModuleGraph, entries: &Vec<usize>) -> (placement: Placement)
    requires
        forall|i: int| 0 <= i < entries.len() ==> entries[i] < modules.modules().len(),
    ensures
        placement.chunks.wf(),
        placement.chunks.dense(),
        placement.chunks.sizes_agree(modules.sizes()),
        placement.roots@ == split_end(modules.sizes(), modules.imports(), entries@).roots,
        placement.reachable_chunks@ == split_end(
            modules.sizes(),
            modules.imports(),
            entries@,
        ).reachable,
        placement.reachable_modules@ == claimed_pairs(modules.imports(), placement.roots@),
        (PlaceState {
            chunks: placement.chunks.chunks(),
            links: placement.chunks.links(),
            shared: placement.shared@,
        }) == placed(modules.sizes(), modules.imports(), entries@),
        entries_lead(entries@, placement.chunks.chunks()),
        roots_lead(placement.roots@, placement.chunks.chunks()),
        shared_match(
            placement.shared@,
            placement.chunks.chunks(),
            placement.roots@,
            placement.reachable_modules@,
            placement.reachable_chunks@,
            modules.modules().len(),
        ),
        sources_anchored(placement.chunks.chunks()),
        placed_once(placement.chunks.chunks(), placement.roots@, modules.modules().len()),
        forall|m: usize|
            reachable_from_entry(modules.imports(), entries@, m) ==> placed_in(
                placement.chunks.chunks(),
                m,
            ),
{
    let count: usize = modules.module_count();
    let (mut chunks, mut roots) = seed_entry_chunks(modules, entries);
    let ghost seeded = chunks.chunks();
    let reachable_chunks = discover_async_splits(modules, entries, &mut chunks, &mut roots);
    let ghost split = chunks.chunks();
    let reachable_modules = collect_reachable_modules(modules, &roots);
    let shared = place_modules(modules, &roots, &reachable_modules, &reachable_chunks, &mut chunks);
    proof {
        let after = chunks.chunks();
        let imports = modules.imports();
        lemma_extended_twice(seeded, split, after);
        lemma_entries_still_lead(entries@, seeded, after);
        roots.lemma_roots_below_capacity();
        lemma_reachable_is_placed(
            imports,
            entries@,
            roots@,
            reachable_chunks@,
            dfs_events(imports, entries@),
            count as nat,
            after,
        );
        lemma_shared_anchored(
            shared@,
            after,
            roots@,
            reachable_modules@,
            reachable_chunks@,
            count as nat,
        );
    }
    Placement { chunks, roots, reachable_chunks, reachable_modules, shared }
}

/// Splits the modules into chunks.
///
/// Every entry and every target of an async import that the search follows
/// starts a chunk. A module that several roots reach goes into a chunk that
/// they share. Shared chunks below the minimum size are dissolved, and no
/// chunk group loads more chunks than the limit allows.
pub fn split_into_chunks(modules: &ModuleGraph, entries: &Vec<usize>, config: SplitConfig) -> (chunks:
    ChunkGraph)
    requires
        forall|i: int| 0 <= i < entries.len() ==> entries[i] < modules.modules().len(),
    ensures
        chunks.wf(),
        chunks.sizes_agree(modules.sizes()),
        forall|id: usize| !is_small_shared(chunks.chunks(), id, config.min_shared_chunk_size),
        config.parallel_request_limit matches Some(limit) ==> forall|g: usize|
            loads_at_most(chunks.links(), g, limit),
        is_split_of(&chunks, modules, entries@, config),
        forall|i: int|
            0 <= i < entries.len() && slot_live(chunks.chunks(), i as usize) ==> leads(
                chunks.chunks(),
                i as usize,
                #[trigger] entries[i],
            ),
        config.parallel_request_limit is None ==> entries_lead(entries@, chunks.chunks()),
        config.parallel_request_limit is None ==> forall|m: usize|
            reachable_from_entry(modules.imports(), entries@, m) ==> placed_in(chunks.chunks(), m),
{
    let placement = place_all(modules, entries);
    let mut chunks = placement.chunks;
    let ghost done = chunks.chunks();
    remove_small_shared_chunks(modules, &mut chunks, config.min_shared_chunk_size);
    let ghost small_gone = chunks.chunks();
    proof {
        assert forall|i: int| 0 <= i < entries.len() implies leads(
            small_gone,
            i as usize,
            #[trigger] entries[i],
        ) by {
            assert(leads(done, i as usize, entries[i]));
            assert(placement.chunks.contains(i as usize));
            lemma_grown_keeps(done, small_gone, i as usize, entries[i]);
        }
    }
    if let Some(limit) = config.parallel_request_limit {
        let ghost kept = chunks.chunks();
        enforce_parallel_limit(modules, &mut chunks, limit);
        proof {
            assert forall|i: int|
                0 <= i < entries.len() && slot_live(chunks.chunks(), i as usize) implies leads(
                chunks.chunks(),
                i as usize,
                #[trigger] entries[i],
            ) by {
                assert(leads(kept, i as usize, entries[i]));
                lemma_grown_keeps(kept, chunks.chunks(), i as usize, entries[i]);
            }
            assert forall|id: usize| !is_small_shared(
                chunks.chunks(),
                id,
                config.min_shared_chunk_size,
            ) by {
                if slot_live(chunks.chunks(), id) {
                    assert(chunks.chunks()[id as int] is Some);
                    assert(!is_small_shared(kept, id, config.min_shared_chunk_size));
                }
            }
        }
    }
    chunks
}

} // verus!
