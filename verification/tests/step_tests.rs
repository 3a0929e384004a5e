use code_splitter::async_split::{discover_async_splits, on_dfs_event};
use code_splitter::chunk::Chunk;
use code_splitter::chunk_graph::ChunkGraph;
use code_splitter::example::build_graph;
use code_splitter::module_graph::{Dependency, JsModule, ModuleGraph};
use code_splitter::parallel_limit::{
    chunk_size, contains_id, copy_ids, enforce_parallel_limit, evict_chunk, order_successors,
    relieve_group,
};
use code_splitter::placement::{add_group_links, place_module, place_modules, source_chunks_of};
use code_splitter::placement_key::{insert_ascending, is_dominated, key_of, placement_key_of};
use code_splitter::pruning::{remove_bundle, remove_small_shared_chunks};
use code_splitter::reachability::collect_reachable_modules;
use code_splitter::roots::{ChunkRoots, ReachableChunks};
use code_splitter::seeding::seed_entry_chunks;
use code_splitter::shared_chunks::{same_key, SharedChunks};
use code_splitter::traversal::{claim, claimed_modules, dfs_trace, DfsStep};

fn sized(size: usize) -> JsModule {
    JsModule { name: String::from("m.js"), size }
}

fn sorted(mut list: Vec<usize>) -> Vec<usize> {
    list.sort();
    list
}

fn graph_of(sizes: &[usize], imports: &[(usize, usize, bool)]) -> ModuleGraph {
    let mut g = ModuleGraph::new();
    for size in sizes {
        g.add_module(sized(*size));
    }
    for (from, to, is_async) in imports {
        g.add_dependency(*from, *to, Dependency { is_async: *is_async });
    }
    g
}

fn chunk(modules: Vec<usize>, size: u128, sources: Vec<usize>) -> Chunk {
    Chunk { module_ids: modules, size, source_chunks: sources }
}

#[test]
fn search_walks_the_latest_import_first() {
    let (g, entries) = build_graph();
    let trace = dfs_trace(&g, &entries);
    assert_eq!(
        trace,
        vec![
            DfsStep::Discover(0),
            DfsStep::TreeEdge(0, 4),
            DfsStep::Discover(4),
            DfsStep::Finish(4),
            DfsStep::TreeEdge(0, 5),
            DfsStep::Discover(5),
            DfsStep::Finish(5),
            DfsStep::TreeEdge(0, 2),
            DfsStep::Discover(2),
            DfsStep::Finish(2),
            DfsStep::Finish(0),
            DfsStep::Discover(1),
            DfsStep::CrossForwardEdge(1, 4),
            DfsStep::TreeEdge(1, 3),
            DfsStep::Discover(3),
            DfsStep::Finish(3),
            DfsStep::Finish(1),
        ]
    );
}

#[test]
fn search_reports_back_edges_and_skips_repeated_starts() {
    let g = graph_of(&[1, 1], &[(0, 1, false), (1, 0, false)]);
    let trace = dfs_trace(&g, &vec![0, 0, 1]);
    assert_eq!(
        trace,
        vec![
            DfsStep::Discover(0),
            DfsStep::TreeEdge(0, 1),
            DfsStep::Discover(1),
            DfsStep::BackEdge(1, 0),
            DfsStep::Finish(1),
            DfsStep::Finish(0),
        ]
    );
    assert!(dfs_trace(&g, &Vec::new()).is_empty());
}

#[test]
fn claim_records_every_module_but_the_root_and_stops_at_roots() {
    let mut roots = ChunkRoots::new(4);
    roots.insert(0, (0, 0));
    roots.insert(2, (1, 1));
    let mut found = Vec::new();
    assert!(!claim(&mut found, &roots, 0, 0));
    assert!(found.is_empty());
    assert!(!claim(&mut found, &roots, 0, 1));
    assert!(claim(&mut found, &roots, 0, 2));
    assert!(!claim(&mut found, &roots, 0, 3));
    assert_eq!(found, vec![1, 2, 3]);
}

#[test]
fn claimed_modules_stop_at_other_roots() {
    // 0 -> 1 -> 2 -> 3, with 2 a root: 0 claims 1 and 2, not 3.
    let g = graph_of(&[1, 1, 1, 1], &[(0, 1, false), (1, 2, false), (2, 3, false), (3, 0, false)]);
    let mut roots = ChunkRoots::new(4);
    roots.insert(0, (0, 0));
    roots.insert(2, (1, 1));
    assert_eq!(claimed_modules(&g, 0, &roots), vec![1, 2]);
    assert_eq!(claimed_modules(&g, 2, &roots), vec![3, 0]);
    assert!(claimed_modules(&g, 3, &ChunkRoots::new(4)).len() == 3);
}

#[test]
fn chunk_roots_keep_the_last_ids_of_a_module() {
    let mut roots = ChunkRoots::new(3);
    assert!(!roots.contains(1));
    assert_eq!(roots.get(1), None);
    roots.insert(1, (4, 4));
    roots.insert(1, (7, 8));
    assert!(roots.contains(1));
    assert_eq!(roots.get(1), Some((7, 8)));
    assert_eq!(roots.get(0), None);
    assert_eq!(roots.get(99), None);
    assert!(!roots.contains(99));
}

#[test]
fn reachable_chunks_are_a_set_of_ordered_pairs() {
    let mut pairs = ReachableChunks::new();
    assert!(!pairs.contains(1, 2));
    pairs.insert(1, 2);
    pairs.insert(1, 2);
    assert!(pairs.contains(1, 2));
    assert!(!pairs.contains(2, 1));
    assert!(!pairs.contains(1, 3));
}

#[test]
fn seeding_gives_each_entry_a_chunk_in_order() {
    let g = graph_of(&[11, 22, 33], &[]);
    let (chunks, roots) = seed_entry_chunks(&g, &vec![2, 0, 2]);
    assert_eq!(chunks.chunk_ids(), vec![0, 1, 2]);
    assert_eq!(chunks.chunk(0).unwrap().module_ids, vec![2]);
    assert_eq!(chunks.chunk(0).unwrap().size, 33);
    assert_eq!(chunks.chunk(1).unwrap().module_ids, vec![0]);
    assert_eq!(chunks.chunk(1).unwrap().size, 11);
    assert_eq!(chunks.chunk(2).unwrap().module_ids, vec![2]);
    assert_eq!(roots.get(0), Some((1, 1)));
    assert_eq!(roots.get(2), Some((2, 2)));
    assert_eq!(roots.get(1), None);
    assert_eq!(chunks.as_graph().edge_count(), 0);
}

#[test]
fn async_import_starts_a_chunk_below_every_open_root() {
    // 0 -async-> 1 -async-> 2, 0 -sync-> 3 -async-> 4
    let g = graph_of(
        &[1, 2, 3, 4, 5],
        &[(0, 3, false), (3, 4, true), (0, 1, true), (1, 2, true)],
    );
    let entries = vec![0];
    let (mut chunks, mut roots) = seed_entry_chunks(&g, &entries);
    let reachable = discover_async_splits(&g, &entries, &mut chunks, &mut roots);
    // The latest import of 0 is walked first: 1, then 2 below it, then 3 and 4.
    assert_eq!(roots.get(0), Some((0, 0)));
    assert_eq!(roots.get(1), Some((1, 1)));
    assert_eq!(roots.get(2), Some((2, 2)));
    assert_eq!(roots.get(3), None);
    assert_eq!(roots.get(4), Some((3, 3)));
    assert_eq!(chunks.chunk(1).unwrap().module_ids, vec![1]);
    assert_eq!(chunks.chunk(1).unwrap().size, 2);
    assert_eq!(chunks.chunk(2).unwrap().module_ids, vec![2]);
    assert_eq!(chunks.chunk(3).unwrap().module_ids, vec![4]);
    assert_eq!(chunks.chunk(3).unwrap().size, 5);
    assert!(reachable.contains(0, 1));
    assert!(reachable.contains(0, 2));
    assert!(reachable.contains(1, 2));
    assert!(reachable.contains(0, 4));
    assert!(!reachable.contains(1, 4));
    assert!(!reachable.contains(2, 1));
    assert!(!reachable.contains(1, 0));
}

#[test]
fn events_push_and_pop_the_stack_of_roots() {
    let g = graph_of(&[1, 2], &[(0, 1, true), (1, 0, false)]);
    let (mut chunks, mut roots) = seed_entry_chunks(&g, &vec![0]);
    let mut reachable = ReachableChunks::new();
    let mut stack = Vec::new();
    on_dfs_event(&g, &mut chunks, &mut roots, &mut reachable, &mut stack, DfsStep::Discover(0));
    assert_eq!(stack, vec![(0, 0)]);
    on_dfs_event(&g, &mut chunks, &mut roots, &mut reachable, &mut stack, DfsStep::TreeEdge(0, 1));
    assert_eq!(roots.get(1), Some((1, 1)));
    assert!(reachable.contains(0, 1));
    on_dfs_event(&g, &mut chunks, &mut roots, &mut reachable, &mut stack, DfsStep::Discover(1));
    assert_eq!(stack, vec![(0, 0), (1, 1)]);
    on_dfs_event(&g, &mut chunks, &mut roots, &mut reachable, &mut stack, DfsStep::Finish(0));
    assert_eq!(stack, vec![(0, 0), (1, 1)]);
    on_dfs_event(&g, &mut chunks, &mut roots, &mut reachable, &mut stack, DfsStep::BackEdge(1, 0));
    on_dfs_event(&g, &mut chunks, &mut roots, &mut reachable, &mut stack, DfsStep::Finish(1));
    assert_eq!(stack, vec![(0, 0)]);
    on_dfs_event(&g, &mut chunks, &mut roots, &mut reachable, &mut stack, DfsStep::Finish(0));
    assert!(stack.is_empty());
    assert_eq!(chunks.chunk_ids(), vec![0, 1]);
}

#[test]
fn roots_reaching_lists_the_roots_that_claim_a_module() {
    let (g, entries) = build_graph();
    let (mut chunks, mut roots) = seed_entry_chunks(&g, &entries);
    discover_async_splits(&g, &entries, &mut chunks, &mut roots);
    let reachable = collect_reachable_modules(&g, &roots);
    assert_eq!(sorted(reachable.roots_reaching(4)), vec![0, 1]);
    assert_eq!(sorted(reachable.roots_reaching(5)), vec![0]);
    assert_eq!(sorted(reachable.roots_reaching(2)), vec![0]);
    assert_eq!(sorted(reachable.roots_reaching(3)), vec![1]);
    assert!(reachable.roots_reaching(0).is_empty());
    assert!(reachable.roots_reaching(1).is_empty());
    assert!(reachable.roots_reaching(77).is_empty());
    assert_eq!(reachable.as_graph().edge_count(), 5);
}

#[test]
fn insert_ascending_keeps_order_and_skips_what_is_there() {
    let mut list = Vec::new();
    for x in [5usize, 1, 9, 5, 3, 1] {
        insert_ascending(&mut list, x);
    }
    assert_eq!(list, vec![1, 3, 5, 9]);
}

#[test]
fn key_drops_the_roots_that_another_root_dominates() {
    let mut pairs = ReachableChunks::new();
    pairs.insert(7, 3);
    pairs.insert(3, 5);
    pairs.insert(4, 4);
    assert!(is_dominated(&vec![3, 7], &pairs, 3));
    assert!(!is_dominated(&vec![3, 7], &pairs, 7));
    assert!(!is_dominated(&vec![3], &pairs, 3));
    assert!(!is_dominated(&vec![4], &pairs, 4));
    assert_eq!(key_of(&vec![9, 3, 7, 4], &pairs, 10), vec![4, 7, 9]);
    assert_eq!(key_of(&vec![5, 3], &pairs, 10), vec![3]);
    assert_eq!(key_of(&vec![5, 9, 5], &pairs, 10), vec![5, 9]);
    assert!(key_of(&Vec::new(), &pairs, 10).is_empty());
}

#[test]
fn placement_key_is_ascending() {
    let (g, entries) = build_graph();
    let (mut chunks, mut roots) = seed_entry_chunks(&g, &entries);
    let reachable_chunks = discover_async_splits(&g, &entries, &mut chunks, &mut roots);
    let reachable = collect_reachable_modules(&g, &roots);
    assert_eq!(placement_key_of(&reachable, &reachable_chunks, 6, 4), vec![0, 1]);
    assert_eq!(placement_key_of(&reachable, &reachable_chunks, 6, 5), vec![0]);
    assert!(placement_key_of(&reachable, &reachable_chunks, 6, 0).is_empty());
}

#[test]
fn shared_chunk_table_finds_keys_by_their_roots() {
    let mut table = SharedChunks::new();
    assert_eq!(table.get(&vec![1, 2]), None);
    table.insert(vec![1, 2], 5);
    table.insert(vec![1, 2, 3], 6);
    assert_eq!(table.get(&vec![1, 2]), Some(5));
    assert_eq!(table.get(&vec![1, 2, 3]), Some(6));
    assert_eq!(table.get(&vec![2, 1]), None);
    assert_eq!(table.get(&vec![1]), None);
    assert!(same_key(&vec![1, 2], &vec![1, 2]));
    assert!(!same_key(&vec![1, 2], &vec![1, 3]));
    assert!(!same_key(&vec![1, 2], &vec![1]));
    assert!(same_key(&Vec::new(), &Vec::new()));
}

#[test]
fn group_links_skip_the_root_itself_or_its_own_chunk() {
    let mut roots = ChunkRoots::new(3);
    roots.insert(0, (0, 0));
    roots.insert(1, (1, 1));
    roots.insert(2, (2, 2));
    assert_eq!(source_chunks_of(&roots, &vec![2, 0]), vec![2, 0]);

    let mut chunks = ChunkGraph::new();
    for m in 0..4 {
        chunks.add_chunk(chunk(vec![m], 1, vec![]));
    }
    add_group_links(&mut chunks, &roots, &vec![0, 1, 2], 3, None);
    assert_eq!(sorted(chunks.predecessor_list(3)), vec![0, 1, 2]);
    add_group_links(&mut chunks, &roots, &vec![0, 1], 1, None);
    assert_eq!(sorted(chunks.predecessor_list(1)), vec![0]);
    add_group_links(&mut chunks, &roots, &vec![0, 1, 2], 2, Some(1));
    assert_eq!(sorted(chunks.predecessor_list(2)), vec![0, 2]);
}

#[test]
fn placement_makes_one_shared_chunk_for_each_key() {
    // Entries 0 and 1 both import 2 and 3; 1 alone imports 4.
    let g = graph_of(
        &[1, 10, 100, 1000, 10000],
        &[(0, 2, false), (0, 3, false), (1, 2, false), (1, 3, false), (1, 4, false)],
    );
    let entries = vec![0, 1];
    let (mut chunks, mut roots) = seed_entry_chunks(&g, &entries);
    let reachable_chunks = discover_async_splits(&g, &entries, &mut chunks, &mut roots);
    let reachable = collect_reachable_modules(&g, &roots);
    let shared = place_modules(&g, &roots, &reachable, &reachable_chunks, &mut chunks);
    assert_eq!(shared.get(&vec![0, 1]), Some(2));
    assert_eq!(shared.get(&vec![1]), None);
    assert_eq!(chunks.chunk_ids(), vec![0, 1, 2]);
    assert_eq!(chunks.chunk(0).unwrap().module_ids, vec![0]);
    assert_eq!(chunks.chunk(1).unwrap().module_ids, vec![1, 4]);
    assert_eq!(chunks.chunk(1).unwrap().size, 10010);
    assert_eq!(chunks.chunk(2).unwrap().module_ids, vec![2, 3]);
    assert_eq!(chunks.chunk(2).unwrap().size, 1100);
    assert_eq!(chunks.chunk(2).unwrap().source_chunks, vec![0, 1]);
    assert_eq!(sorted(chunks.predecessor_list(2)), vec![0, 1]);
    assert_eq!(chunks.as_graph().edge_count(), 2);
}

#[test]
fn place_module_leaves_an_unreached_module_out() {
    let g = graph_of(&[1, 10, 100], &[(0, 1, false)]);
    let entries = vec![0];
    let (mut chunks, mut roots) = seed_entry_chunks(&g, &entries);
    let reachable_chunks = discover_async_splits(&g, &entries, &mut chunks, &mut roots);
    let reachable = collect_reachable_modules(&g, &roots);
    let mut shared = SharedChunks::new();
    place_module(&g, &roots, &reachable, &reachable_chunks, &mut chunks, &mut shared, 0);
    assert_eq!(chunks.chunk(0).unwrap().module_ids, vec![0]);
    place_module(&g, &roots, &reachable, &reachable_chunks, &mut chunks, &mut shared, 1);
    assert_eq!(chunks.chunk(0).unwrap().module_ids, vec![0, 1]);
    assert_eq!(chunks.chunk(0).unwrap().size, 11);
    place_module(&g, &roots, &reachable, &reachable_chunks, &mut chunks, &mut shared, 2);
    assert_eq!(chunks.chunk(0).unwrap().module_ids, vec![0, 1]);
    assert_eq!(chunks.chunk_ids(), vec![0]);
    assert_eq!(chunks.as_graph().edge_count(), 0);
}

fn two_entries_and_a_shared_chunk() -> (ModuleGraph, ChunkGraph) {
    let g = graph_of(&[5, 6, 7, 8], &[]);
    let mut chunks = ChunkGraph::new();
    chunks.add_chunk(chunk(vec![0], 5, vec![]));
    chunks.add_chunk(chunk(vec![1], 6, vec![]));
    chunks.add_chunk(chunk(vec![2, 3], 15, vec![0, 1]));
    chunks.connect(0, 2);
    chunks.connect(1, 2);
    (g, chunks)
}

#[test]
fn remove_bundle_appends_the_modules_to_every_source() {
    let (g, mut chunks) = two_entries_and_a_shared_chunk();
    remove_bundle(&g, &mut chunks, 2);
    assert_eq!(chunks.chunk_ids(), vec![0, 1]);
    assert_eq!(chunks.chunk(0).unwrap().module_ids, vec![0, 2, 3]);
    assert_eq!(chunks.chunk(0).unwrap().size, 20);
    assert_eq!(chunks.chunk(1).unwrap().module_ids, vec![1, 2, 3]);
    assert_eq!(chunks.chunk(1).unwrap().size, 21);
    assert!(chunks.successor_list(0).is_empty());
    assert!(chunks.successor_list(1).is_empty());
}

#[test]
fn remove_bundle_skips_a_source_that_is_gone() {
    let (g, mut chunks) = two_entries_and_a_shared_chunk();
    chunks.remove_chunk(0);
    remove_bundle(&g, &mut chunks, 2);
    assert_eq!(chunks.chunk_ids(), vec![1]);
    assert_eq!(chunks.chunk(1).unwrap().module_ids, vec![1, 2, 3]);
}

#[test]
fn small_entry_chunks_are_never_dissolved() {
    let (g, mut chunks) = two_entries_and_a_shared_chunk();
    remove_small_shared_chunks(&g, &mut chunks, 15);
    assert_eq!(chunks.chunk_ids(), vec![0, 1, 2]);
    remove_small_shared_chunks(&g, &mut chunks, 16);
    assert_eq!(chunks.chunk_ids(), vec![0, 1]);
    assert_eq!(chunks.chunk(0).unwrap().size, 20);
    remove_small_shared_chunks(&g, &mut chunks, 1000);
    assert_eq!(chunks.chunk_ids(), vec![0, 1]);
}

#[test]
fn successors_are_ordered_by_size_then_id() {
    let mut chunks = ChunkGraph::new();
    chunks.add_chunk(chunk(vec![], 0, vec![]));
    chunks.add_chunk(chunk(vec![], 30, vec![]));
    chunks.add_chunk(chunk(vec![], 10, vec![]));
    chunks.add_chunk(chunk(vec![], 30, vec![]));
    chunks.add_chunk(chunk(vec![], 20, vec![]));
    chunks.add_chunk(chunk(vec![], 10, vec![]));
    for to in [3usize, 5, 1, 4, 2] {
        chunks.connect(0, to);
    }
    assert_eq!(order_successors(&chunks, 0), vec![2, 5, 4, 1, 3]);
    assert!(order_successors(&chunks, 1).is_empty());
    assert_eq!(chunk_size(&chunks, 4), 20);
    assert_eq!(chunk_size(&chunks, 99), 0);
    assert!(contains_id(&vec![1, 2], 2));
    assert!(!contains_id(&vec![1, 2], 3));
    assert_eq!(copy_ids(&vec![3, 1, 2]), vec![3, 1, 2]);
}

fn group_with_a_sibling_source() -> (ModuleGraph, ChunkGraph) {
    // Chunk 0 loads the entry chunk 1 and the shared chunk 2, whose sources
    // are 0 and 1; chunk 3 loads 2 as well.
    let g = graph_of(&[5, 6, 7, 8, 9], &[]);
    let mut chunks = ChunkGraph::new();
    chunks.add_chunk(chunk(vec![0], 5, vec![]));
    chunks.add_chunk(chunk(vec![1, 4], 15, vec![]));
    chunks.add_chunk(chunk(vec![2, 3], 15, vec![0, 1]));
    chunks.add_chunk(chunk(vec![], 0, vec![]));
    chunks.connect(0, 1);
    chunks.connect(0, 2);
    chunks.connect(1, 2);
    chunks.connect(3, 2);
    (g, chunks)
}

#[test]
fn evicted_chunk_moves_its_modules_into_the_sources_in_the_group() {
    let (g, mut chunks) = group_with_a_sibling_source();
    evict_chunk(&g, &mut chunks, 0, &vec![1, 2], 2);
    // Source 1 is in the group and gets the modules; source 0 is kept. Two
    // edges to the chunk are left, so it stays.
    assert_eq!(chunks.chunk(1).unwrap().module_ids, vec![1, 4, 2, 3]);
    assert_eq!(chunks.chunk(1).unwrap().size, 30);
    assert_eq!(chunks.chunk(0).unwrap().module_ids, vec![0]);
    assert_eq!(chunks.chunk(2).unwrap().source_chunks, vec![0]);
    assert_eq!(chunks.chunk(2).unwrap().module_ids, vec![2, 3]);
    assert_eq!(chunks.successor_list(0), vec![1]);
    assert_eq!(sorted(chunks.predecessor_list(2)), vec![1, 3]);
}

#[test]
fn evicted_chunk_with_one_loader_left_is_dissolved() {
    let (g, mut chunks) = group_with_a_sibling_source();
    chunks.disconnect(3, 2);
    evict_chunk(&g, &mut chunks, 0, &vec![1, 2], 2);
    assert_eq!(chunks.chunk_ids(), vec![0, 1, 3]);
    assert_eq!(chunks.chunk(1).unwrap().module_ids, vec![1, 4, 2, 3]);
    // The source that was kept gets the modules when the chunk is dissolved.
    assert_eq!(chunks.chunk(0).unwrap().module_ids, vec![0, 2, 3]);
    assert_eq!(chunks.chunk(0).unwrap().size, 20);
}

#[test]
fn evicted_chunk_without_loaders_is_removed() {
    let (g, mut chunks) = group_with_a_sibling_source();
    chunks.disconnect(3, 2);
    chunks.disconnect(1, 2);
    evict_chunk(&g, &mut chunks, 0, &vec![1, 2], 2);
    assert_eq!(chunks.chunk_ids(), vec![0, 1, 3]);
    assert_eq!(chunks.chunk(1).unwrap().module_ids, vec![1, 4, 2, 3]);
    assert_eq!(chunks.chunk(0).unwrap().module_ids, vec![0]);
    evict_chunk(&g, &mut chunks, 0, &vec![1, 2], 2);
    assert_eq!(chunks.chunk_ids(), vec![0, 1, 3]);
}

#[test]
fn group_within_the_limit_is_left_alone() {
    let (g, mut chunks) = group_with_a_sibling_source();
    relieve_group(&g, &mut chunks, 0, 2);
    assert_eq!(sorted(chunks.successor_list(0)), vec![1, 2]);
    assert_eq!(chunks.chunk(1).unwrap().module_ids, vec![1, 4]);
    relieve_group(&g, &mut chunks, 0, 1);
    // Both successors have size 15; the one with the smaller id goes. It is
    // an entry chunk that nothing else loads, so it is removed.
    assert_eq!(chunks.successor_list(0), vec![2]);
    assert_eq!(chunks.chunk_ids(), vec![0, 2, 3]);
}

#[test]
fn limit_of_zero_removes_every_edge() {
    let (g, mut chunks) = group_with_a_sibling_source();
    enforce_parallel_limit(&g, &mut chunks, 0);
    for id in chunks.chunk_ids() {
        assert!(chunks.successor_list(id).is_empty());
    }
    assert_eq!(chunks.as_graph().edge_count(), 0);
}
