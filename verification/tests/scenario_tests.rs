use code_splitter::chunk_graph::ChunkGraph;
use code_splitter::example::build_graph;
use code_splitter::module_graph::{Dependency, JsModule, ModuleGraph};
use code_splitter::splitter::{place_all, split_into_chunks, SplitConfig};

fn module(name: &str) -> JsModule {
    JsModule { name: String::from(name), size: 1000 }
}

fn sorted(mut list: Vec<usize>) -> Vec<usize> {
    list.sort();
    list
}

fn modules_of(chunks: &ChunkGraph, id: usize) -> Vec<usize> {
    chunks.chunk(id).unwrap().module_ids.clone()
}

fn variant_b_graph() -> (ModuleGraph, Vec<usize>) {
    let mut g = ModuleGraph::new();
    let entry_a = g.add_module(module("entry-a.js"));
    let entry_b = g.add_module(module("entry-b.js"));
    let a = g.add_module(module("a.js"));
    let b = g.add_module(module("b.js"));
    let shared = g.add_module(module("shared.js"));
    let asynced_a = g.add_module(module("asynced_a.js"));
    g.add_dependency(entry_a, a, Dependency { is_async: false });
    g.add_dependency(entry_a, asynced_a, Dependency { is_async: true });
    g.add_dependency(entry_a, shared, Dependency { is_async: false });
    g.add_dependency(entry_b, b, Dependency { is_async: false });
    g.add_dependency(entry_b, asynced_a, Dependency { is_async: true });
    g.add_dependency(entry_b, shared, Dependency { is_async: false });
    (g, vec![entry_a, entry_b])
}

#[test]
fn example_graph_has_six_modules_of_size_1000() {
    let (g, entries) = build_graph();
    assert_eq!(g.module_count(), 6);
    assert_eq!(entries, vec![0, 1]);
    let names = ["entry-a.js", "entry-b.js", "a.js", "b.js", "shared.js", "asynced_a.js"];
    for id in 0..6 {
        assert_eq!(g.module(id).name, names[id]);
        assert_eq!(g.module_size(id), 1000);
    }
    assert_eq!(g.dependency(0, 2).map(|d| d.is_async), Some(false));
    assert_eq!(g.dependency(0, 5).map(|d| d.is_async), Some(true));
    assert_eq!(g.dependency(0, 4).map(|d| d.is_async), Some(false));
    assert_eq!(g.dependency(1, 3).map(|d| d.is_async), Some(false));
    assert_eq!(g.dependency(1, 4).map(|d| d.is_async), Some(false));
    assert!(g.dependency(1, 5).is_none());
    assert!(g.dependency(1, 2).is_none());
}

#[test]
fn example_graph_splits_into_four_chunks() {
    let (g, entries) = build_graph();
    let chunks = split_into_chunks(&g, &entries, SplitConfig::default());
    assert_eq!(chunks.chunk_ids(), vec![0, 1, 2, 3]);

    let c1 = chunks.chunk(0).unwrap();
    assert_eq!(c1.module_ids, vec![0, 2]);
    assert_eq!(c1.size, 2000);
    assert!(c1.source_chunks.is_empty());

    let c2 = chunks.chunk(1).unwrap();
    assert_eq!(c2.module_ids, vec![1, 3]);
    assert_eq!(c2.size, 2000);
    assert!(c2.source_chunks.is_empty());

    let c3 = chunks.chunk(2).unwrap();
    assert_eq!(c3.module_ids, vec![5]);
    assert_eq!(c3.size, 1000);
    assert!(c3.source_chunks.is_empty());

    let c4 = chunks.chunk(3).unwrap();
    assert_eq!(c4.module_ids, vec![4]);
    assert_eq!(c4.size, 1000);
    assert_eq!(c4.source_chunks, vec![0, 1]);

    assert_eq!(sorted(chunks.successor_list(0)), vec![2, 3]);
    assert_eq!(sorted(chunks.successor_list(1)), vec![3]);
    assert!(chunks.successor_list(2).is_empty());
    assert!(chunks.successor_list(3).is_empty());
    assert_eq!(sorted(chunks.predecessor_list(2)), vec![0]);
    assert_eq!(sorted(chunks.predecessor_list(3)), vec![0, 1]);
}

#[test]
fn default_config_is_minimum_ten_and_no_limit() {
    let config = SplitConfig::default();
    assert_eq!(config.min_shared_chunk_size, 10);
    assert_eq!(config.parallel_request_limit, None);
}

#[test]
fn small_shared_chunk_dissolves_into_both_entries() {
    let (g, entries) = build_graph();
    let config = SplitConfig { min_shared_chunk_size: 2000, parallel_request_limit: None };
    let chunks = split_into_chunks(&g, &entries, config);
    assert_eq!(chunks.chunk_ids(), vec![0, 1, 2]);
    assert!(chunks.chunk(3).is_none());
    let c1 = chunks.chunk(0).unwrap();
    assert_eq!(c1.module_ids, vec![0, 2, 4]);
    assert_eq!(c1.size, 3000);
    let c2 = chunks.chunk(1).unwrap();
    assert_eq!(c2.module_ids, vec![1, 3, 4]);
    assert_eq!(c2.size, 3000);
    let c3 = chunks.chunk(2).unwrap();
    assert_eq!(c3.module_ids, vec![5]);
    assert_eq!(c3.size, 1000);
    assert_eq!(sorted(chunks.successor_list(0)), vec![2]);
    assert!(chunks.successor_list(1).is_empty());
}

#[test]
fn shared_chunk_of_exactly_the_minimum_size_stays() {
    let (g, entries) = build_graph();
    let config = SplitConfig { min_shared_chunk_size: 1000, parallel_request_limit: None };
    let chunks = split_into_chunks(&g, &entries, config);
    assert_eq!(chunks.chunk_ids(), vec![0, 1, 2, 3]);
    assert_eq!(chunks.chunk(3).unwrap().size, 1000);
}

#[test]
fn async_chunk_imported_by_two_entries_stays_one_entry_chunk() {
    let (g, entries) = variant_b_graph();
    let chunks = split_into_chunks(&g, &entries, SplitConfig::default());
    assert_eq!(chunks.chunk_ids(), vec![0, 1, 2, 3]);
    let c3 = chunks.chunk(2).unwrap();
    assert_eq!(c3.module_ids, vec![5]);
    assert_eq!(c3.size, 1000);
    assert!(c3.source_chunks.is_empty());
    assert_eq!(sorted(chunks.predecessor_list(2)), vec![0, 1]);
    let c4 = chunks.chunk(3).unwrap();
    assert_eq!(c4.module_ids, vec![4]);
    assert_eq!(c4.source_chunks, vec![0, 1]);
    assert_eq!(sorted(chunks.successor_list(0)), vec![2, 3]);
    assert_eq!(sorted(chunks.successor_list(1)), vec![2, 3]);
    assert_eq!(modules_of(&chunks, 0), vec![0, 2]);
    assert_eq!(modules_of(&chunks, 1), vec![1, 3]);
}

#[test]
fn parallel_limit_of_one_leaves_one_successor() {
    let (g, entries) = build_graph();
    let config = SplitConfig { min_shared_chunk_size: 10, parallel_request_limit: Some(1) };
    let chunks = split_into_chunks(&g, &entries, config);
    // Of the two chunks of size 1000 that the first entry loads, the one with
    // the smaller id loses its edge; nothing else loads it, so it is removed.
    assert_eq!(chunks.successor_list(0), vec![3]);
    assert_eq!(chunks.successor_list(1), vec![3]);
    assert_eq!(chunks.chunk_ids(), vec![0, 1, 3]);
    assert!(chunks.chunk(2).is_none());
    assert_eq!(modules_of(&chunks, 0), vec![0, 2]);
    assert_eq!(modules_of(&chunks, 1), vec![1, 3]);
    assert_eq!(modules_of(&chunks, 3), vec![4]);
    assert_eq!(chunks.chunk(3).unwrap().source_chunks, vec![0, 1]);
}

#[test]
fn parallel_limit_holds_for_every_chunk() {
    for limit in 0..4 {
        let (g, entries) = variant_b_graph();
        let config = SplitConfig { min_shared_chunk_size: 0, parallel_request_limit: Some(limit) };
        let chunks = split_into_chunks(&g, &entries, config);
        for id in chunks.chunk_ids() {
            assert!(chunks.successor_list(id).len() <= limit);
        }
    }
}

#[test]
fn unreachable_module_is_in_no_chunk() {
    let (mut g, entries) = build_graph();
    let dead = g.add_module(JsModule { name: String::from("dead.js"), size: 77 });
    let leaf = g.add_module(JsModule { name: String::from("leaf.js"), size: 5 });
    g.add_dependency(dead, leaf, Dependency { is_async: false });
    g.add_dependency(dead, 4, Dependency { is_async: true });
    let chunks = split_into_chunks(&g, &entries, SplitConfig::default());
    assert_eq!(chunks.chunk_ids(), vec![0, 1, 2, 3]);
    for id in chunks.chunk_ids() {
        let chunk = chunks.chunk(id).unwrap();
        assert!(!chunk.module_ids.contains(&dead));
        assert!(!chunk.module_ids.contains(&leaf));
    }
    assert_eq!(chunks.chunk(0).unwrap().size, 2000);
    assert_eq!(chunks.chunk(1).unwrap().size, 2000);
    assert_eq!(chunks.chunk(2).unwrap().size, 1000);
    assert_eq!(chunks.chunk(3).unwrap().size, 1000);
}

#[test]
fn no_entries_give_an_empty_chunk_graph() {
    let (g, _) = build_graph();
    let chunks = split_into_chunks(&g, &Vec::new(), SplitConfig::default());
    assert!(chunks.chunk_ids().is_empty());
}

#[test]
fn every_entry_starts_a_chunk_without_sources() {
    let (g, entries) = variant_b_graph();
    let chunks = split_into_chunks(&g, &entries, SplitConfig::default());
    for (i, entry) in entries.iter().enumerate() {
        let chunk = chunks.chunk(i).unwrap();
        assert_eq!(chunk.module_ids[0], *entry);
        assert!(chunk.source_chunks.is_empty());
    }
}

#[test]
fn every_reachable_module_is_in_a_chunk_after_placement() {
    let (g, entries) = variant_b_graph();
    let placement = place_all(&g, &entries);
    for module in 0..g.module_count() {
        let holders = placement
            .chunks
            .chunk_ids()
            .into_iter()
            .filter(|id| placement.chunks.chunk(*id).unwrap().module_ids.contains(&module))
            .count();
        assert_eq!(holders, 1);
    }
}

#[test]
fn chunk_size_is_the_sum_of_the_module_sizes() {
    let mut g = ModuleGraph::new();
    let e = g.add_module(JsModule { name: String::from("e.js"), size: 3 });
    let f = g.add_module(JsModule { name: String::from("f.js"), size: 40 });
    let x = g.add_module(JsModule { name: String::from("x.js"), size: 500 });
    let y = g.add_module(JsModule { name: String::from("y.js"), size: 6000 });
    let z = g.add_module(JsModule { name: String::from("z.js"), size: 70000 });
    g.add_dependency(e, x, Dependency { is_async: false });
    g.add_dependency(e, y, Dependency { is_async: false });
    g.add_dependency(f, y, Dependency { is_async: false });
    g.add_dependency(f, z, Dependency { is_async: false });
    g.add_dependency(e, z, Dependency { is_async: false });
    for min in [0usize, 100000] {
        let config = SplitConfig { min_shared_chunk_size: min, parallel_request_limit: None };
        let chunks = split_into_chunks(&g, &vec![e, f], config);
        for id in chunks.chunk_ids() {
            let chunk = chunks.chunk(id).unwrap();
            let sum: u128 = chunk.module_ids.iter().map(|m| g.module_size(*m) as u128).sum();
            assert_eq!(chunk.size, sum);
        }
        if min == 0 {
            assert_eq!(chunks.chunk(0).unwrap().size, 503);
            assert_eq!(chunks.chunk(1).unwrap().size, 40);
            assert_eq!(chunks.chunk(2).unwrap().module_ids, vec![y, z]);
            assert_eq!(chunks.chunk(2).unwrap().size, 76000);
        } else {
            assert_eq!(chunks.chunk(0).unwrap().module_ids, vec![e, x, y, z]);
            assert_eq!(chunks.chunk(0).unwrap().size, 76503);
            assert_eq!(chunks.chunk(1).unwrap().module_ids, vec![f, y, z]);
            assert_eq!(chunks.chunk(1).unwrap().size, 76040);
            assert!(chunks.chunk(2).is_none());
        }
    }
}

#[test]
fn splitting_twice_gives_the_same_chunks() {
    let (g, entries) = variant_b_graph();
    let config = SplitConfig { min_shared_chunk_size: 10, parallel_request_limit: Some(1) };
    let first = split_into_chunks(&g, &entries, config);
    let second = split_into_chunks(&g, &entries, config);
    assert_eq!(first.chunk_ids(), second.chunk_ids());
    for id in first.chunk_ids() {
        let a = first.chunk(id).unwrap();
        let b = second.chunk(id).unwrap();
        assert_eq!(a.module_ids, b.module_ids);
        assert_eq!(a.size, b.size);
        assert_eq!(a.source_chunks, b.source_chunks);
        assert_eq!(sorted(first.successor_list(id)), sorted(second.successor_list(id)));
    }
}

#[test]
fn module_below_an_async_root_is_not_shared_with_its_ancestor() {
    // entry -> lazy (async) -> util, and entry -> util: util is loaded with
    // the entry, so it is not shared between the entry and the async chunk.
    let mut g = ModuleGraph::new();
    let entry = g.add_module(module("entry.js"));
    let lazy = g.add_module(module("lazy.js"));
    let util = g.add_module(module("util.js"));
    g.add_dependency(entry, util, Dependency { is_async: false });
    g.add_dependency(lazy, util, Dependency { is_async: false });
    g.add_dependency(entry, lazy, Dependency { is_async: true });
    let placement = place_all(&g, &vec![entry]);
    assert!(placement.reachable_chunks.contains(entry, lazy));
    assert_eq!(placement.chunks.chunk_ids(), vec![0, 1]);
    assert_eq!(modules_of(&placement.chunks, 0), vec![entry, util]);
    assert_eq!(modules_of(&placement.chunks, 1), vec![lazy]);
    assert_eq!(placement.chunks.successor_list(0), vec![1]);
}

#[test]
fn cycle_in_the_module_graph_is_walked_once() {
    let mut g = ModuleGraph::new();
    let entry = g.add_module(module("entry.js"));
    let a = g.add_module(module("a.js"));
    let b = g.add_module(module("b.js"));
    g.add_dependency(entry, a, Dependency { is_async: false });
    g.add_dependency(a, b, Dependency { is_async: false });
    g.add_dependency(b, a, Dependency { is_async: false });
    g.add_dependency(b, entry, Dependency { is_async: false });
    let chunks = split_into_chunks(&g, &vec![entry], SplitConfig::default());
    assert_eq!(chunks.chunk_ids(), vec![0]);
    assert_eq!(modules_of(&chunks, 0), vec![entry, a, b]);
    assert_eq!(chunks.chunk(0).unwrap().size, 3000);
}

#[test]
fn no_shared_chunk_is_below_the_minimum_size() {
    // Three entries share modules of sizes 4, 40 and 400 in different groups.
    let mut g = ModuleGraph::new();
    let e0 = g.add_module(JsModule { name: String::from("e0.js"), size: 1 });
    let e1 = g.add_module(JsModule { name: String::from("e1.js"), size: 1 });
    let e2 = g.add_module(JsModule { name: String::from("e2.js"), size: 1 });
    let x = g.add_module(JsModule { name: String::from("x.js"), size: 4 });
    let y = g.add_module(JsModule { name: String::from("y.js"), size: 40 });
    let z = g.add_module(JsModule { name: String::from("z.js"), size: 400 });
    for (from, to) in [(e0, x), (e1, x), (e1, y), (e2, y), (e0, z), (e1, z), (e2, z)] {
        g.add_dependency(from, to, Dependency { is_async: false });
    }
    let entries = vec![e0, e1, e2];
    for min in [0usize, 4, 5, 40, 41, 400, 401] {
        let config = SplitConfig { min_shared_chunk_size: min, parallel_request_limit: None };
        let chunks = split_into_chunks(&g, &entries, config);
        let mut shared = 0;
        for id in chunks.chunk_ids() {
            let chunk = chunks.chunk(id).unwrap();
            if !chunk.source_chunks.is_empty() {
                shared += 1;
                assert!(chunk.size >= min as u128);
            }
        }
        let expected = [x, y, z].iter().filter(|m| g.module_size(**m) >= min).count();
        assert_eq!(shared, expected);
    }
}

#[test]
fn source_chunks_are_the_chunks_of_the_roots_that_reach_the_modules() {
    let mut g = ModuleGraph::new();
    let e0 = g.add_module(module("e0.js"));
    let e1 = g.add_module(module("e1.js"));
    let e2 = g.add_module(module("e2.js"));
    let x = g.add_module(module("x.js"));
    let y = g.add_module(module("y.js"));
    let z = g.add_module(module("z.js"));
    for (from, to) in [(e0, x), (e2, x), (e1, y), (e2, y), (e0, z), (e2, z)] {
        g.add_dependency(from, to, Dependency { is_async: false });
    }
    let placement = place_all(&g, &vec![e0, e1, e2]);
    let chunks = &placement.chunks;
    assert_eq!(chunks.chunk_ids(), vec![0, 1, 2, 3, 4]);
    assert_eq!(placement.shared.get(&vec![e0, e2]), Some(3));
    assert_eq!(placement.shared.get(&vec![e1, e2]), Some(4));
    assert_eq!(chunks.chunk(3).unwrap().module_ids, vec![x, z]);
    assert_eq!(chunks.chunk(3).unwrap().source_chunks, vec![0, 2]);
    assert_eq!(chunks.chunk(4).unwrap().module_ids, vec![y]);
    assert_eq!(chunks.chunk(4).unwrap().source_chunks, vec![1, 2]);
    for id in [3usize, 4] {
        let chunk = chunks.chunk(id).unwrap();
        for m in &chunk.module_ids {
            let mut reaching = placement.reachable_modules.roots_reaching(*m);
            reaching.sort();
            let sources: Vec<usize> =
                reaching.iter().map(|r| placement.roots.get(*r).unwrap().0).collect();
            assert_eq!(chunk.source_chunks, sources);
        }
    }
    assert_eq!(sorted(chunks.successor_list(2)), vec![3, 4]);
}
