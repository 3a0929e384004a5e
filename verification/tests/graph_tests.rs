use code_splitter::chunk::Chunk;
use code_splitter::chunk_graph::ChunkGraph;
use code_splitter::module_graph::{Dependency, JsModule, ModuleGraph};

fn sized(size: usize) -> JsModule {
    JsModule { name: String::from("m.js"), size }
}

fn sorted(mut list: Vec<usize>) -> Vec<usize> {
    list.sort();
    list
}

fn entry_chunk(module: usize, size: u128) -> Chunk {
    Chunk { module_ids: vec![module], size, source_chunks: vec![] }
}

#[test]
fn from_js_module_makes_an_entry_chunk() {
    let chunk = Chunk::from_js_module(7, &sized(123));
    assert_eq!(chunk.module_ids, vec![7]);
    assert_eq!(chunk.size, 123);
    assert!(chunk.source_chunks.is_empty());
}

#[test]
fn default_chunk_is_empty() {
    let chunk = Chunk::default();
    assert!(chunk.module_ids.is_empty());
    assert_eq!(chunk.size, 0);
    assert!(chunk.source_chunks.is_empty());
}

#[test]
fn new_module_graph_is_empty() {
    let g = ModuleGraph::new();
    assert_eq!(g.module_count(), 0);
    assert_eq!(g.as_graph().node_count(), 0);
    assert_eq!(g.as_graph().edge_count(), 0);
}

#[test]
fn add_dependency_adds_one_edge() {
    let mut g = ModuleGraph::new();
    let a = g.add_module(sized(1));
    let b = g.add_module(sized(2));
    g.add_dependency(a, b, Dependency { is_async: true });
    assert_eq!(g.as_graph().edge_count(), 1);
    assert_eq!(g.as_graph().node_count(), 2);
    assert_eq!(g.dependency(a, b).map(|d| d.is_async), Some(true));
    assert!(g.dependency(a, a).is_none());
}

#[test]
fn chunk_ids_are_consecutive_while_nothing_is_removed() {
    let mut chunks = ChunkGraph::new();
    assert!(chunks.chunk_ids().is_empty());
    assert_eq!(chunks.add_chunk(entry_chunk(5, 10)), 0);
    assert_eq!(chunks.add_chunk(entry_chunk(6, 20)), 1);
    assert_eq!(chunks.add_chunk(entry_chunk(7, 30)), 2);
    assert_eq!(chunks.chunk_ids(), vec![0, 1, 2]);
    assert_eq!(chunks.chunk(1).unwrap().module_ids, vec![6]);
    assert_eq!(chunks.chunk(1).unwrap().size, 20);
    assert!(chunks.chunk(3).is_none());
    assert!(chunks.contains_chunk(2));
    assert!(!chunks.contains_chunk(3));
}

#[test]
fn removed_chunk_leaves_the_other_ids_as_they_are() {
    let mut chunks = ChunkGraph::new();
    chunks.add_chunk(entry_chunk(5, 10));
    chunks.add_chunk(entry_chunk(6, 20));
    chunks.add_chunk(entry_chunk(7, 30));
    chunks.connect(0, 1);
    chunks.connect(1, 2);
    chunks.connect(0, 2);
    let removed = chunks.remove_chunk(1).unwrap();
    assert_eq!(removed.module_ids, vec![6]);
    assert_eq!(chunks.chunk_ids(), vec![0, 2]);
    assert!(chunks.chunk(1).is_none());
    assert_eq!(chunks.chunk(2).unwrap().module_ids, vec![7]);
    assert_eq!(chunks.successor_list(0), vec![2]);
    assert_eq!(chunks.predecessor_list(2), vec![0]);
    assert!(chunks.remove_chunk(1).is_none());
    // The vacant slot is taken by the next chunk.
    assert_eq!(chunks.add_chunk(entry_chunk(8, 40)), 1);
    assert_eq!(chunks.chunk_ids(), vec![0, 1, 2]);
}

#[test]
fn connect_twice_gives_one_edge() {
    let mut chunks = ChunkGraph::new();
    chunks.add_chunk(entry_chunk(5, 10));
    chunks.add_chunk(entry_chunk(6, 20));
    chunks.connect(0, 1);
    chunks.connect(0, 1);
    assert_eq!(chunks.successor_list(0), vec![1]);
    assert_eq!(chunks.predecessor_list(1), vec![0]);
    assert_eq!(chunks.as_graph().edge_count(), 1);
    assert!(chunks.successor_list(1).is_empty());
    assert!(chunks.predecessor_list(0).is_empty());
}

#[test]
fn disconnect_removes_only_the_named_edge() {
    let mut chunks = ChunkGraph::new();
    chunks.add_chunk(entry_chunk(5, 10));
    chunks.add_chunk(entry_chunk(6, 20));
    chunks.add_chunk(entry_chunk(7, 30));
    chunks.connect(0, 1);
    chunks.connect(0, 2);
    chunks.connect(1, 2);
    assert!(chunks.disconnect(0, 2));
    assert!(!chunks.disconnect(0, 2));
    assert!(!chunks.disconnect(2, 0));
    assert_eq!(chunks.successor_list(0), vec![1]);
    assert_eq!(chunks.predecessor_list(2), vec![1]);
    assert_eq!(sorted(chunks.predecessor_list(1)), vec![0]);
}

#[test]
fn chunk_mut_changes_the_chunk_in_place() {
    let mut chunks = ChunkGraph::new();
    chunks.add_chunk(entry_chunk(5, 10));
    chunks.add_chunk(entry_chunk(6, 20));
    chunks.chunk_mut(1).source_chunks = vec![0];
    assert_eq!(chunks.chunk(1).unwrap().source_chunks, vec![0]);
    assert!(chunks.chunk(0).unwrap().source_chunks.is_empty());
}

#[test]
fn push_module_appends_and_adds_the_size() {
    let mut g = ModuleGraph::new();
    let a = g.add_module(sized(10));
    let b = g.add_module(sized(25));
    let c = g.add_module(sized(300));
    let mut chunks = ChunkGraph::new();
    chunks.add_chunk(Chunk::from_js_module(a, g.module(a)));
    chunks.push_module(&g, 0, b);
    assert_eq!(chunks.chunk(0).unwrap().module_ids, vec![a, b]);
    assert_eq!(chunks.chunk(0).unwrap().size, 35);
    chunks.push_modules(&g, 0, &vec![c, b]);
    assert_eq!(chunks.chunk(0).unwrap().module_ids, vec![a, b, c, b]);
    assert_eq!(chunks.chunk(0).unwrap().size, 360);
}

#[test]
fn chunk_size_can_exceed_the_largest_module_size() {
    let mut g = ModuleGraph::new();
    let a = g.add_module(sized(usize::MAX));
    let b = g.add_module(sized(usize::MAX));
    let mut chunks = ChunkGraph::new();
    chunks.add_chunk(Chunk::from_js_module(a, g.module(a)));
    chunks.push_module(&g, 0, b);
    assert_eq!(chunks.chunk(0).unwrap().size, 2 * (usize::MAX as u128));
}
