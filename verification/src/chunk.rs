//! A chunk: the modules that load together, their total size, and the chunks
//! the modules would otherwise have been part of.

use crate::module_graph::JsModule;
use vstd::prelude::*;

verus! {

/// A node of the chunk graph.
///
/// A chunk without source chunks is an entry chunk; one with source chunks is
/// a shared chunk.
#[derive(Debug)]
pub struct Chunk {
    pub module_ids: Vec<usize>,
    pub size: u128,
    pub source_chunks: Vec<usize>,
}

/// What a chunk holds, as mathematical values.
pub struct ChunkView {
    pub module_ids: Seq<usize>,
    pub size: nat,
    pub source_chunks: Seq<usize>,
}

impl View for Chunk {
    type V = ChunkView;

    open spec fn view(&self) -> ChunkView {
        ChunkView {
            module_ids: self.module_ids@,
            size: self.size as nat,
            source_chunks: self.source_chunks@,
        }
    }
}

/// The sizes of the modules `ids` together.
pub open spec fn sum_sizes(sizes: Seq<usize>, ids: Seq<usize>) -> nat
    decreases ids.len(),
{
    if ids.len() == 0 {
        0
    } else {
        sum_sizes(sizes, ids.drop_last()) + sizes[ids.last() as int] as nat
    }
}

/// The sizes of a list of modules are together at most the length of the
/// list times the largest size there is.
pub proof fn lemma_sum_sizes_bound(sizes: Seq<usize>, ids: Seq<usize>)
    ensures
        sum_sizes(sizes, ids) <= ids.len() * usize::MAX,
    decreases ids.len(),
{
    if ids.len() > 0 {
        lemma_sum_sizes_bound(sizes, ids.drop_last());
        assert(ids.drop_last().len() * usize::MAX + usize::MAX == ids.len() * usize::MAX)
            by (nonlinear_arith)
            requires
                ids.drop_last().len() + 1 == ids.len(),
        ;
    }
}

/// A list of fewer than `usize::MAX` module sizes fits in 128 bits with room
/// for one more.
pub proof fn lemma_sizes_fit(sizes: Seq<usize>, ids: Seq<usize>)
    requires
        ids.len() <= usize::MAX,
    ensures
        sum_sizes(sizes, ids) <= u128::MAX,
{
    lemma_sum_sizes_bound(sizes, ids);
    assert(ids.len() * usize::MAX <= 0xffff_ffff_ffff_ffff * 0xffff_ffff_ffff_ffff)
        by (nonlinear_arith)
        requires
            ids.len() <= 0xffff_ffff_ffff_ffff,
            usize::MAX <= 0xffff_ffff_ffff_ffff,
    ;
}

impl ChunkView {
    /// The size is the sum of the sizes of the modules, all of which are
    /// modules of a graph with these sizes.
    pub open spec fn sized(self, sizes: Seq<usize>) -> bool {
        &&& forall|k: int|
            0 <= k < self.module_ids.len() ==> (#[trigger] self.module_ids[k]) < sizes.len()
        &&& self.size == sum_sizes(sizes, self.module_ids)
    }

    /// The chunk with more modules at the end.
    pub open spec fn with_modules(self, sizes: Seq<usize>, module_ids: Seq<usize>) -> ChunkView {
        ChunkView {
            module_ids: self.module_ids + module_ids,
            size: self.size + sum_sizes(sizes, module_ids),
            source_chunks: self.source_chunks,
        }
    }

    /// The chunk that holds one module and has no source chunks.
    pub open spec fn single(module_id: usize, size: usize) -> ChunkView {
        ChunkView { module_ids: seq![module_id], size: size as nat, source_chunks: seq![] }
    }

    /// The empty chunk with the given source chunks.
    pub open spec fn shared(source_chunks: Seq<usize>) -> ChunkView {
        ChunkView { module_ids: seq![], size: 0, source_chunks }
    }

    /// An entry chunk has no source chunks.
    pub open spec fn is_entry(self) -> bool {
        self.source_chunks.len() == 0
    }

    /// The chunk with one more module at the end.
    pub open spec fn with_module(self, module_id: usize, size: nat) -> ChunkView {
        ChunkView {
            module_ids: self.module_ids.push(module_id),
            size: self.size + size,
            source_chunks: self.source_chunks,
        }
    }
}

/// The size of the chunk of one module is the sum of the sizes of its modules.
pub proof fn lemma_single_sized(sizes: Seq<usize>, module_id: usize)
    requires
        module_id < sizes.len(),
    ensures
        ChunkView::single(module_id, sizes[module_id as int]).sized(sizes),
{
    let ids = seq![module_id];
    assert(ids.drop_last() =~= Seq::<usize>::empty());
    assert(sum_sizes(sizes, ids.drop_last()) == 0);
    assert(sum_sizes(sizes, ids) == sizes[module_id as int]);
}

impl Chunk {
    /// The entry chunk of one module.
    pub fn from_js_module(module_idx: usize, module: &JsModule) -> (chunk: Chunk)
        ensures
            chunk@ == ChunkView::single(module_idx, module.size),
    {
        let mut module_ids: Vec<usize> = Vec::new();
        module_ids.push(module_idx);
        let chunk = Chunk { module_ids, size: module.size as u128, source_chunks: Vec::new() };
        assert(chunk@.module_ids =~= seq![module_idx]);
        assert(chunk@.source_chunks =~= seq![]);
        chunk
    }
}

impl Default for Chunk {
    fn default() -> (chunk: Chunk)
        ensures
            chunk@ == ChunkView::shared(seq![]),
    {
        let chunk = Chunk { module_ids: Vec::new(), size: 0, source_chunks: Vec::new() };
        assert(chunk@.module_ids =~= seq![]);
        assert(chunk@.source_chunks =~= seq![]);
        chunk
    }
}

} // verus!
