//! Text splitting for chunking documents.
use vstd::prelude::*;

pub mod code_splitter;
pub mod markdown_splitter;
pub mod text_splitter;

use crate::text::is_trimmed;
use crate::types::{ChunkMetadata, MetaView};

verus! {

/// Configuration for text splitting.
#[derive(Debug, Clone)]
pub struct SplitConfig {
    /// Target chunk size in bytes.
    pub chunk_size: usize,
    /// Overlap between chunks in bytes.
    pub chunk_overlap: usize,
    /// Whether to preserve word boundaries.
    pub preserve_words: bool,
}

impl Default for SplitConfig {
    fn default() -> (r: Self)
        ensures
            r.chunk_size == 1500,
            r.chunk_overlap == 200,
            r.preserve_words,
    {
        SplitConfig { chunk_size: 1500, chunk_overlap: 200, preserve_words: true }
    }
}

/// A chunk of text from a document.
#[derive(Debug, Clone)]
pub struct TextChunk {
    /// The chunk content.
    pub content: String,
    /// Chunk metadata.
    pub metadata: ChunkMetadata,
    /// Sort order within the document.
    pub sort_order: i32,
}

/// What a `TextChunk` holds, as plain values.
pub struct ChunkView {
    pub content: Seq<char>,
    pub meta: MetaView,
    pub sort_order: int,
}

impl View for TextChunk {
    type V = ChunkView;

    open spec fn view(&self) -> ChunkView {
        ChunkView { content: self.content@, meta: self.metadata@, sort_order: self.sort_order as int }
    }
}

/// The views of a sequence of chunks.
pub open spec fn chunk_views(v: Seq<TextChunk>) -> Seq<ChunkView> {
    v.map_values(|c: TextChunk| c@)
}

impl TextChunk {
    /// Create a new text chunk.
    pub fn new(content: String, metadata: ChunkMetadata, sort_order: i32) -> (r: Self)
        ensures
            r.content == content,
            r.metadata == metadata,
            r.sort_order == sort_order,
    {
        TextChunk { content, metadata, sort_order }
    }
}

/// Every chunk holds text, with no whitespace at either end.
pub open spec fn tidy_chunks(cs: Seq<ChunkView>) -> bool {
    forall|i: int| 0 <= i < cs.len() ==> #[trigger] cs[i].content.len() > 0 && is_trimmed(cs[i].content)
}

/// The chunks are numbered 0, 1, 2, ... in order.
pub open spec fn numbered_in_order(cs: Seq<ChunkView>) -> bool {
    forall|i: int| 0 <= i < cs.len() ==> #[trigger] cs[i].sort_order == i
}

} // verus!
