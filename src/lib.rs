//! A logically contiguous byte buffer built from separate chunks.
//!
//! `BufVecDeque` keeps an ordered run of chunks and reads them as one
//! stream; `BytesDeque` stores a single shared `Bytes` view directly and
//! switches to a `BufVecDeque` of views only while it holds several.

mod buf_vec_deque;
mod bytes_deque;
mod chunk;
mod runs;
mod shared;

pub use buf_vec_deque::{lemma_back_change_len, BufVecDeque};
pub use bytes_deque::{
    lemma_advance_drops_prefix, lemma_extends_concatenate, lemma_get_bytes_takes_prefix,
    lemma_single_multi_single, total_len, BytesDeque,
};
pub use chunk::{Chunk, GetBytes, PlainChunk};
pub use runs::{
    advanced, flatten, joined, lemma_flatten_cons, lemma_flatten_front, lemma_flatten_prefix_len,
    lemma_flatten_push, lemma_flatten_split,
};
pub use shared::bytes_content;
