//! Options for creating or opening an image.

use vstd::prelude::*;

use crate::compress::{Compression, DEFAULT_RECORD_BLOCKS};
use crate::format::{DEFAULT_CACHE_BLOCKS, DEFAULT_INITIAL_BLOCKS, DEFAULT_JOURNAL_BLOCKS};

verus! {

/// How aggressively metadata is flushed to the host file.
#[derive(Debug, Clone, Copy, PartialEq, Eq, Structural)]
pub enum SyncMode {
    /// Buffer everything until a sync or unmount.
    Deferred,
    /// Journal metadata; write file data before the inode update (default).
    Ordered,
    /// Sync the image after each metadata transaction.
    Full,
}

/// Options for creating or opening an image.
#[derive(Debug, Clone, Copy, PartialEq, Eq, Structural)]
pub struct CreateOptions {
    pub journal_blocks: u32,
    pub initial_blocks: u64,
    pub cache_blocks: usize,
    pub sync: SyncMode,
    /// Algorithm used for new files. Existing records keep their own algorithm.
    pub compression: Compression,
    /// Logical 4 KiB blocks per compression record (clamped to 2..=32, power of two).
    pub record_blocks: u32,
}

/// The default options.
pub open spec fn default_options() -> CreateOptions {
    CreateOptions {
        journal_blocks: DEFAULT_JOURNAL_BLOCKS,
        initial_blocks: DEFAULT_INITIAL_BLOCKS,
        cache_blocks: DEFAULT_CACHE_BLOCKS,
        sync: SyncMode::Ordered,
        compression: Compression::Off,
        record_blocks: DEFAULT_RECORD_BLOCKS,
    }
}

impl Default for CreateOptions {
    fn default() -> (o: Self)
        ensures
            o == default_options(),
    {
        Self {
            journal_blocks: DEFAULT_JOURNAL_BLOCKS,
            initial_blocks: DEFAULT_INITIAL_BLOCKS,
            cache_blocks: DEFAULT_CACHE_BLOCKS,
            sync: SyncMode::Ordered,
            compression: Compression::Off,
            record_blocks: DEFAULT_RECORD_BLOCKS,
        }
    }
}

impl CreateOptions {
    pub fn new() -> (o: Self)
        ensures
            o == default_options(),
    {
        Self::default()
    }

    pub fn journal_blocks(self, n: u32) -> (o: Self)
        ensures
            o == (CreateOptions { journal_blocks: n, ..self }),
    {
        Self { journal_blocks: n, ..self }
    }

    pub fn initial_blocks(self, n: u64) -> (o: Self)
        ensures
            o == (CreateOptions { initial_blocks: n, ..self }),
    {
        Self { initial_blocks: n, ..self }
    }

    pub fn cache_blocks(self, n: usize) -> (o: Self)
        ensures
            o == (CreateOptions { cache_blocks: n, ..self }),
    {
        Self { cache_blocks: n, ..self }
    }

    pub fn sync(self, mode: SyncMode) -> (o: Self)
        ensures
            o == (CreateOptions { sync: mode, ..self }),
    {
        Self { sync: mode, ..self }
    }

    /// Enables record compression.
    pub fn compression(self, compression: Compression) -> (o: Self)
        ensures
            o == (CreateOptions { compression, ..self }),
    {
        Self { compression, ..self }
    }

    pub fn record_blocks(self, n: u32) -> (o: Self)
        ensures
            o == (CreateOptions { record_blocks: n, ..self }),
    {
        Self { record_blocks: n, ..self }
    }
}

} // verus!
