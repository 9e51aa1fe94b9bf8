//! Resource ceilings of one File API registration.

use vstd::prelude::*;

use crate::error::{FileApiError, ResourceLimitKind};

verus! {

/// The smallest chunk that a read may be split into.
pub const MIN_CHUNK: usize = 16384;

/// The largest chunk that a read may be split into.
pub const MAX_CHUNK: usize = 1048576;

/// Resource ceilings. Every operation works on a copy taken when it started.
#[derive(Clone, Copy, Debug, PartialEq, Eq, Structural)]
pub struct FileApiLimits {
    /// Bytes of one blob.
    pub max_blob_size: u64,
    /// Parts handed to one constructor.
    pub max_parts: usize,
    /// Segments of one blob.
    pub max_segments: usize,
    /// Bytes that one read may materialize, be it asynchronous or synchronous.
    pub max_materialize_bytes: u64,
    /// Bytes of one synchronous read. What it materializes counts against the
    /// ceiling above as well.
    pub max_sync_read_bytes: u64,
    /// Bytes of one data URL.
    pub max_data_url_output: u64,
    /// Bytes of one chunk of a chunked read.
    pub default_chunk_size: usize,
    /// Reads that may run at the same time in one global.
    pub max_concurrent_reads_per_global: usize,
    /// Live blob URLs of one global.
    pub max_blob_urls_per_global: usize,
}

impl FileApiLimits {
    /// Whether the chunk size is one that reads can work with.
    pub open spec fn chunk_size_valid(self) -> bool {
        MIN_CHUNK <= self.default_chunk_size <= MAX_CHUNK
    }

    /// Tests the ceilings: the chunk size has a range of its own.
    pub fn validate(&self) -> (result: Result<(), FileApiError>)
        ensures
            match result {
                Ok(_) => self.chunk_size_valid(),
                Err(error) => !self.chunk_size_valid() && error == FileApiError::ResourceLimit(
                    ResourceLimitKind::MaterializeBytes,
                ),
            },
    {
        if self.default_chunk_size < MIN_CHUNK || self.default_chunk_size > MAX_CHUNK {
            return Err(FileApiError::ResourceLimit(ResourceLimitKind::MaterializeBytes));
        }
        Ok(())
    }
}

/// The ceilings of a registration that names none.
pub open spec fn default_limits() -> FileApiLimits {
    FileApiLimits {
        max_blob_size: 536870912,
        max_parts: 65536,
        max_segments: 65536,
        max_materialize_bytes: 268435456,
        max_sync_read_bytes: 67108864,
        max_data_url_output: 268435456,
        default_chunk_size: 65536,
        max_concurrent_reads_per_global: 64,
        max_blob_urls_per_global: 4096,
    }
}

impl Default for FileApiLimits {
    fn default() -> (limits: FileApiLimits)
        ensures
            limits == default_limits(),
    {
        FileApiLimits {
            max_blob_size: 536870912,
            max_parts: 65536,
            max_segments: 65536,
            max_materialize_bytes: 268435456,
            max_sync_read_bytes: 67108864,
            max_data_url_output: 268435456,
            default_chunk_size: 65536,
            max_concurrent_reads_per_global: 64,
            max_blob_urls_per_global: 4096,
        }
    }
}


/// Limits are accepted exactly when the chunk size lies in its range, ends
/// included.
pub proof fn lemma_chunk_sizes_lie_in_range(limits: FileApiLimits, result: Result<(), FileApiError>)
    requires
        call_ensures(FileApiLimits::validate, (&limits,), result),
    ensures
        result is Ok <==> MIN_CHUNK <= limits.default_chunk_size && limits.default_chunk_size
            <= MAX_CHUNK,
{
}

} // verus!
