//! A bookkeeping core for an allocator that backs every allocation with a
//! mapping of its own.
//!
//! The directory ([`RootNode`]) records each data mapping in a chain of block
//! records, accounts one fixed-capacity metadata page for every started run
//! of records, keeps freed records on a free list for first-fit reuse, and
//! finds a record again by its address when it is freed. The records
//! themselves are kept in an ordinary vector; the metadata pages are mapped
//! and released as the chain grows and ends, but hold no records. Mapping and unmapping memory is left to the caller: the
//! directory says which mapping it needs next ([`AllocStep`]) and is told the
//! outcome.
use vstd::prelude::*;

pub mod map;
pub mod directory;
pub mod laws;
pub mod model;

pub use directory::{AllocStep, DeallocError, RootNode};
pub use map::is_invalid;
pub use model::{page_count, DirModel, Region};

verus! {

/// Bytes in one metadata page.
pub const BLOCK_REF_BLOCK_SIZE: usize = 4096;

/// Bytes that one block record is counted as in a metadata page: its start,
/// its size and its two links, one machine word each.
pub const BLOCK_REF_SIZE: usize = 32;

/// Block records that one metadata page accounts for.
pub const BLOCK_REF_BLOCK_AMOUNT: usize = BLOCK_REF_BLOCK_SIZE / BLOCK_REF_SIZE;

/// The adapter between the directory and an allocator interface that asks
/// for memory by layout: a size and an alignment. The directory serves sizes
/// only; its mappings start on page boundaries, which is all the alignment it
/// gives.
pub struct Awwoc;

impl Awwoc {
    /// Starts an allocation for a layout of `size` bytes aligned to `_align`.
    /// A request for no bytes fails: the directory serves non-empty blocks
    /// only.
    pub fn allocate(&self, root: &mut RootNode, size: usize, _align: usize) -> (r: AllocStep)
        requires
            old(root).wf(),
        ensures
            final(root).wf(),
            size == 0 ==> r == AllocStep::Failed(None) && final(root)@ == old(root)@,
            size > 0 ==> (final(root)@, r) == old(root)@.alloc_begin(size),
    {
        if size == 0 {
            AllocStep::Failed(None)
        } else {
            root.alloc_inner(size)
        }
    }

    /// Frees the block at `addr`, allocated for a layout of `_size` bytes
    /// aligned to `_align`; the directory goes by the address alone.
    pub fn deallocate(
        &self,
        root: &mut RootNode,
        addr: usize,
        _size: usize,
        _align: usize,
    ) -> (r: Result<(), DeallocError>)
        requires
            old(root).wf(),
        ensures
            final(root).wf(),
            match old(root)@.dealloc(addr) {
                Some(m) => r is Ok && final(root)@ == m,
                None => r == Err::<(), DeallocError>(DeallocError::InvalidPointer) && final(root)@
                    == old(root)@,
            },
    {
        root.dealloc(addr)
    }
}

} // verus!
