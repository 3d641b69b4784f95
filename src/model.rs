//! The mathematical model of the allocation directory.
//!
//! A directory is seen as three sequences: the data region of every block
//! record in chain order, the free list as record indices from its head, and
//! the base address of every metadata page. Each operation of the directory
//! is a transition on this model.
use vstd::prelude::*;

use crate::directory::AllocStep;
use crate::map::invalid_addr;
use crate::{BLOCK_REF_BLOCK_AMOUNT, BLOCK_REF_BLOCK_SIZE};

verus! {

/// A mapped range of memory: its first address and its length in bytes.
#[derive(Clone, Copy, Debug, PartialEq, Eq, Structural)]
pub struct Region {
    pub addr: usize,
    pub len: usize,
}

/// How many metadata pages hold `n` block records.
pub open spec fn page_count(n: nat) -> nat {
    ((n + BLOCK_REF_BLOCK_AMOUNT - 1) / (BLOCK_REF_BLOCK_AMOUNT as int)) as nat
}

/// The state of an allocation directory.
pub struct DirModel {
    /// The data region of each block record, in chain order.
    pub blocks: Seq<Region>,
    /// The records on the free list, by index into `blocks`, from its head.
    pub free: Seq<int>,
    /// The base address of each metadata page, in chain order.
    pub pages: Seq<usize>,
}

impl DirModel {
    /// One metadata page for every started run of `BLOCK_REF_BLOCK_AMOUNT`
    /// records, and a free list of distinct records.
    pub open spec fn wf(self) -> bool {
        &&& self.pages.len() == page_count(self.blocks.len())
        &&& self.free.no_duplicates()
        &&& forall|j: int| 0 <= j < self.free.len() ==> 0 <= #[trigger] self.free[j] < self.blocks.len()
    }

    /// Record `i` is in use by a caller: it exists and is not on the free list.
    pub open spec fn is_live(self, i: int) -> bool {
        0 <= i < self.blocks.len() && !self.free.contains(i)
    }

    /// The next record starts a metadata page of its own.
    pub open spec fn needs_page(self) -> bool {
        self.blocks.len() % (BLOCK_REF_BLOCK_AMOUNT as nat) == 0
    }

    /// The first position on the free list, from `j` on, whose record holds at
    /// least `size` bytes.
    pub open spec fn first_fit_from(self, size: usize, j: int) -> Option<int>
        decreases self.free.len() - j,
    {
        if 0 <= j < self.free.len() {
            if size <= self.blocks[self.free[j]].len {
                Some(j)
            } else {
                self.first_fit_from(size, j + 1)
            }
        } else {
            None
        }
    }

    /// The first position on the free list whose record holds at least `size`
    /// bytes.
    pub open spec fn first_fit(self, size: usize) -> Option<int> {
        self.first_fit_from(size, 0)
    }

    /// The first live record, from index `i` on, whose region starts at `addr`.
    pub open spec fn live_index_from(self, addr: usize, i: int) -> Option<int>
        decreases self.blocks.len() - i,
    {
        if 0 <= i < self.blocks.len() {
            if self.blocks[i].addr == addr && !self.free.contains(i) {
                Some(i)
            } else {
                self.live_index_from(addr, i + 1)
            }
        } else {
            None
        }
    }

    /// The first live record whose region starts at `addr`.
    pub open spec fn live_index(self, addr: usize) -> Option<int> {
        self.live_index_from(addr, 0)
    }

    /// The free list without its entry at position `j`.
    pub open spec fn take_free(self, j: int) -> DirModel {
        DirModel { free: self.free.remove(j), ..self }
    }

    /// The free list with record `i` pushed on its head.
    pub open spec fn push_free(self, i: int) -> DirModel {
        DirModel { free: seq![i].add(self.free), ..self }
    }

    /// A new record for `region` at the end of the chain, and the metadata
    /// page `page` after the others where one is given.
    pub open spec fn add_block(self, page: Option<usize>, region: Region) -> DirModel {
        DirModel {
            blocks: self.blocks.push(region),
            pages: match page {
                Some(p) => self.pages.push(p),
                None => self.pages,
            },
            ..self
        }
    }

    /// A request for `size` bytes: the first free record that fits is taken
    /// off the free list and its address handed out; with none, the
    /// directory asks for a metadata page where the next record starts one,
    /// else for the data mapping.
    pub open spec fn alloc_begin(self, size: usize) -> (DirModel, AllocStep) {
        match self.first_fit(size) {
            Some(j) => (self.take_free(j), AllocStep::Ready(self.blocks[self.free[j]].addr)),
            None => (
                self,
                if self.needs_page() {
                    AllocStep::MapPage(size)
                } else {
                    AllocStep::MapData { size, page: None }
                },
            ),
        }
    }

    /// The outcome `raw` of the data mapping for a request of `size` bytes,
    /// with `page` the metadata page mapped for it, if any: a failed mapping
    /// fails the request and hands the page back for release; else a new
    /// record for the region ends the chain and its address is handed out.
    pub open spec fn data_step(self, size: usize, page: Option<usize>, raw: usize) -> (DirModel, AllocStep) {
        if invalid_addr(raw) {
            (self, AllocStep::Failed(page))
        } else {
            (self.add_block(page, Region { addr: raw, len: size }), AllocStep::Ready(raw))
        }
    }

    /// Freeing `addr`: the first live record that starts there goes on the
    /// head of the free list; `None` where no live record starts there.
    pub open spec fn dealloc(self, addr: usize) -> Option<DirModel> {
        match self.live_index(addr) {
            Some(i) => Some(self.push_free(i)),
            None => None,
        }
    }

    /// The regions that teardown releases: every record's data region in
    /// chain order, then every metadata page.
    pub open spec fn teardown(self) -> Seq<Region> {
        self.blocks + self.pages.map_values(|p: usize| Region { addr: p, len: BLOCK_REF_BLOCK_SIZE })
    }
}

/// The outcome `raw` of the metadata page mapping for a request of `size`
/// bytes: a failed mapping fails the request, else the data mapping is next.
pub open spec fn page_step(size: usize, raw: usize) -> AllocStep {
    if invalid_addr(raw) {
        AllocStep::Failed(None)
    } else {
        AllocStep::MapData { size, page: Some(raw) }
    }
}

} // verus!
