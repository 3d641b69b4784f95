//! The allocation directory: block records in metadata pages, and the free
//! list threaded through them.
use vstd::prelude::*;

use crate::map::is_invalid;
use crate::model::{page_count, page_step, DirModel, Region};
use crate::{BLOCK_REF_BLOCK_AMOUNT, BLOCK_REF_BLOCK_SIZE};

verus! {

/// What the directory needs next to answer an allocation request.
#[derive(Clone, Copy, Debug, PartialEq, Eq, Structural)]
pub enum AllocStep {
    /// The request is answered: hand this address to the caller.
    Ready(usize),
    /// Map a metadata page of `BLOCK_REF_BLOCK_SIZE` bytes for a request of
    /// this many bytes, and report the outcome to [`RootNode::page_mapped`].
    MapPage(usize),
    /// Map `size` bytes of data and report the outcome, with `page`, to
    /// [`RootNode::data_mapped`].
    MapData { size: usize, page: Option<usize> },
    /// The request fails. Where a metadata page is given, it was mapped for
    /// this request alone: unmap it.
    Failed(Option<usize>),
}

/// Why a deallocation was refused.
#[derive(Clone, Copy, Debug, PartialEq, Eq, Structural)]
pub enum DeallocError {
    /// No live block starts at the address: it was never handed out, or it
    /// was freed already.
    InvalidPointer,
}

/// One block record: a data mapping and its free-list link.
#[derive(Clone, Copy)]
struct BlockRef {
    start: usize,
    size: usize,
    /// The next record on the free list; meaningful only while `free`.
    next_free_block: Option<usize>,
    free: bool,
}

/// An index link as a model index.
spec fn link(l: Option<usize>) -> Option<int> {
    match l {
        Some(i) => Some(i as int),
        None => None,
    }
}

/// The allocation directory. The records are kept in a `Vec` in chain order;
/// the metadata pages are accounted for, one per started run of
/// `BLOCK_REF_BLOCK_AMOUNT` records (record `i` falls to page
/// `i / BLOCK_REF_BLOCK_AMOUNT`), and are mapped and unmapped by the caller
/// but hold no records themselves.
pub struct RootNode {
    blocks: Vec<BlockRef>,
    br_blocks: Vec<usize>,
    next_free_block: Option<usize>,
    free_list: Ghost<Seq<int>>,
}

impl View for RootNode {
    type V = DirModel;

    closed spec fn view(&self) -> DirModel {
        DirModel {
            blocks: self.blocks@.map_values(|b: BlockRef| Region { addr: b.start, len: b.size }),
            free: self.free_list@,
            pages: self.br_blocks@,
        }
    }
}

impl RootNode {
    /// The model is well formed, the free-list links and flags follow the
    /// model's free list.
    pub closed spec fn wf(&self) -> bool {
        let fl = self.free_list@;
        &&& self@.wf()
        &&& link(self.next_free_block) == (if fl.len() == 0 { None } else { Some(fl[0]) })
        &&& forall|j: int|
            0 <= j < fl.len() ==> link(#[trigger] self.blocks@[fl[j]].next_free_block) == (if j + 1
                < fl.len() {
                Some(fl[j + 1])
            } else {
                None
            })
        &&& forall|i: int|
            0 <= i < self.blocks@.len() ==> (#[trigger] self.blocks@[i].free <==> fl.contains(i))
    }

    /// A well-formed directory has a well-formed model: what the laws over
    /// the model ask for.
    pub proof fn lemma_view_wf(&self)
        requires
            self.wf(),
        ensures
            self@.wf(),
    {
    }

    /// An empty directory.
    pub fn new() -> (r: RootNode)
        ensures
            r.wf(),
            r@.blocks.len() == 0,
            r@.free.len() == 0,
            r@.pages.len() == 0,
    {
        RootNode {
            blocks: Vec::new(),
            br_blocks: Vec::new(),
            next_free_block: None,
            free_list: Ghost(Seq::empty()),
        }
    }

    /// Whether the next record starts a metadata page of its own.
    pub fn needs_metadata_page(&self) -> (r: bool)
        ensures
            r == self@.needs_page(),
    {
        self.blocks.len() % BLOCK_REF_BLOCK_AMOUNT == 0
    }

    /// Starts a request for `size` bytes: a fitting record on the free list
    /// answers it at once; else the directory asks for the mappings that a
    /// new record needs.
    pub fn alloc_inner(&mut self, size: usize) -> (r: AllocStep)
        requires
            old(self).wf(),
            size > 0,
        ensures
            final(self).wf(),
            (final(self)@, r) == old(self)@.alloc_begin(size),
    {
        match self.find_in_free_list(size) {
            Some(addr) => AllocStep::Ready(addr),
            None => {
                if self.needs_metadata_page() {
                    AllocStep::MapPage(size)
                } else {
                    AllocStep::MapData { size, page: None }
                }
            },
        }
    }

    /// Takes the outcome `raw` of the metadata page mapping that
    /// [`AllocStep::MapPage`] asked for.
    pub fn page_mapped(size: usize, raw: usize) -> (r: AllocStep)
        ensures
            r == page_step(size, raw),
    {
        if is_invalid(raw) {
            AllocStep::Failed(None)
        } else {
            AllocStep::MapData { size, page: Some(raw) }
        }
    }

    /// Takes the outcome `raw` of the data mapping that
    /// [`AllocStep::MapData`] asked for, with the metadata page that came
    /// with it. A page mapped for a request whose data mapping then fails is
    /// handed back for release, so the metadata pages never run ahead of the
    /// records.
    pub fn data_mapped(&mut self, size: usize, page: Option<usize>, raw: usize) -> (r: AllocStep)
        requires
            old(self).wf(),
            page is Some <==> old(self)@.needs_page(),
        ensures
            final(self).wf(),
            (final(self)@, r) == old(self)@.data_step(size, page, raw),
    {
        if is_invalid(raw) {
            AllocStep::Failed(page)
        } else {
            self.new_blockref(page, raw, size);
            AllocStep::Ready(raw)
        }
    }

    /// Frees the block that starts at `addr`: the first live record that
    /// starts there goes on the head of the free list. Where no live record
    /// starts there the directory is left as it was and the pointer refused.
    pub fn dealloc(&mut self, addr: usize) -> (r: Result<(), DeallocError>)
        requires
            old(self).wf(),
        ensures
            final(self).wf(),
            match old(self)@.dealloc(addr) {
                Some(m) => r is Ok && final(self)@ == m,
                None => r == Err::<(), DeallocError>(DeallocError::InvalidPointer) && final(self)@
                    == old(self)@,
            },
    {
        let mut i: usize = 0;
        while i < self.blocks.len()
            invariant
                self.wf(),
                *self == *old(self),
                i <= self.blocks@.len(),
                self@.live_index(addr) == self@.live_index_from(addr, i as int),
            decreases self.blocks@.len() - i,
        {
            let block_ref = self.blocks[i];
            proof {
                assert(self.blocks@[i as int] == block_ref);
                assert(self@.blocks[i as int].addr == block_ref.start);
                assert(block_ref.free <==> self@.free.contains(i as int));
            }
            if block_ref.start == addr && !block_ref.free {
                let ghost pre = *self;
                let mut freed = block_ref;
                freed.next_free_block = self.next_free_block;
                freed.free = true;
                self.blocks.set(i, freed);
                self.next_free_block = Some(i);
                self.free_list = Ghost(seq![i as int].add(pre.free_list@));
                proof {
                    lemma_push(pre, *self, i);
                }
                return Ok(());
            }
            i = i + 1;
        }
        Err(DeallocError::InvalidPointer)
    }

    /// The data region of every record, in chain order.
    pub fn blockrefs(&self) -> (r: Vec<Region>)
        ensures
            r@ == self@.blocks,
    {
        let mut r: Vec<Region> = Vec::new();
        let mut i: usize = 0;
        while i < self.blocks.len()
            invariant
                i <= self.blocks@.len(),
                r@ == self@.blocks.subrange(0, i as int),
            decreases self.blocks@.len() - i,
        {
            let block_ref = self.blocks[i];
            r.push(Region { addr: block_ref.start, len: block_ref.size });
            i = i + 1;
            proof {
                assert(r@ =~= self@.blocks.subrange(0, i as int));
            }
        }
        proof {
            assert(self@.blocks.subrange(0, i as int) =~= self@.blocks);
        }
        r
    }

    /// The base address of every metadata page, in chain order.
    pub fn br_blocks(&self) -> (r: Vec<usize>)
        ensures
            r@ == self@.pages,
            self.wf() ==> r@.len() == page_count(self@.blocks.len()),
    {
        let mut r: Vec<usize> = Vec::new();
        let mut i: usize = 0;
        while i < self.br_blocks.len()
            invariant
                i <= self.br_blocks@.len(),
                r@ == self@.pages.subrange(0, i as int),
            decreases self.br_blocks@.len() - i,
        {
            r.push(self.br_blocks[i]);
            i = i + 1;
            proof {
                assert(r@ =~= self@.pages.subrange(0, i as int));
            }
        }
        proof {
            assert(self@.pages.subrange(0, i as int) =~= self@.pages);
        }
        r
    }

    /// Ends the directory and lists what it held, to be unmapped: the data
    /// region of every record, free or live, in chain order, then every
    /// metadata page.
    pub fn cleanup(self) -> (r: Vec<Region>)
        ensures
            r@ == self@.teardown(),
            self.wf() ==> r@.len() == self@.blocks.len() + page_count(self@.blocks.len()),
    {
        let mut r = self.blockrefs();
        let pages = self.br_blocks();
        let mut k: usize = 0;
        while k < pages.len()
            invariant
                k <= pages@.len(),
                pages@ == self@.pages,
                r@ == self@.blocks + self@.pages.subrange(0, k as int).map_values(
                    |p: usize| Region { addr: p, len: BLOCK_REF_BLOCK_SIZE },
                ),
            decreases pages@.len() - k,
        {
            r.push(Region { addr: pages[k], len: BLOCK_REF_BLOCK_SIZE });
            k = k + 1;
            proof {
                assert(self@.pages.subrange(0, k as int).map_values(
                    |p: usize| Region { addr: p, len: BLOCK_REF_BLOCK_SIZE },
                ) =~= self@.pages.subrange(0, k - 1).map_values(
                    |p: usize| Region { addr: p, len: BLOCK_REF_BLOCK_SIZE },
                ).push(Region { addr: pages@[k - 1], len: BLOCK_REF_BLOCK_SIZE }));
                assert(r@ =~= self@.blocks + self@.pages.subrange(0, k as int).map_values(
                    |p: usize| Region { addr: p, len: BLOCK_REF_BLOCK_SIZE },
                ));
            }
        }
        proof {
            assert(self@.pages.subrange(0, k as int) =~= self@.pages);
        }
        r
    }

    /// Appends a record for the region at `start` of `size` bytes to the
    /// chain, after adding the metadata page `page` where the record starts
    /// one.
    fn new_blockref(&mut self, page: Option<usize>, start: usize, size: usize)
        requires
            old(self).wf(),
            page is Some <==> old(self)@.needs_page(),
        ensures
            final(self).wf(),
            final(self)@ == old(self)@.add_block(page, Region { addr: start, len: size }),
    {
        let ghost pre = *self;
        if let Some(p) = page {
            self.br_blocks.push(p);
        }
        self.blocks.push(BlockRef { start, size, next_free_block: None, free: false });
        proof {
            let n = pre.blocks@.len();
            assert(self@.blocks =~= pre@.blocks.push(Region { addr: start, len: size }));
            assert(self@ =~= pre@.add_block(page, Region { addr: start, len: size }));
            let fl = self.free_list@;
            assert forall|j: int| 0 <= j < fl.len() implies link(
                #[trigger] self.blocks@[fl[j]].next_free_block,
            ) == (if j + 1 < fl.len() {
                Some(fl[j + 1])
            } else {
                None
            }) by {
                assert(self.blocks@[fl[j]] == pre.blocks@[fl[j]]);
            }
            assert forall|i: int| 0 <= i < self.blocks@.len() implies (
            #[trigger] self.blocks@[i].free <==> fl.contains(i)) by {
                if i < n {
                    assert(self.blocks@[i] == pre.blocks@[i]);
                } else {
                    if fl.contains(i) {
                        let k = choose|k: int| 0 <= k < fl.len() && fl[k] == i;
                        assert(fl[k] < n);
                    }
                }
            }
        }
    }

    /// Takes the first record on the free list that holds at least `size`
    /// bytes off the list and returns its address.
    pub fn find_in_free_list(&mut self, size: usize) -> (r: Option<usize>)
        requires
            old(self).wf(),
        ensures
            final(self).wf(),
            match old(self)@.first_fit(size) {
                Some(j) => {
                    &&& r == Some(old(self)@.blocks[old(self)@.free[j]].addr)
                    &&& final(self)@ == old(self)@.take_free(j)
                },
                None => r is None && final(self)@ == old(self)@,
            },
    {
        let mut current = match self.next_free_block {
            Some(c) => c,
            None => {
                return None;
            },
        };
        let mut prev: Option<usize> = None;
        let ghost mut j: int = 0;
        loop
            invariant
                self.wf(),
                *self == *old(self),
                0 <= j < self@.free.len(),
                current as int == self@.free[j],
                link(prev) == (if j == 0 { None } else { Some(self@.free[j - 1]) }),
                self@.first_fit(size) == self@.first_fit_from(size, j),
            decreases self@.free.len() - j,
        {
            let block_ref = self.blocks[current];
            proof {
                assert(self.blocks@[current as int] == block_ref);
                assert(self@.blocks[current as int].len == block_ref.size);
            }
            if size <= block_ref.size {
                let ghost pre = *self;
                match prev {
                    None => {
                        self.next_free_block = block_ref.next_free_block;
                    },
                    Some(p) => {
                        let mut prev_ref = self.blocks[p];
                        prev_ref.next_free_block = block_ref.next_free_block;
                        self.blocks.set(p, prev_ref);
                    },
                }
                let mut taken = block_ref;
                taken.next_free_block = None;
                taken.free = false;
                self.blocks.set(current, taken);
                self.free_list = Ghost(pre.free_list@.remove(j));
                proof {
                    lemma_unlink(pre, *self, j);
                }
                return Some(block_ref.start);
            }
            match block_ref.next_free_block {
                Some(next) => {
                    prev = Some(current);
                    current = next;
                    proof {
                        j = j + 1;
                    }
                },
                None => {
                    proof {
                        assert(link(self.blocks@[self@.free[j]].next_free_block) == (if j + 1
                            < self@.free.len() {
                            Some(self@.free[j + 1])
                        } else {
                            None
                        }));
                        assert(self@.first_fit_from(size, j + 1) is None);
                    }
                    return None;
                },
            }
        }
    }
}

/// Pushing record `i`, live before, on the head of the free list leaves a
/// well-formed directory whose model has it there.
proof fn lemma_push(pre: RootNode, post: RootNode, i: usize)
    requires
        pre.wf(),
        pre@.is_live(i as int),
        post.free_list@ == seq![i as int].add(pre.free_list@),
        post.br_blocks@ == pre.br_blocks@,
        post.next_free_block == Some(i),
        post.blocks@ == pre.blocks@.update(
            i as int,
            BlockRef { next_free_block: pre.next_free_block, free: true, ..pre.blocks@[i as int] },
        ),
    ensures
        post.wf(),
        post@ == pre@.push_free(i as int),
{
    let i = i as int;
    let fl = pre.free_list@;
    let nf = post.free_list@;
    assert(post@.blocks =~= pre@.blocks);
    assert(post@ =~= pre@.push_free(i));
    assert forall|k: int| 0 <= k < fl.len() implies fl[k] != i by {
        assert(fl.contains(fl[k]));
    }
    assert forall|a: int, b: int| 0 <= a < b < nf.len() implies nf[a] != nf[b] by {
        if a > 0 {
            assert(nf[a] == fl[a - 1]);
        }
        assert(nf[b] == fl[b - 1]);
    }
    assert(nf.no_duplicates());
    assert forall|x: int| nf.contains(x) <==> (x == i || fl.contains(x)) by {
        if fl.contains(x) {
            let m = choose|m: int| 0 <= m < fl.len() && fl[m] == x;
            assert(nf[m + 1] == x);
        }
        if nf.contains(x) && x != i {
            let k = choose|k: int| 0 <= k < nf.len() && nf[k] == x;
            assert(fl[k - 1] == x);
        }
        if x == i {
            assert(nf[0] == i);
        }
    }
    assert forall|x: int| 0 <= x < post.blocks@.len() implies (#[trigger] post.blocks@[x].free
        <==> nf.contains(x)) by {
        if x != i {
            assert(pre.blocks@[x].free <==> fl.contains(x));
        }
    }
    assert forall|k: int| 0 <= k < nf.len() implies link(#[trigger] post.blocks@[nf[k]].next_free_block)
        == (if k + 1 < nf.len() { Some(nf[k + 1]) } else { None }) by {
        if k == 0 {
            assert(link(pre.next_free_block) == (if fl.len() == 0 { None } else { Some(fl[0]) }));
        } else {
            assert(nf[k] == fl[k - 1]);
            assert(link(pre.blocks@[fl[k - 1]].next_free_block) == (if k < fl.len() { Some(fl[k]) } else { None }));
        }
    }
}

/// Taking the entry at position `j` off the free list, by pointing its
/// predecessor (or the head) at its successor and clearing its own link and
/// flag, leaves a well-formed directory whose model lacks that entry.
proof fn lemma_unlink(pre: RootNode, post: RootNode, j: int)
    requires
        pre.wf(),
        0 <= j < pre.free_list@.len(),
        post.free_list@ == pre.free_list@.remove(j),
        post.br_blocks@ == pre.br_blocks@,
        post.blocks@.len() == pre.blocks@.len(),
        ({
            let fl = pre.free_list@;
            let c = fl[j];
            let nxt = pre.blocks@[c].next_free_block;
            &&& post.blocks@[c] == (BlockRef { next_free_block: None, free: false, ..pre.blocks@[c] })
            &&& j == 0 ==> post.next_free_block == nxt
            &&& j > 0 ==> {
                &&& post.next_free_block == pre.next_free_block
                &&& post.blocks@[fl[j - 1]] == (BlockRef {
                    next_free_block: nxt,
                    ..pre.blocks@[fl[j - 1]]
                })
            }
            &&& forall|i: int|
                0 <= i < pre.blocks@.len() && i != c && (j == 0 || i != fl[j - 1])
                    ==> post.blocks@[i] == pre.blocks@[i]
        }),
    ensures
        post.wf(),
        post@ == pre@.take_free(j),
{
    let fl = pre.free_list@;
    let nf = fl.remove(j);
    let c = fl[j];
    let n = pre.blocks@.len();
    fl.remove_ensures(j);
    assert forall|i: int| 0 <= i < n implies post.blocks@[i].start == pre.blocks@[i].start
        && post.blocks@[i].size == pre.blocks@[i].size by {
        if i != c && (j == 0 || i != fl[j - 1]) {
            assert(post.blocks@[i] == pre.blocks@[i]);
        }
    }
    assert(post@.blocks =~= pre@.blocks);
    assert(post@ =~= pre@.take_free(j));
    assert forall|a: int, b: int| 0 <= a < b < nf.len() implies nf[a] != nf[b] by {
        let ia = if a < j { a } else { a + 1 };
        let ib = if b < j { b } else { b + 1 };
        assert(nf[a] == fl[ia]);
        assert(nf[b] == fl[ib]);
    }
    assert(nf.no_duplicates());
    assert forall|k: int| 0 <= k < nf.len() implies nf[k] != c by {
        let ik = if k < j { k } else { k + 1 };
        assert(nf[k] == fl[ik]);
    }
    assert forall|i: int| i != c implies (nf.contains(i) <==> fl.contains(i)) by {
        if nf.contains(i) {
            let k = choose|k: int| 0 <= k < nf.len() && nf[k] == i;
            let ik = if k < j { k } else { k + 1 };
            assert(fl[ik] == i);
        }
        if fl.contains(i) {
            let m = choose|m: int| 0 <= m < fl.len() && fl[m] == i;
            let k = if m < j { m } else { m - 1 };
            assert(nf[k] == i);
        }
    }
    assert(!nf.contains(c));
    assert forall|i: int| 0 <= i < n implies (#[trigger] post.blocks@[i].free <==> nf.contains(i)) by {
        if i != c && (j == 0 || i != fl[j - 1]) {
            assert(post.blocks@[i] == pre.blocks@[i]);
        }
        assert(pre.blocks@[i].free <==> fl.contains(i));
        if j > 0 && i == fl[j - 1] {
            assert(fl.contains(i));
        }
    }
    assert forall|k: int| 0 <= k < nf.len() implies link(#[trigger] post.blocks@[nf[k]].next_free_block)
        == (if k + 1 < nf.len() { Some(nf[k + 1]) } else { None }) by {
        let ik = if k < j { k } else { k + 1 };
        assert(nf[k] == fl[ik]);
        assert(link(pre.blocks@[fl[ik]].next_free_block) == (if ik + 1 < fl.len() { Some(fl[ik + 1]) } else { None }));
        if k == j - 1 {
            assert(link(pre.blocks@[c].next_free_block) == (if j + 1 < fl.len() { Some(fl[j + 1]) } else { None }));
        } else {
            assert(fl[ik] != c);
            assert(post.blocks@[nf[k]] == pre.blocks@[nf[k]]);
        }
    }
    if j == 0 {
        assert(link(pre.blocks@[fl[0]].next_free_block) == (if 1 < fl.len() { Some(fl[1]) } else { None }));
    }
}

} // verus!
