//! Properties of the directory that relate several of its operations.
use vstd::prelude::*;

use crate::directory::AllocStep;
use crate::map::invalid_addr;
use crate::model::{page_count, DirModel, Region};
use crate::BLOCK_REF_BLOCK_SIZE;

verus! {

/// Two regions share no byte.
pub open spec fn regions_disjoint(a: Region, b: Region) -> bool {
    a.addr + a.len <= b.addr || b.addr + b.len <= a.addr
}

/// No two records' data regions share a byte.
pub open spec fn blocks_disjoint(m: DirModel) -> bool {
    forall|i: int, k: int|
        0 <= i < m.blocks.len() && 0 <= k < m.blocks.len() && i != k ==> regions_disjoint(
            #[trigger] m.blocks[i],
            #[trigger] m.blocks[k],
        )
}

proof fn lemma_first_fit_from(m: DirModel, size: usize, j: int)
    requires
        0 <= j,
    ensures
        match m.first_fit_from(size, j) {
            Some(f) => {
                &&& j <= f < m.free.len()
                &&& size <= m.blocks[m.free[f]].len
                &&& forall|l: int| j <= l < f ==> m.blocks[m.free[l]].len < size
            },
            None => forall|l: int| j <= l < m.free.len() ==> m.blocks[m.free[l]].len < size,
        },
    decreases m.free.len() - j,
{
    if j < m.free.len() && m.blocks[m.free[j]].len < size {
        lemma_first_fit_from(m, size, j + 1);
    }
}

proof fn lemma_live_index_from(m: DirModel, addr: usize, i: int)
    requires
        0 <= i,
    ensures
        match m.live_index_from(addr, i) {
            Some(f) => {
                &&& i <= f < m.blocks.len()
                &&& m.blocks[f].addr == addr
                &&& !m.free.contains(f)
                &&& forall|l: int| i <= l < f ==> !(m.blocks[l].addr == addr && !m.free.contains(l))
            },
            None => forall|l: int|
                i <= l < m.blocks.len() ==> !(m.blocks[l].addr == addr && !m.free.contains(l)),
        },
    decreases m.blocks.len() - i,
{
    if i < m.blocks.len() && !(m.blocks[i].addr == addr && !m.free.contains(i)) {
        lemma_live_index_from(m, addr, i + 1);
    }
}

/// First fit by encounter order: a request takes the first record on the free
/// list, from its head, that holds at least the requested size, however much
/// larger it is; where none does, it takes none.
pub proof fn lemma_first_fit(m: DirModel, size: usize)
    ensures
        match m.first_fit(size) {
            Some(j) => {
                &&& 0 <= j < m.free.len()
                &&& size <= m.blocks[m.free[j]].len
                &&& forall|l: int| 0 <= l < j ==> m.blocks[m.free[l]].len < size
            },
            None => forall|l: int| 0 <= l < m.free.len() ==> m.blocks[m.free[l]].len < size,
        },
{
    lemma_first_fit_from(m, size, 0);
}

/// A request never takes a free record that is smaller than it: a record of
/// fewer bytes than asked for is skipped, and the address handed out is that
/// of a record at least as large as the request, or a fresh mapping.
pub proof fn lemma_small_block_skipped(m: DirModel, i: int, size: usize)
    requires
        m.wf(),
        0 <= i < m.blocks.len(),
        m.blocks[i].len < size,
    ensures
        match m.first_fit(size) {
            Some(j) => m.free[j] != i && size <= m.blocks[m.free[j]].len,
            None => m.alloc_begin(size).1 !is Ready,
        },
{
    lemma_first_fit(m, size);
}

/// Freed-block reuse: after the block at `addr` is freed, a request of at most
/// its size is answered with `addr` again, and the directory is back where it
/// was before the free.
pub proof fn lemma_freed_block_reused(m: DirModel, addr: usize, size: usize)
    requires
        m.wf(),
        m.live_index(addr) matches Some(i) && size <= m.blocks[i].len,
    ensures
        m.dealloc(addr) matches Some(f) && f.alloc_begin(size) == (m, AllocStep::Ready(addr)),
{
    lemma_live_index_from(m, addr, 0);
    let i = m.live_index(addr)->0;
    let f = m.push_free(i);
    assert(f.free[0] == i);
    assert(f.first_fit(size) == Some(0int));
    assert(f.take_free(0).free =~= m.free);
    assert(f.take_free(0) =~= m);
}

/// Freeing is refused exactly where no live record starts at the address:
/// one never handed out, or one freed already.
pub proof fn lemma_invalid_free_refused(m: DirModel, addr: usize)
    ensures
        m.dealloc(addr) is None <==> !(exists|i: int| m.is_live(i) && #[trigger] m.blocks[i].addr == addr),
{
    lemma_live_index_from(m, addr, 0);
    if m.dealloc(addr) is Some {
        let i = m.live_index(addr)->0;
        assert(m.is_live(i) && m.blocks[i].addr == addr);
    }
}

/// Freeing the same address twice is refused the second time, where no two
/// records start at one address (as is so of mappings that are never
/// released while the directory lives).
pub proof fn lemma_double_free_refused(m: DirModel, addr: usize)
    requires
        m.wf(),
        m.dealloc(addr) is Some,
        forall|i: int, k: int|
            0 <= i < m.blocks.len() && 0 <= k < m.blocks.len() && #[trigger] m.blocks[i].addr
                == #[trigger] m.blocks[k].addr ==> i == k,
    ensures
        m.dealloc(addr)->0.dealloc(addr) is None,
{
    lemma_live_index_from(m, addr, 0);
    let i = m.live_index(addr)->0;
    let f = m.push_free(i);
    lemma_invalid_free_refused(f, addr);
    if exists|k: int| f.is_live(k) && #[trigger] f.blocks[k].addr == addr {
        let k = choose|k: int| f.is_live(k) && #[trigger] f.blocks[k].addr == addr;
        assert(f.free[0] == i);
        assert(f.free.contains(i));
    }
}

/// A block handed out from the free list is one that no caller held: its
/// record was free and is live after, holds at least the requested size, and
/// no other record changes state.
pub proof fn lemma_reuse_exclusive(m: DirModel, size: usize)
    requires
        m.wf(),
        m.first_fit(size) is Some,
    ensures
        ({
            let i = m.free[m.first_fit(size)->0];
            let (n, step) = m.alloc_begin(size);
            &&& step == AllocStep::Ready(m.blocks[i].addr)
            &&& size <= m.blocks[i].len
            &&& !m.is_live(i) && n.is_live(i)
            &&& n.blocks == m.blocks
            &&& forall|k: int| k != i ==> n.is_live(k) == m.is_live(k)
        }),
{
    lemma_first_fit(m, size);
    let j = m.first_fit(size)->0;
    let i = m.free[j];
    let n = m.alloc_begin(size).0;
    m.free.remove_ensures(j);
    assert(m.free.contains(i));
    assert forall|k: int| k != i implies n.free.contains(k) == m.free.contains(k) by {
        if m.free.contains(k) {
            let l = choose|l: int| 0 <= l < m.free.len() && m.free[l] == k;
            if l < j {
                assert(n.free[l] == k);
            } else {
                assert(n.free[l - 1] == k);
            }
        }
        if n.free.contains(k) {
            let l = choose|l: int| 0 <= l < n.free.len() && n.free[l] == k;
            if l < j {
                assert(m.free[l] == k);
            } else {
                assert(m.free[l + 1] == k);
            }
        }
    }
    if n.free.contains(i) {
        let l = choose|l: int| 0 <= l < n.free.len() && n.free[l] == i;
        if l < j {
            assert(m.free[l] == i);
        } else {
            assert(m.free[l + 1] == i);
        }
    }
}

/// A block handed out from a fresh mapping gets a record of its own, live and
/// holding the region that was mapped; no other record changes state.
pub proof fn lemma_fresh_block_exclusive(m: DirModel, size: usize, page: Option<usize>, raw: usize)
    requires
        m.wf(),
        !invalid_addr(raw),
    ensures
        ({
            let (n, step) = m.data_step(size, page, raw);
            let i = m.blocks.len() as int;
            &&& step == AllocStep::Ready(raw)
            &&& n.blocks == m.blocks.push(Region { addr: raw, len: size })
            &&& !m.is_live(i) && n.is_live(i)
            &&& forall|k: int| k != i ==> n.is_live(k) == m.is_live(k)
        }),
{
    let i = m.blocks.len() as int;
    if m.free.contains(i) {
        let l = choose|l: int| 0 <= l < m.free.len() && m.free[l] == i;
        assert(m.free[l] < m.blocks.len());
    }
}

/// Freeing takes back a block that a caller held: its record was live and is
/// free after; no other record changes state.
pub proof fn lemma_free_exclusive(m: DirModel, addr: usize)
    requires
        m.wf(),
        m.dealloc(addr) is Some,
    ensures
        ({
            let i = m.live_index(addr)->0;
            let n = m.dealloc(addr)->0;
            &&& m.blocks[i].addr == addr
            &&& m.is_live(i) && !n.is_live(i)
            &&& n.blocks == m.blocks
            &&& forall|k: int| k != i ==> n.is_live(k) == m.is_live(k)
        }),
{
    lemma_live_index_from(m, addr, 0);
    let i = m.live_index(addr)->0;
    let n = m.push_free(i);
    assert(n.free[0] == i);
    assert forall|k: int| k != i implies n.free.contains(k) == m.free.contains(k) by {
        if m.free.contains(k) {
            let l = choose|l: int| 0 <= l < m.free.len() && m.free[l] == k;
            assert(n.free[l + 1] == k);
        }
        if n.free.contains(k) {
            let l = choose|l: int| 0 <= l < n.free.len() && n.free[l] == k;
            assert(m.free[l - 1] == k);
        }
    }
}

/// Live blocks never overlap: where the records' regions are disjoint and each
/// fresh mapping is disjoint from them, they stay disjoint through every
/// step, and a free list that only hands out and takes back whole records
/// leaves them as they are.
pub proof fn lemma_blocks_stay_disjoint(m: DirModel, size: usize, page: Option<usize>, raw: usize, addr: usize)
    requires
        m.wf(),
        blocks_disjoint(m),
        forall|i: int| 0 <= i < m.blocks.len() ==> regions_disjoint(
            #[trigger] m.blocks[i],
            Region { addr: raw, len: size },
        ),
    ensures
        blocks_disjoint(m.alloc_begin(size).0),
        blocks_disjoint(m.data_step(size, page, raw).0),
        m.dealloc(addr) matches Some(n) ==> blocks_disjoint(n),
{
    let n = m.data_step(size, page, raw).0;
    let len = m.blocks.len() as int;
    if !invalid_addr(raw) {
        assert forall|i: int, k: int|
            0 <= i < n.blocks.len() && 0 <= k < n.blocks.len() && i != k implies regions_disjoint(
            #[trigger] n.blocks[i],
            #[trigger] n.blocks[k],
        ) by {
            if i < len && k < len {
                assert(regions_disjoint(m.blocks[i], m.blocks[k]));
            } else if i < len {
                assert(regions_disjoint(m.blocks[i], Region { addr: raw, len: size }));
            } else {
                assert(regions_disjoint(m.blocks[k], Region { addr: raw, len: size }));
            }
        }
    }
}

/// Teardown releases every data region once, each record's in chain order,
/// then exactly one metadata page for every started run of
/// `BLOCK_REF_BLOCK_AMOUNT` records.
pub proof fn lemma_teardown_complete(m: DirModel)
    requires
        m.wf(),
    ensures
        m.teardown().len() == m.blocks.len() + page_count(m.blocks.len()),
        m.teardown().subrange(0, m.blocks.len() as int) == m.blocks,
        forall|k: int|
            0 <= k < m.pages.len() ==> #[trigger] m.teardown()[m.blocks.len() + k] == (Region {
                addr: m.pages[k],
                len: BLOCK_REF_BLOCK_SIZE,
            }),
{
    assert(m.teardown().subrange(0, m.blocks.len() as int) =~= m.blocks);
}

/// Teardown releases no region twice: where no two records, no two metadata
/// pages, and no record and page start at one address (as is so of mappings
/// that are all live at once), the regions it lists start at pairwise
/// distinct addresses.
pub proof fn lemma_teardown_no_double_release(m: DirModel)
    requires
        forall|i: int, k: int|
            0 <= i < m.blocks.len() && 0 <= k < m.blocks.len() && i != k ==> #[trigger] m.blocks[i].addr
                != #[trigger] m.blocks[k].addr,
        forall|i: int, k: int|
            0 <= i < m.pages.len() && 0 <= k < m.pages.len() && i != k ==> #[trigger] m.pages[i]
                != #[trigger] m.pages[k],
        forall|i: int, k: int|
            0 <= i < m.blocks.len() && 0 <= k < m.pages.len() ==> #[trigger] m.blocks[i].addr
                != #[trigger] m.pages[k],
    ensures
        forall|a: int, b: int|
            0 <= a < m.teardown().len() && 0 <= b < m.teardown().len() && a != b
                ==> #[trigger] m.teardown()[a].addr != #[trigger] m.teardown()[b].addr,
{
    let t = m.teardown();
    let n = m.blocks.len() as int;
    assert forall|a: int, b: int|
        0 <= a < t.len() && 0 <= b < t.len() && a != b implies #[trigger] t[a].addr
        != #[trigger] t[b].addr by {
        if a < n && b < n {
            assert(t[a] == m.blocks[a] && t[b] == m.blocks[b]);
        } else if a < n {
            assert(t[a] == m.blocks[a] && t[b].addr == m.pages[b - n]);
        } else if b < n {
            assert(t[b] == m.blocks[b] && t[a].addr == m.pages[a - n]);
        } else {
            assert(t[a].addr == m.pages[a - n] && t[b].addr == m.pages[b - n]);
        }
    }
}

} // verus!
