use std::collections::{BTreeMap, HashMap};

use awwoc::{
    is_invalid, AllocStep, Awwoc, DeallocError, Region, RootNode, BLOCK_REF_BLOCK_AMOUNT,
    BLOCK_REF_BLOCK_SIZE,
};

/// A page provider over heap buffers: each mapping is a zeroed buffer that
/// stays put until it is unmapped.
struct Pages {
    live: HashMap<usize, Vec<u8>>,
    maps: usize,
    unmapped: Vec<Region>,
    fail_len: Option<usize>,
}

impl Pages {
    fn new() -> Pages {
        Pages { live: HashMap::new(), maps: 0, unmapped: Vec::new(), fail_len: None }
    }

    fn map(&mut self, len: usize) -> usize {
        if len == 0 || self.fail_len == Some(len) {
            return usize::MAX;
        }
        let buf = vec![0u8; len];
        let addr = buf.as_ptr() as usize;
        self.live.insert(addr, buf);
        self.maps += 1;
        addr
    }

    fn unmap(&mut self, addr: usize, len: usize) {
        let buf = self.live.remove(&addr).expect("only mapped regions are unmapped");
        assert_eq!(buf.len(), len);
        self.unmapped.push(Region { addr, len });
    }

    fn write(&mut self, addr: usize, offset: usize, bytes: &[u8]) {
        let buf = self.live.get_mut(&addr).expect("writes go to mapped blocks");
        buf[offset..offset + bytes.len()].copy_from_slice(bytes);
    }

    fn read(&self, addr: usize, offset: usize, len: usize) -> Vec<u8> {
        self.live[&addr][offset..offset + len].to_vec()
    }

    fn write_u64(&mut self, addr: usize, index: usize, value: u64) {
        self.write(addr, index * 8, &value.to_le_bytes());
    }

    fn read_u64(&self, addr: usize, index: usize) -> u64 {
        u64::from_le_bytes(self.read(addr, index * 8, 8).try_into().unwrap())
    }
}

/// Runs one allocation through the directory's steps against `pages`.
fn allocate(root: &mut RootNode, pages: &mut Pages, size: usize) -> Option<usize> {
    let mut step = Awwoc.allocate(root, size, 8);
    loop {
        step = match step {
            AllocStep::Ready(addr) => return Some(addr),
            AllocStep::Failed(page) => {
                if let Some(p) = page {
                    pages.unmap(p, BLOCK_REF_BLOCK_SIZE);
                }
                return None;
            }
            AllocStep::MapPage(size) => RootNode::page_mapped(size, pages.map(BLOCK_REF_BLOCK_SIZE)),
            AllocStep::MapData { size, page } => {
                assert_eq!(page.is_some(), root.needs_metadata_page());
                root.data_mapped(size, page, pages.map(size))
            }
        };
    }
}

fn teardown(root: RootNode, pages: &mut Pages) -> Vec<Region> {
    let regions = root.cleanup();
    for r in &regions {
        pages.unmap(r.addr, r.len);
    }
    regions
}

#[test]
fn alloc_dealloc() {
    let mut root = RootNode::new();
    let mut pages = Pages::new();
    let ptr = allocate(&mut root, &mut pages, 8).unwrap();
    pages.write_u64(ptr, 0, 6);
    assert_eq!(pages.read_u64(ptr, 0), 6);
    assert_eq!(root.dealloc(ptr), Ok(()));
    teardown(root, &mut pages);
    assert!(pages.live.is_empty());
}

#[test]
fn reuse_freed() {
    let mut root = RootNode::new();
    let mut pages = Pages::new();
    let ptr = allocate(&mut root, &mut pages, 8).unwrap();
    let first_addr = ptr;
    assert_eq!(root.dealloc(ptr), Ok(()));
    let ptr2 = allocate(&mut root, &mut pages, 8).unwrap();
    pages.write_u64(ptr2, 0, 10);
    assert_eq!(first_addr, ptr2);
    assert_eq!(pages.read_u64(ptr2, 0), 10);
    teardown(root, &mut pages);
}

#[test]
fn boxed() {
    let mut root = RootNode::new();
    let mut pages = Pages::new();
    let boxed = allocate(&mut root, &mut pages, 4).unwrap();
    pages.write(boxed, 0, &5i32.to_le_bytes());
    pages.write(boxed, 0, &6i32.to_le_bytes());
    assert_eq!(pages.read(boxed, 0, 4), 6i32.to_le_bytes().to_vec());
    assert_eq!(root.dealloc(boxed), Ok(()));
    teardown(root, &mut pages);
}

#[test]
fn vec() {
    let mut root = RootNode::new();
    let mut pages = Pages::new();
    let len: usize = 10_000;
    let mut buf: Option<usize> = None;
    let mut cap: usize = 0;
    for i in 0..len {
        if i == cap {
            let new_cap = if cap == 0 { 4 } else { cap * 2 };
            let new_buf = allocate(&mut root, &mut pages, new_cap * 8).unwrap();
            if let Some(old) = buf {
                for k in 0..i {
                    let v = pages.read_u64(old, k);
                    pages.write_u64(new_buf, k, v);
                }
                assert_eq!(root.dealloc(old), Ok(()));
            }
            buf = Some(new_buf);
            cap = new_cap;
        }
        pages.write_u64(buf.unwrap(), i, i as u64);
    }
    let b = buf.unwrap();
    assert!((0..len).all(|i| pages.read_u64(b, i) == i as u64));
    teardown(root, &mut pages);
}

#[test]
fn btree_map() {
    let mut root = RootNode::new();
    let mut pages = Pages::new();
    let len: u64 = 1000;
    let mut map: BTreeMap<u64, usize> = BTreeMap::new();
    for i in (0..len).map(|i| i * 3) {
        let cell = allocate(&mut root, &mut pages, 8).unwrap();
        pages.write_u64(cell, 0, i + 10);
        map.insert(i, cell);
    }
    assert!(map.iter().all(|(k, cell)| pages.read_u64(*cell, 0) == *k + 10));
    teardown(root, &mut pages);
}

#[test]
fn written_bytes_read_back() {
    let mut root = RootNode::new();
    let mut pages = Pages::new();
    for size in [1usize, 7, 8, 4095, 4096, 5000, 100_000] {
        let a = allocate(&mut root, &mut pages, size).unwrap();
        let pattern: Vec<u8> = (0..size).map(|i| (i * 31 % 251) as u8).collect();
        pages.write(a, 0, &pattern);
        assert_eq!(pages.read(a, 0, size), pattern);
    }
    teardown(root, &mut pages);
}

#[test]
fn freed_block_reused_by_smaller_request() {
    let mut root = RootNode::new();
    let mut pages = Pages::new();
    let a = allocate(&mut root, &mut pages, 256).unwrap();
    let _b = allocate(&mut root, &mut pages, 64).unwrap();
    assert_eq!(root.dealloc(a), Ok(()));
    let maps = pages.maps;
    assert_eq!(allocate(&mut root, &mut pages, 100), Some(a));
    assert_eq!(pages.maps, maps);
    teardown(root, &mut pages);
}

#[test]
fn too_small_free_block_skipped() {
    let mut root = RootNode::new();
    let mut pages = Pages::new();
    let small = allocate(&mut root, &mut pages, 8).unwrap();
    assert_eq!(root.dealloc(small), Ok(()));
    let big = allocate(&mut root, &mut pages, 4096).unwrap();
    assert_ne!(big, small);
    // a free block large enough is reused, the small one still skipped
    assert_eq!(root.dealloc(big), Ok(()));
    assert_eq!(allocate(&mut root, &mut pages, 4096), Some(big));
    assert_eq!(allocate(&mut root, &mut pages, 8), Some(small));
    teardown(root, &mut pages);
}

#[test]
fn first_fit_in_free_list_order() {
    let mut root = RootNode::new();
    let mut pages = Pages::new();
    let a = allocate(&mut root, &mut pages, 8).unwrap();
    let b = allocate(&mut root, &mut pages, 64).unwrap();
    let c = allocate(&mut root, &mut pages, 16).unwrap();
    for p in [a, b, c] {
        assert_eq!(root.dealloc(p), Ok(()));
    }
    // the free list runs c, b, a: the first that fits wins, not the smallest
    assert_eq!(allocate(&mut root, &mut pages, 10), Some(c));
    assert_eq!(allocate(&mut root, &mut pages, 8), Some(b));
    assert_eq!(allocate(&mut root, &mut pages, 8), Some(a));
    teardown(root, &mut pages);
}

#[test]
fn teardown_releases_every_region_once() {
    let mut root = RootNode::new();
    let mut pages = Pages::new();
    let k = 3 * BLOCK_REF_BLOCK_AMOUNT + 5;
    let mut addrs = Vec::new();
    for i in 0..k {
        addrs.push(allocate(&mut root, &mut pages, 16 + i).unwrap());
    }
    for a in addrs.iter().step_by(3) {
        assert_eq!(root.dealloc(*a), Ok(()));
    }
    let regions = teardown(root, &mut pages);
    assert_eq!(BLOCK_REF_BLOCK_AMOUNT, 128);
    assert_eq!(regions.len(), k + 4);
    assert!(regions[..k].iter().zip(&addrs).enumerate().all(|(i, (r, a))| r.addr == *a && r.len == 16 + i));
    assert!(regions[k..].iter().all(|r| r.len == BLOCK_REF_BLOCK_SIZE));
    assert!(pages.live.is_empty());
    assert_eq!(pages.unmapped.len(), pages.maps);
}

#[test]
fn metadata_page_per_run_of_records() {
    let mut root = RootNode::new();
    let mut pages = Pages::new();
    assert!(root.needs_metadata_page());
    allocate(&mut root, &mut pages, 8).unwrap();
    assert!(!root.needs_metadata_page());
    for _ in 1..BLOCK_REF_BLOCK_AMOUNT {
        allocate(&mut root, &mut pages, 8).unwrap();
    }
    assert!(root.needs_metadata_page());
    assert_eq!(root.br_blocks().len(), 1);
    allocate(&mut root, &mut pages, 8).unwrap();
    assert_eq!(root.br_blocks().len(), 2);
    assert_eq!(root.blockrefs().len(), BLOCK_REF_BLOCK_AMOUNT + 1);
    teardown(root, &mut pages);
}

#[test]
fn foreign_pointer_refused() {
    let mut root = RootNode::new();
    let mut pages = Pages::new();
    let a = allocate(&mut root, &mut pages, 32).unwrap();
    assert_eq!(root.dealloc(a + 8), Err(DeallocError::InvalidPointer));
    assert_eq!(root.dealloc(12345), Err(DeallocError::InvalidPointer));
    assert_eq!(Awwoc.deallocate(&mut root, 0, 8, 8), Err(DeallocError::InvalidPointer));
    // the directory is untouched: the block is still live and can be freed
    assert_eq!(root.dealloc(a), Ok(()));
    teardown(root, &mut pages);
}

#[test]
fn double_free_refused() {
    let mut root = RootNode::new();
    let mut pages = Pages::new();
    let a = allocate(&mut root, &mut pages, 32).unwrap();
    let b = allocate(&mut root, &mut pages, 32).unwrap();
    assert_eq!(Awwoc.deallocate(&mut root, a, 32, 8), Ok(()));
    assert_eq!(Awwoc.deallocate(&mut root, a, 32, 8), Err(DeallocError::InvalidPointer));
    // the free list still holds a once: one reuse, then a fresh block
    assert_eq!(allocate(&mut root, &mut pages, 32), Some(a));
    let c = allocate(&mut root, &mut pages, 32).unwrap();
    assert!(c != a && c != b);
    teardown(root, &mut pages);
}

#[test]
fn live_blocks_never_overlap() {
    let mut root = RootNode::new();
    let mut pages = Pages::new();
    let mut live: Vec<(usize, usize)> = Vec::new();
    let mut seed: u64 = 0x2545_f491_4f6c_dd1d;
    for _ in 0..2000 {
        seed = seed.wrapping_mul(6364136223846793005).wrapping_add(1442695040888963407);
        let r = (seed >> 33) as usize;
        if r % 3 == 0 && !live.is_empty() {
            let (a, _) = live.swap_remove(r % live.len());
            assert_eq!(root.dealloc(a), Ok(()));
        } else {
            let size = 1 + r % 300;
            let a = allocate(&mut root, &mut pages, size).unwrap();
            live.push((a, size));
        }
        let mut sorted = live.clone();
        sorted.sort();
        assert!(sorted.windows(2).all(|w| w[0].0 + w[0].1 <= w[1].0));
    }
    teardown(root, &mut pages);
}

#[test]
fn failed_page_mapping_fails_request() {
    let mut root = RootNode::new();
    let mut pages = Pages::new();
    pages.fail_len = Some(BLOCK_REF_BLOCK_SIZE);
    assert_eq!(allocate(&mut root, &mut pages, 8), None);
    assert!(root.blockrefs().is_empty() && root.br_blocks().is_empty());
    pages.fail_len = None;
    assert!(allocate(&mut root, &mut pages, 8).is_some());
    teardown(root, &mut pages);
}

#[test]
fn failed_data_mapping_releases_fresh_page() {
    let mut root = RootNode::new();
    let mut pages = Pages::new();
    pages.fail_len = Some(100);
    assert_eq!(allocate(&mut root, &mut pages, 100), None);
    assert_eq!(pages.unmapped.len(), 1);
    assert_eq!(pages.unmapped[0].len, BLOCK_REF_BLOCK_SIZE);
    assert!(root.br_blocks().is_empty());
    pages.fail_len = None;
    let a = allocate(&mut root, &mut pages, 100).unwrap();
    assert_eq!(root.blockrefs(), vec![Region { addr: a, len: 100 }]);
    assert_eq!(root.br_blocks().len(), 1);
    teardown(root, &mut pages);
}

#[test]
fn data_mapping_steps() {
    let mut root = RootNode::new();
    assert_eq!(root.alloc_inner(8), AllocStep::MapPage(8));
    assert_eq!(RootNode::page_mapped(8, 0), AllocStep::Failed(None));
    assert_eq!(RootNode::page_mapped(8, usize::MAX), AllocStep::Failed(None));
    assert_eq!(RootNode::page_mapped(8, 4096), AllocStep::MapData { size: 8, page: Some(4096) });
    assert_eq!(root.data_mapped(8, Some(4096), usize::MAX), AllocStep::Failed(Some(4096)));
    assert_eq!(root.data_mapped(8, Some(4096), 8192), AllocStep::Ready(8192));
    assert_eq!(root.alloc_inner(16), AllocStep::MapData { size: 16, page: None });
    assert_eq!(root.data_mapped(16, None, 16384), AllocStep::Ready(16384));
    assert_eq!(root.find_in_free_list(1), None);
    assert_eq!(root.dealloc(16384), Ok(()));
    assert_eq!(root.find_in_free_list(17), None);
    assert_eq!(root.find_in_free_list(16), Some(16384));
    assert_eq!(
        root.cleanup(),
        vec![
            Region { addr: 8192, len: 8 },
            Region { addr: 16384, len: 16 },
            Region { addr: 4096, len: BLOCK_REF_BLOCK_SIZE },
        ]
    );
}

#[test]
fn zero_size_layout_fails() {
    let mut root = RootNode::new();
    assert_eq!(Awwoc.allocate(&mut root, 0, 1), AllocStep::Failed(None));
    assert_eq!(Awwoc.allocate(&mut root, 24, 8), AllocStep::MapPage(24));
}

#[test]
fn invalid_mapping_addresses() {
    assert!(is_invalid(0));
    assert!(is_invalid(usize::MAX));
    assert!(!is_invalid(4096));
    assert!(!is_invalid(usize::MAX - 4095));
}
