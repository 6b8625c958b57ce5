use runikraft::buddy::{find_n_meta, log2_usize, min_power2, AllocBuddy, PAGE_ALIGNMENT};
use runikraft::rkalloc::{RKalloc, RKallocExt, RKallocState};

const BASE: u64 = 0x10_0000;
const SIZE: u64 = 1 << 20;

fn memory() -> Vec<u8> {
    vec![0xAAu8; (BASE + SIZE) as usize]
}

#[test]
fn logarithm_rounds_down() {
    assert_eq!(log2_usize(1), 0);
    assert_eq!(log2_usize(2), 1);
    assert_eq!(log2_usize(1024), 10);
    assert_eq!(log2_usize(1025), 10);
    assert_eq!(log2_usize(u64::MAX), 63);
}

#[test]
fn power_of_two_rounds_up() {
    assert_eq!(min_power2(1), 1);
    assert_eq!(min_power2(100), 128);
    assert_eq!(min_power2(128), 128);
    assert_eq!(min_power2(129), 256);
}

#[test]
fn metadata_share_is_bounded() {
    for t in [1u64, 64, 65, 1000, 65536, 1 << 62, (1 << 63) - 1, 1 << 63] {
        let m = find_n_meta(t);
        assert!(t / 65 <= m && m <= (t + 42) / 43);
    }
}

#[test]
fn new_allocator_reports_sizes() {
    let a = AllocBuddy::new(BASE, SIZE);
    assert_eq!(a.total_size(), SIZE as usize);
    assert!(a.free_size() > 0 && a.free_size() < SIZE as usize);
    assert_eq!(a.free_size() % 16, 0);
}

#[test]
fn allocation_is_aligned_and_inside() {
    let mut a = AllocBuddy::new(BASE, SIZE);
    let before = a.free_size();
    let p = a.allocate(100, 8);
    assert_ne!(p, 0);
    assert_eq!(p % 8, 0);
    assert!(p >= BASE && p + 128 <= BASE + SIZE);
    assert_eq!(a.free_size(), before - 128);
    let q = a.allocate(4000, PAGE_ALIGNMENT as usize);
    assert_ne!(q, 0);
    assert_eq!(q % PAGE_ALIGNMENT, 0);
    assert_eq!(a.free_size(), before - 128 - 4096);
}

#[test]
fn small_requests_take_sixteen_bytes() {
    let mut a = AllocBuddy::new(BASE, SIZE);
    let before = a.free_size();
    let p = a.allocate(1, 1);
    assert_ne!(p, 0);
    assert_eq!(a.free_size(), before - 16);
}

#[test]
fn blocks_do_not_overlap() {
    let mut a = AllocBuddy::new(BASE, SIZE);
    let mut blocks = Vec::new();
    for size in [16usize, 32, 100, 1000, 16, 4096, 50] {
        let p = a.allocate(size, 8);
        assert_ne!(p, 0);
        blocks.push((p, min_power2(size.max(16) as u64)));
    }
    for i in 0..blocks.len() {
        for j in 0..blocks.len() {
            if i != j {
                let (p, n) = blocks[i];
                let (q, m) = blocks[j];
                assert!(p + n <= q || q + m <= p);
            }
        }
    }
}

#[test]
fn freeing_gives_the_bytes_back() {
    let mut a = AllocBuddy::new(BASE, SIZE);
    let before = a.free_size();
    let p = a.allocate(300, 16);
    let q = a.allocate(20, 4);
    a.dealloc(p, 300, 16);
    a.dealloc(q, 20, 4);
    assert_eq!(a.free_size(), before);
    let r = a.allocate(300, 16);
    assert_eq!(r, p);
}

#[test]
fn freeing_null_does_nothing() {
    let mut a = AllocBuddy::new(BASE, SIZE);
    let before = a.free_size();
    a.dealloc(0, 64, 8);
    assert_eq!(a.free_size(), before);
}

#[test]
fn too_large_request_fails() {
    let mut a = AllocBuddy::new(BASE, SIZE);
    let before = a.free_size();
    assert_eq!(a.allocate(SIZE as usize, 8), 0);
    assert_eq!(a.free_size(), before);
}

#[test]
fn memory_runs_out_and_comes_back() {
    let mut a = AllocBuddy::new(BASE, 4096);
    let mut got = Vec::new();
    loop {
        let p = a.allocate(16, 16);
        if p == 0 {
            break;
        }
        got.push(p);
    }
    assert!(!got.is_empty());
    assert_eq!(a.free_size(), 0);
    for p in got {
        a.dealloc(p, 16, 16);
    }
    let p = a.allocate(16, 16);
    assert_ne!(p, 0);
}

#[test]
fn realloc_moves_to_a_new_block() {
    let mut a = AllocBuddy::new(BASE, SIZE);
    let before = a.free_size();
    let mut mem = memory();
    let p = a.allocate(100, 8);
    assert_eq!(a.realloc(&mut mem, p, 100, 100, 8), p);
    let q = a.realloc(&mut mem, p, 100, 200, 8);
    assert_ne!(q, 0);
    assert_ne!(q, p);
    assert_eq!(a.free_size(), before - 256);
}

#[test]
fn realloc_copies_the_old_bytes() {
    let mut a = AllocBuddy::new(BASE, SIZE);
    let mut mem = memory();
    let p = a.allocate(100, 8);
    for i in 0..100usize {
        mem[p as usize + i] = i as u8;
    }
    let q = a.realloc(&mut mem, p, 100, 40, 8);
    assert_ne!(q, 0);
    assert_ne!(q, p);
    for i in 0..40usize {
        assert_eq!(mem[q as usize + i], i as u8);
    }
    assert_eq!(mem[q as usize + 40], 0xAA);
    for i in 0..40usize {
        mem[q as usize + i] = 100 + i as u8;
    }
    let r = a.realloc(&mut mem, q, 40, 300, 8);
    assert_ne!(r, 0);
    assert_ne!(r, q);
    for i in 0..40usize {
        assert_eq!(mem[r as usize + i], 100 + i as u8);
    }
}

#[test]
fn realloc_of_null_allocates() {
    let mut a = AllocBuddy::new(BASE, SIZE);
    let before = a.free_size();
    let mut mem = memory();
    let q = a.realloc(&mut mem, 0, 0, 64, 8);
    assert_ne!(q, 0);
    assert_eq!(a.free_size(), before - 64);
}

#[test]
fn extended_free_needs_no_size() {
    let mut a = AllocBuddy::new(BASE, SIZE);
    let before = a.free_size();
    let p = a.allocate(1000, 8);
    a.dealloc_ext(p);
    assert_eq!(a.free_size(), before);
    let mut mem = memory();
    let q = a.allocate(64, 8);
    mem[q as usize] = 7;
    mem[q as usize + 63] = 9;
    let r = a.realloc_ext(&mut mem, q, 500);
    assert_ne!(r, 0);
    assert_eq!(mem[r as usize], 7);
    assert_eq!(mem[r as usize + 63], 9);
    assert_eq!(a.free_size(), before - 512);
}

#[test]
fn zeroed_allocation_takes_a_block_too() {
    let mut a = AllocBuddy::new(BASE, SIZE);
    let before = a.free_size();
    let mut mem = memory();
    let p = a.alloc_zeroed(&mut mem, 40, 8);
    assert_ne!(p, 0);
    for i in 0..40usize {
        assert_eq!(mem[p as usize + i], 0);
    }
    assert_eq!(mem[p as usize + 40], 0xAA);
    assert_eq!(a.free_size(), before - 64);
}

#[test]
fn freed_blocks_merge_back_with_their_buddies() {
    let mut a = AllocBuddy::new(BASE, SIZE);
    let before = a.free_size();
    let big = a.allocate(1 << 19, 16);
    assert_ne!(big, 0);
    assert_eq!(a.allocate(1 << 19, 16), 0);
    a.dealloc(big, 1 << 19, 16);
    let p = a.allocate(16, 16);
    let q = a.allocate(16, 16);
    assert_ne!(p, 0);
    assert_ne!(q, 0);
    a.dealloc(p, 16, 16);
    a.dealloc(q, 16, 16);
    assert_eq!(a.free_size(), before);
    let again = a.allocate(1 << 19, 16);
    assert_eq!(again, big);
}
