use bdwgcvsimmix_bench::bench::{
    num_iters, tree_size, K_LONG_LIVED_TREE_DEPTH, K_MAX_TREE_DEPTH, K_MIN_TREE_DEPTH,
    K_STRETCH_TREE_DEPTH,
};
use bdwgcvsimmix_bench::heap::{GCState, StackBase};

#[test]
fn tree_size_small_depths() {
    assert_eq!(tree_size(-1), 0);
    assert_eq!(tree_size(0), 1);
    assert_eq!(tree_size(1), 3);
    assert_eq!(tree_size(4), 31);
}

#[test]
fn tree_size_benchmark_depths() {
    assert_eq!(tree_size(K_LONG_LIVED_TREE_DEPTH), 131071);
    assert_eq!(tree_size(K_STRETCH_TREE_DEPTH), 524287);
    assert_eq!(tree_size(29), 1073741823);
}

#[test]
fn num_iters_per_depth() {
    assert_eq!(num_iters(4), 33824);
    assert_eq!(num_iters(6), 8256);
    assert_eq!(num_iters(8), 2052);
    assert_eq!(num_iters(10), 512);
    assert_eq!(num_iters(12), 128);
    assert_eq!(num_iters(14), 32);
    assert_eq!(num_iters(16), 8);
    assert_eq!(num_iters(0), 1048574);
    assert_eq!(num_iters(29), 0);
}

#[test]
fn num_iters_balances_rounds() {
    let budget = 2 * tree_size(K_STRETCH_TREE_DEPTH) as i64;
    let mut d = K_MIN_TREE_DEPTH;
    while d <= K_MAX_TREE_DEPTH {
        let n = num_iters(d) as i64;
        let t = tree_size(d) as i64;
        assert!(n * t <= budget);
        assert!(budget < (n + 1) * t);
        d += 2;
    }
}

#[test]
fn gc_state_default_is_zeroed() {
    let s = GCState::default();
    assert_eq!(s.heapsize_full, 0);
    assert_eq!(s.free_bytes_full, 0);
    assert_eq!(s.unmapped_bytes, 0);
    assert_eq!(s.bytes_allocd_since_gc, 0);
    assert_eq!(s.allocd_bytes_before_gc, 0);
    assert_eq!(s.non_gc_bytes, 0);
    assert_eq!(s.gc_no, 0);
    assert_eq!(s.markers_m1, 0);
    assert_eq!(s.bytes_reclaimed_since_gc, 0);
    assert_eq!(s.reclaimed_bytes_before_gc, 0);
    assert_eq!(s.expl_freed_bytes_since_gc, 0);
    assert_eq!(s.obtained_from_os_bytes, 0);
}

#[test]
fn stack_base_holds_addresses() {
    let s = StackBase { mem_base: 0x1000, reg_base: 0 };
    let t = s;
    assert_eq!(t.mem_base, 0x1000);
    assert_eq!(t.reg_base, 0);
}

#[test]
fn num_iters_does_not_grow_with_depth() {
    for i in 0..29 {
        assert!(num_iters(i + 1) <= num_iters(i));
    }
}
