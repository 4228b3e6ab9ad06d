use bdwgcvsimmix_bench::bench::{tree_size, K_LONG_LIVED_TREE_DEPTH};
use bdwgcvsimmix_bench::model::Op;
use bdwgcvsimmix_bench::plan::{gcbench, make_tree, populate, time_construction};

/// A plain heap on which the tests replay schedules.
struct Replay {
    b: Vec<Option<usize>>,
    e: Vec<Option<usize>>,
    roots: Vec<usize>,
    check_safety: bool,
    unprotected_at_alloc: usize,
}

impl Replay {
    fn new() -> Replay {
        Replay {
            b: Vec::new(),
            e: Vec::new(),
            roots: Vec::new(),
            check_safety: true,
            unprotected_at_alloc: 0,
        }
    }

    /// Whether every object below `n` is reachable from a registered slot.
    fn prefix_reachable(&self, n: usize) -> bool {
        let seen = self.reachable();
        seen.iter().take(n).all(|r| *r)
    }

    fn count(&self) -> usize {
        self.b.len()
    }

    fn reachable(&self) -> Vec<bool> {
        let mut seen = vec![false; self.count()];
        let mut stack: Vec<usize> = self.roots.clone();
        while let Some(x) = stack.pop() {
            if !seen[x] {
                seen[x] = true;
                if let Some(c) = self.b[x] {
                    stack.push(c);
                }
                if let Some(c) = self.e[x] {
                    stack.push(c);
                }
            }
        }
        seen
    }

    fn apply(&mut self, ops: &[Op]) {
        for op in ops {
            match *op {
                Op::Alloc => {
                    if self.check_safety && self.reachable().iter().any(|r| !r) {
                        self.unprotected_at_alloc += 1;
                    }
                    self.b.push(None);
                    self.e.push(None);
                }
                Op::SetB { parent, child } => {
                    assert!(parent < self.count() && child < self.count());
                    self.b[parent] = Some(child);
                }
                Op::SetE { parent, child } => {
                    assert!(parent < self.count() && child < self.count());
                    self.e[parent] = Some(child);
                }
                Op::AddRoot { obj } => {
                    assert!(obj < self.count());
                    self.roots.push(obj);
                }
                Op::RemoveRoot { obj } => {
                    let at = self.roots.iter().position(|r| *r == obj).expect("registered slot");
                    self.roots.remove(at);
                }
            }
        }
    }

    /// Checks that `root` heads a perfect tree of depth `d` with no shared
    /// node, and returns its nodes.
    fn perfect_tree(&self, root: usize, d: i32, nodes: &mut Vec<usize>) {
        nodes.push(root);
        if d > 0 {
            let l = self.b[root].expect("field b set");
            let r = self.e[root].expect("field e set");
            self.perfect_tree(l, d - 1, nodes);
            self.perfect_tree(r, d - 1, nodes);
        }
    }
}

/// The pattern of set and null fields below `n`, in walk order.
fn shape(heap: &Replay, n: usize, out: &mut Vec<(bool, bool)>) {
    out.push((heap.b[n].is_some(), heap.e[n].is_some()));
    if let Some(c) = heap.b[n] {
        shape(heap, c, out);
    }
    if let Some(c) = heap.e[n] {
        shape(heap, c, out);
    }
}

fn distinct_sorted(mut nodes: Vec<usize>) -> Vec<usize> {
    nodes.sort();
    let n = nodes.len();
    nodes.dedup();
    assert_eq!(nodes.len(), n, "a node is shared");
    nodes
}

#[test]
fn populate_depth_zero_does_nothing() {
    let mut ops = vec![Op::Alloc];
    let after = populate(0, 0, 1, &mut ops);
    assert_eq!(after, 1);
    assert_eq!(ops, vec![Op::Alloc]);
    let after = populate(-3, 0, 1, &mut ops);
    assert_eq!(after, 1);
    assert_eq!(ops.len(), 1);
}

#[test]
fn populate_depth_one_links_two_children() {
    let mut ops = Vec::new();
    let after = populate(1, 7, 10, &mut ops);
    assert_eq!(after, 12);
    assert_eq!(
        ops,
        vec![
            Op::Alloc,
            Op::SetB { parent: 7, child: 10 },
            Op::Alloc,
            Op::SetE { parent: 7, child: 11 },
        ]
    );
}

#[test]
fn populate_depth_two_fills_e_side_first() {
    let mut ops = Vec::new();
    let after = populate(2, 0, 1, &mut ops);
    assert_eq!(after, 7);
    assert_eq!(
        ops,
        vec![
            Op::Alloc,
            Op::SetB { parent: 0, child: 1 },
            Op::Alloc,
            Op::SetE { parent: 0, child: 2 },
            Op::Alloc,
            Op::SetB { parent: 2, child: 3 },
            Op::Alloc,
            Op::SetE { parent: 2, child: 4 },
            Op::Alloc,
            Op::SetB { parent: 1, child: 5 },
            Op::Alloc,
            Op::SetE { parent: 1, child: 6 },
        ]
    );
}

#[test]
fn make_tree_depth_zero_is_one_object() {
    let mut ops = Vec::new();
    let (root, after) = make_tree(0, 5, &mut ops);
    assert_eq!((root, after), (5, 6));
    assert_eq!(ops, vec![Op::Alloc]);
}

#[test]
fn make_tree_depth_one_roots_subtrees_while_allocating() {
    let mut ops = Vec::new();
    let (root, after) = make_tree(1, 0, &mut ops);
    assert_eq!((root, after), (2, 3));
    assert_eq!(
        ops,
        vec![
            Op::Alloc,
            Op::AddRoot { obj: 0 },
            Op::Alloc,
            Op::AddRoot { obj: 1 },
            Op::Alloc,
            Op::AddRoot { obj: 2 },
            Op::SetB { parent: 2, child: 0 },
            Op::SetE { parent: 2, child: 1 },
            Op::RemoveRoot { obj: 1 },
            Op::RemoveRoot { obj: 0 },
            Op::RemoveRoot { obj: 2 },
        ]
    );
}

#[test]
fn make_tree_replay_builds_perfect_tree() {
    for d in 0..8 {
        let mut ops = Vec::new();
        let (root, after) = make_tree(d, 0, &mut ops);
        let mut heap = Replay::new();
        heap.apply(&ops);
        assert_eq!(heap.count(), after);
        assert_eq!(after as i32, tree_size(d));
        assert_eq!(root, after - 1);
        assert!(heap.roots.is_empty());
        assert_eq!(heap.unprotected_at_alloc, 0);
        let mut nodes = Vec::new();
        heap.perfect_tree(root, d, &mut nodes);
        assert_eq!(distinct_sorted(nodes), (0..after).collect::<Vec<usize>>());
    }
}

#[test]
fn time_construction_round_at_depth_four() {
    let round = time_construction(4);
    assert_eq!(round.iters, 33824);
    assert_eq!(round.objects, 31);
    assert_eq!(round.temp_tree[0], Op::Alloc);
    assert_eq!(round.temp_tree[1], Op::AddRoot { obj: 0 });
    assert_eq!(*round.temp_tree.last().unwrap(), Op::RemoveRoot { obj: 0 });
    assert_eq!(round.temp_tree.len(), 2 + 2 * 30 + 1);
    assert_eq!(round.make_tree.iter().filter(|o| **o == Op::Alloc).count(), 31);
}

#[test]
fn temp_tree_replay_is_safe_and_perfect() {
    for d in 0..9 {
        let round = time_construction(d);
        let mut heap = Replay::new();
        heap.apply(&round.temp_tree);
        assert_eq!(heap.count(), round.objects);
        assert!(heap.roots.is_empty());
        assert_eq!(heap.unprotected_at_alloc, 0);
        let mut nodes = Vec::new();
        heap.perfect_tree(0, d, &mut nodes);
        assert_eq!(distinct_sorted(nodes), (0..round.objects).collect::<Vec<usize>>());

        let mut built = Replay::new();
        built.apply(&round.make_tree);
        assert_eq!(built.count(), round.objects);
        assert!(built.roots.is_empty());
        assert_eq!(built.unprotected_at_alloc, 0);
    }
}

#[test]
fn gcbench_schedule() {
    let plan = gcbench();
    assert_eq!(plan.long_lived_objects as i32, tree_size(K_LONG_LIVED_TREE_DEPTH));
    assert_eq!(plan.rounds.len(), 7);
    let iters: Vec<i32> = plan.rounds.iter().map(|r| r.iters).collect();
    assert_eq!(iters, vec![33824, 8256, 2052, 512, 128, 32, 8]);
    let objects: Vec<usize> = plan.rounds.iter().map(|r| r.objects).collect();
    assert_eq!(objects, vec![31, 127, 511, 2047, 8191, 32767, 131071]);
    assert_eq!(plan.release, vec![Op::RemoveRoot { obj: 0 }]);

    let mut heap = Replay::new();
    heap.check_safety = false;
    heap.apply(&plan.long_lived);
    assert_eq!(heap.count(), plan.long_lived_objects);
    assert_eq!(heap.roots, vec![0]);
    assert!(heap.reachable().iter().all(|r| *r));
    heap.apply(&plan.release);
    assert!(heap.roots.is_empty());
}

#[test]
fn populated_and_built_trees_have_the_same_shape() {
    for d in 0..9 {
        let round = time_construction(d);
        let mut populated = Replay::new();
        populated.apply(&round.temp_tree);
        let mut built = Replay::new();
        built.apply(&round.make_tree);
        assert_eq!(populated.count(), built.count());
        let mut a = Vec::new();
        shape(&populated, 0, &mut a);
        let mut b = Vec::new();
        shape(&built, built.count() - 1, &mut b);
        assert_eq!(a, b);
        assert_eq!(a.len(), tree_size(d) as usize);
        assert_eq!(a.iter().filter(|f| **f == (false, false)).count(), 1usize << d);
    }
}

#[test]
fn rounds_without_passes_build_nothing() {
    for d in [19, 24, 29] {
        let round = time_construction(d);
        assert_eq!(round.iters, 0);
        assert!(round.temp_tree.is_empty());
        assert!(round.make_tree.is_empty());
        assert_eq!(round.objects, 0);
    }
}

fn relocate(ops: &[Op], base: usize) -> Vec<Op> {
    ops.iter()
        .map(|op| match *op {
            Op::Alloc => Op::Alloc,
            Op::SetB { parent, child } => Op::SetB { parent: parent + base, child: child + base },
            Op::SetE { parent, child } => Op::SetE { parent: parent + base, child: child + base },
            Op::AddRoot { obj } => Op::AddRoot { obj: obj + base },
            Op::RemoveRoot { obj } => Op::RemoveRoot { obj: obj + base },
        })
        .collect()
}

#[test]
fn passes_on_one_heap_keep_the_long_lived_tree() {
    let mut heap = Replay::new();
    heap.check_safety = false;
    let mut setup = vec![Op::Alloc, Op::AddRoot { obj: 0 }];
    let long_lived = populate(4, 0, 1, &mut setup);
    heap.apply(&setup);
    assert_eq!(heap.count(), long_lived);
    for d in [1, 2, 3] {
        let round = time_construction(d);
        for pass in [&round.temp_tree, &round.make_tree] {
            for _ in 0..3 {
                let base = heap.count();
                for op in relocate(pass, base) {
                    if op == Op::Alloc {
                        assert!(heap.prefix_reachable(long_lived));
                        let seen = heap.reachable();
                        assert!(seen[base..].iter().all(|r| *r));
                    }
                    heap.apply(&[op]);
                }
                assert_eq!(heap.count(), base + round.objects);
                assert_eq!(heap.roots, vec![0]);
            }
        }
    }
    assert!(heap.prefix_reachable(long_lived));
    heap.apply(&[Op::RemoveRoot { obj: 0 }]);
    assert!(heap.roots.is_empty());
}
