use vstd::prelude::*;
use crate::bench;
use crate::model;
use crate::model::Op;
use vstd::multiset::Multiset;

verus! {

/// The operations of `populate(d, node)`: give `node` two fresh children,
/// then populate the child in field `e` and after it the child in field
/// `b`, each one level less deep. The objects it allocates are numbered
/// from `next` on.
pub open spec fn populate_ops(d: int, node: nat, next: nat) -> Seq<Op>
    decreases d,
{
    if d <= 0 {
        Seq::empty()
    } else {
        let half: nat = bench::perfect_size(d - 1);
        seq![
            Op::Alloc,
            Op::SetB { parent: node as usize, child: next as usize },
            Op::Alloc,
            Op::SetE { parent: node as usize, child: (next + 1) as usize },
        ] + populate_ops(d - 1, next + 1, next + 2) + populate_ops(d - 1, next, next + half + 1)
    }
}

/// Appends to `ops` the operations that populate object `thisnode` with a
/// perfect tree of depth `idepth`, numbering the new objects from `next`
/// on, and returns the number the next allocation after them gets.
pub fn populate(idepth: i32, thisnode: usize, next: usize, ops: &mut Vec<Op>) -> (after: usize)
    requires
        next + bench::perfect_size(idepth as int) <= usize::MAX,
    ensures
        final(ops)@ == old(ops)@ + populate_ops(idepth as int, thisnode as nat, next as nat),
        after == next + bench::perfect_size(idepth as int) - 1,
    decreases idepth,
{
    if idepth <= 0 {
        assert(ops@ + populate_ops(idepth as int, thisnode as nat, next as nat) =~= ops@);
        return next;
    }
    proof {
        bench::lemma_perfect_size_pos(idepth - 1);
    }
    let b: usize = next;
    let e: usize = next + 1;
    ops.push(Op::Alloc);
    ops.push(Op::SetB { parent: thisnode, child: b });
    ops.push(Op::Alloc);
    ops.push(Op::SetE { parent: thisnode, child: e });
    let after_e: usize = populate(idepth - 1, e, next + 2, ops);
    let after_b: usize = populate(idepth - 1, b, after_e, ops);
    assert(ops@ =~= old(ops)@ + populate_ops(idepth as int, thisnode as nat, next as nat));
    after_b
}

/// What populating a fresh object does to the heap.
///
/// Populating object `node`, which has no fields yet, with depth `d` makes
/// it the root of a perfect binary tree of depth `d` whose objects are
/// `node` and exactly the `perfect_size(d) - 1` objects allocated on the
/// way, its deepest objects without fields. The first object allocated,
/// `next`, goes into field `b` of `node` and the second, `next + 1`, into
/// field `e`; the tree below the `e` child is filled first, from the
/// objects right after those two, and the tree below the `b` child from
/// the rest. It names only existing
/// objects, and leaves the roots and every other object's fields as they
/// were. If `node` is protected, so is every object of its tree at the
/// end, and at each allocation on the way the objects of `kept` (if they
/// were protected) and every object allocated so far by this call are
/// protected, whatever garbage the heap holds besides.
pub proof fn lemma_populate(s: model::HeapModel, d: int, node: nat, next: nat, kept: Set<nat>)
    requires
        model::wf(s),
        s.count == next,
        node < next,
        !s.b.contains_key(node),
        !s.e.contains_key(node),
        next + bench::perfect_size(d) <= usize::MAX + 1,
    ensures
        ({
            let t = model::run(s, populate_ops(d, node, next));
            &&& model::valid(s, populate_ops(d, node, next))
            &&& model::wf(t)
            &&& t.count == next + bench::perfect_size(d) - 1
            &&& t.roots == s.roots
            &&& model::extends(s, t)
            &&& forall|k: nat| k < next && k != node ==> #[trigger] model::same_fields(s, t, k)
            &&& model::exact_tree(t.b, t.e, node, d)
            &&& model::reach(t.b, t.e, node, d) == set![node].union(
                model::span(next, (next + bench::perfect_size(d) - 1) as nat),
            )
            &&& model::protected(s, node) ==> forall|x: nat| #[trigger]
                model::reach(t.b, t.e, node, d).contains(x) ==> model::protected(t, x)
            &&& d >= 1 ==> {
                let half = bench::perfect_size(d - 1);
                &&& t.b.contains_key(node)
                &&& t.b[node] == next
                &&& t.e.contains_key(node)
                &&& t.e[node] == next + 1
                &&& model::reach(t.b, t.e, next + 1, d - 1) == set![(next + 1) as nat].union(
                    model::span(next + 2, next + half + 1),
                )
                &&& model::reach(t.b, t.e, next, d - 1) == set![next].union(
                    model::span(next + half + 1, (next + bench::perfect_size(d) - 1) as nat),
                )
                &&& model::exact_tree(t.b, t.e, next + 1, d - 1)
                &&& model::exact_tree(t.b, t.e, next, d - 1)
            }
            &&& model::protected(s, node) && model::kept_protected(s, kept) ==> model::guarded(
                s,
                populate_ops(d, node, next),
                kept,
                next,
            )
        }),
    decreases d,
{
    let p = populate_ops(d, node, next);
    if d <= 0 {
        assert(model::reach(s.b, s.e, node, d) =~= set![node].union(model::span(next, next)));
        assert forall|x: nat| #[trigger] model::reach(s.b, s.e, node, d).contains(x) && model::protected(
            s,
            node,
        ) implies model::protected(s, x) by {
            assert(x == node);
        }
        return;
    }
    bench::lemma_perfect_size_pos(d - 1);
    let half: nat = bench::perfect_size(d - 1);
    let pre = seq![
        Op::Alloc,
        Op::SetB { parent: node as usize, child: next as usize },
        Op::Alloc,
        Op::SetE { parent: node as usize, child: (next + 1) as usize },
    ];
    let pe = populate_ops(d - 1, next + 1, next + 2);
    let pb = populate_ops(d - 1, next, next + half + 1);
    assert(p == pre + pe + pb);
    model::lemma_run_append(s, pre + pe, pb, kept, next);
    model::lemma_run_append(s, pre, pe, kept, next);

    let sa = model::step(s, Op::Alloc);
    let sb = model::step(sa, Op::SetB { parent: node as usize, child: next as usize });
    let sc = model::step(sb, Op::Alloc);
    let sd = model::step(sc, Op::SetE { parent: node as usize, child: (next + 1) as usize });
    assert(model::run(s, pre) == sd) by {
        reveal_with_fuel(model::run, 5);
    }
    assert(model::valid(s, pre)) by {
        reveal_with_fuel(model::valid, 5);
    }
    assert(model::extends(s, sb));
    assert(model::extends(sb, sd));

    let kept_e = kept.union(model::span(next, next + 2));
    lemma_populate(sd, d - 1, next + 1, next + 2, kept_e);
    let s2 = model::run(sd, pe);
    assert(model::same_fields(sd, s2, next));
    let kept_b = kept.union(model::span(next, next + half + 1));
    lemma_populate(s2, d - 1, next, next + half + 1, kept_b);
    let t = model::run(s2, pb);

    model::lemma_extends_trans(s, sd, s2);
    model::lemma_extends_trans(s, s2, t);
    assert forall|k: nat| k < next && k != node implies #[trigger] model::same_fields(s, t, k) by {
        assert(model::same_fields(sd, s2, k));
        assert(model::same_fields(s2, t, k));
    }
    assert(model::same_fields(sd, s2, node));
    assert(model::same_fields(s2, t, node));
    assert(t.b[node] == next);
    assert(t.e[node] == next + 1);

    let e_nodes = set![(next + 1) as nat].union(model::span(next + 2, next + half + 1));
    assert forall|k: nat| model::reach(s2.b, s2.e, next + 1, d - 1).contains(k) implies model::same_fields(s2, t, k) by {
        assert(e_nodes.contains(k));
    }
    model::lemma_reach_frame(s2, t, next + 1, d - 1);
    assert(model::reach(t.b, t.e, node, d) =~= set![node].union(
        model::span(next, (next + bench::perfect_size(d) - 1) as nat),
    ));

    if model::protected(s, node) {
        model::lemma_protected_extends(s, t, node);
        assert forall|x: nat| #[trigger] model::reach(t.b, t.e, node, d).contains(x) implies model::protected(t, x) by {
            model::lemma_protected_reach(t, node, d, x);
        }
    }
    if model::protected(s, node) && model::kept_protected(s, kept) {
        model::lemma_protected_extends(s, sb, node);
        model::lemma_protected_child(sb, node);
        model::lemma_kept_extends(s, sb, kept);
        assert(model::covered(sb, kept, next));
        model::lemma_protected_extends(sb, sd, node);
        model::lemma_protected_child(sd, node);
        model::lemma_kept_extends(sb, sd, kept);
        assert(model::guarded(s, pre, kept, next)) by {
            reveal_with_fuel(model::guarded, 5);
        }
        assert(model::kept_protected(sd, kept_e));
        model::lemma_guarded_weaken(sd, pe, kept_e, next + 2, kept, next);
        model::lemma_kept_extends(sd, s2, kept_e);
        assert forall|x: nat| kept_b.contains(x) implies #[trigger] model::protected(s2, x) by {
            if !kept_e.contains(x) {
                assert(model::reach(s2.b, s2.e, next + 1, d - 1).contains(x));
            }
        }
        model::lemma_guarded_weaken(s2, pb, kept_b, next + half + 1, kept, next);
    }
}

/// The number the root of `make_tree(d)` gets when the objects it
/// allocates are numbered from `next` on: the root is allocated last.
pub open spec fn make_tree_root(d: int, next: nat) -> nat {
    (next + bench::perfect_size(d) - 1) as nat
}

/// The operations that join two finished subtrees under a fresh node:
/// register the right subtree while the node is allocated, link the node to
/// both subtrees, and unregister all three.
pub open spec fn join_ops(left: nat, right: nat, result: nat) -> Seq<Op> {
    seq![
        Op::AddRoot { obj: right as usize },
        Op::Alloc,
        Op::AddRoot { obj: result as usize },
        Op::SetB { parent: result as usize, child: left as usize },
        Op::SetE { parent: result as usize, child: right as usize },
        Op::RemoveRoot { obj: right as usize },
        Op::RemoveRoot { obj: left as usize },
        Op::RemoveRoot { obj: result as usize },
    ]
}

/// The operations of `make_tree(d)`: build the left and the right subtree,
/// registering each one as a root while the rest is built, then allocate
/// the node that joins them, link it, and unregister all three.
pub open spec fn make_tree_ops(d: int, next: nat) -> Seq<Op>
    decreases d,
{
    if d <= 0 {
        seq![Op::Alloc]
    } else {
        let half: nat = bench::perfect_size(d - 1);
        let left: nat = make_tree_root(d - 1, next);
        let n1: nat = next + half;
        let right: nat = make_tree_root(d - 1, n1);
        let result: nat = n1 + half;
        make_tree_ops(d - 1, next) + seq![Op::AddRoot { obj: left as usize }] + make_tree_ops(d - 1, n1)
            + join_ops(left, right, result)
    }
}

/// Appends to `ops` the operations that build a perfect tree of depth
/// `idepth` from fresh objects numbered from `next` on, and returns the
/// number of its root and the number the next allocation after it gets.
pub fn make_tree(idepth: i32, next: usize, ops: &mut Vec<Op>) -> (res: (usize, usize))
    requires
        next + bench::perfect_size(idepth as int) <= usize::MAX,
    ensures
        final(ops)@ == old(ops)@ + make_tree_ops(idepth as int, next as nat),
        res.0 == make_tree_root(idepth as int, next as nat),
        res.1 == next + bench::perfect_size(idepth as int),
    decreases idepth,
{
    if idepth <= 0 {
        ops.push(Op::Alloc);
        return (next, next + 1);
    }
    proof {
        bench::lemma_perfect_size_pos(idepth - 1);
    }
    let (left, n1): (usize, usize) = make_tree(idepth - 1, next, ops);
    ops.push(Op::AddRoot { obj: left });
    let (right, n2): (usize, usize) = make_tree(idepth - 1, n1, ops);
    ops.push(Op::AddRoot { obj: right });
    let result: usize = n2;
    ops.push(Op::Alloc);
    ops.push(Op::AddRoot { obj: result });
    ops.push(Op::SetB { parent: result, child: left });
    ops.push(Op::SetE { parent: result, child: right });
    ops.push(Op::RemoveRoot { obj: right });
    ops.push(Op::RemoveRoot { obj: left });
    ops.push(Op::RemoveRoot { obj: result });
    assert(ops@ =~= old(ops)@ + make_tree_ops(idepth as int, next as nat));
    (result, n2 + 1)
}

/// Joining two subtrees under the fresh object `result`.
proof fn lemma_join(
    s: model::HeapModel,
    left: nat,
    right: nat,
    result: nat,
    kept: Set<nat>,
    lo: nat,
)
    requires
        model::wf(s),
        s.count == result,
        left < result,
        right < result,
        s.roots.count(left) > 0,
        result <= usize::MAX,
    ensures
        ({
            let t = model::run(s, join_ops(left, right, result));
            let t1 = model::step(s, Op::AddRoot { obj: right as usize });
            &&& model::valid(s, join_ops(left, right, result))
            &&& t.count == result + 1
            &&& t.b == s.b.insert(result, left)
            &&& t.e == s.e.insert(result, right)
            &&& t.roots == s.roots.remove(left)
            &&& model::wf(t)
            &&& model::fields_kept(s, t)
            &&& model::covered(t1, kept, lo) ==> model::guarded(
                s,
                join_ops(left, right, result),
                kept,
                lo,
            )
        }),
{
    let t1 = model::step(s, Op::AddRoot { obj: right as usize });
    let t2 = model::step(t1, Op::Alloc);
    let t3 = model::step(t2, Op::AddRoot { obj: result as usize });
    let t4 = model::step(t3, Op::SetB { parent: result as usize, child: left as usize });
    let t5 = model::step(t4, Op::SetE { parent: result as usize, child: right as usize });
    let t6 = model::step(t5, Op::RemoveRoot { obj: right as usize });
    let t7 = model::step(t6, Op::RemoveRoot { obj: left as usize });
    let t = model::step(t7, Op::RemoveRoot { obj: result as usize });
    assert(model::run(s, join_ops(left, right, result)) == t) by {
        reveal_with_fuel(model::run, 9);
    }
    assert(model::valid(s, join_ops(left, right, result))) by {
        reveal_with_fuel(model::valid, 9);
    }
    assert(t.roots =~= s.roots.remove(left));
    assert(!s.b.contains_key(result));
    assert(!s.e.contains_key(result));
    if model::covered(t1, kept, lo) {
        assert(model::guarded(s, join_ops(left, right, result), kept, lo)) by {
            reveal_with_fuel(model::guarded, 9);
        }
    }
}

/// What building a tree does to the heap.
///
/// `make_tree(d)` allocates exactly `perfect_size(d)` fresh objects and
/// returns the root of a perfect binary tree of depth `d` made of exactly
/// those objects, its deepest objects without fields. Field `b` of the
/// root holds the root of the tree made of the first `perfect_size(d - 1)`
/// objects allocated, and field `e` the root of the tree made of the next
/// `perfect_size(d - 1)`. It names only
/// existing objects and only unregisters what it registered, so the roots
/// end as they began; no older object's fields change. Whenever it
/// allocates, every object it has allocated so far is protected, and so
/// are the objects of `kept` if they were protected before, whatever
/// garbage the heap holds besides.
pub proof fn lemma_make_tree(s: model::HeapModel, d: int, next: nat, kept: Set<nat>)
    requires
        model::wf(s),
        s.count == next,
        next + bench::perfect_size(d) <= usize::MAX,
    ensures
        ({
            let t = model::run(s, make_tree_ops(d, next));
            let root: nat = make_tree_root(d, next);
            &&& model::valid(s, make_tree_ops(d, next))
            &&& model::wf(t)
            &&& t.count == next + bench::perfect_size(d)
            &&& t.roots == s.roots
            &&& model::extends(s, t)
            &&& forall|k: nat| k < next ==> #[trigger] model::same_fields(s, t, k)
            &&& model::exact_tree(t.b, t.e, root, d)
            &&& model::reach(t.b, t.e, root, d) == model::span(next, next + bench::perfect_size(d))
            &&& model::kept_protected(s, kept) ==> model::guarded(s, make_tree_ops(d, next), kept, next)
            &&& d >= 1 ==> {
                let half = bench::perfect_size(d - 1);
                &&& t.b.contains_key(root)
                &&& t.b[root] == next + half - 1
                &&& t.e.contains_key(root)
                &&& t.e[root] == next + 2 * half - 1
                &&& model::reach(t.b, t.e, (next + half - 1) as nat, d - 1) == model::span(next, next + half)
                &&& model::reach(t.b, t.e, (next + 2 * half - 1) as nat, d - 1) == model::span(
                    next + half,
                    next + 2 * half,
                )
                &&& model::exact_tree(t.b, t.e, (next + half - 1) as nat, d - 1)
                &&& model::exact_tree(t.b, t.e, (next + 2 * half - 1) as nat, d - 1)
            }
        }),
    decreases d,
{
    let m = make_tree_ops(d, next);
    if d <= 0 {
        let t = model::step(s, Op::Alloc);
        assert(model::run(s, m) == t) by {
            reveal_with_fuel(model::run, 2);
        }
        assert(model::valid(s, m)) by {
            reveal_with_fuel(model::valid, 2);
        }
        assert(model::guarded(s, m, kept, next) <== model::kept_protected(s, kept)) by {
            reveal_with_fuel(model::guarded, 2);
        }
        assert(model::reach(t.b, t.e, next, d) =~= model::span(next, next + 1));
        return;
    }
    bench::lemma_perfect_size_pos(d - 1);
    let half: nat = bench::perfect_size(d - 1);
    let left: nat = make_tree_root(d - 1, next);
    let n1: nat = next + half;
    let right: nat = make_tree_root(d - 1, n1);
    let n2: nat = n1 + half;
    let result: nat = n2;
    let ml = make_tree_ops(d - 1, next);
    let ar = seq![Op::AddRoot { obj: left as usize }];
    let mr = make_tree_ops(d - 1, n1);
    let tail = join_ops(left, right, result);
    assert(m == ml + ar + mr + tail);
    model::lemma_run_append(s, ml + ar + mr, tail, kept, next);
    model::lemma_run_append(s, ml + ar, mr, kept, next);
    model::lemma_run_append(s, ml, ar, kept, next);

    lemma_make_tree(s, d - 1, next, kept);
    let s1 = model::run(s, ml);
    let s1r = model::step(s1, Op::AddRoot { obj: left as usize });
    assert(model::run(s1, ar) == s1r) by {
        reveal_with_fuel(model::run, 2);
    }
    assert(model::valid(s1, ar)) by {
        reveal_with_fuel(model::valid, 2);
    }
    assert(model::guarded(s1, ar, kept, next)) by {
        reveal_with_fuel(model::guarded, 2);
    }
    assert(model::extends(s1, s1r));
    let kept1 = kept.union(model::span(next, n1));
    lemma_make_tree(s1r, d - 1, n1, kept1);
    let s2 = model::run(s1r, mr);

    assert(s2.roots.count(left) > 0);
    lemma_join(s2, left, right, result, kept, next);
    let t1 = model::step(s2, Op::AddRoot { obj: right as usize });
    let t = model::run(s2, tail);
    assert(t.roots =~= s.roots);
    model::lemma_extends_trans(s, s1, s1r);
    model::lemma_extends_trans(s, s1r, s2);
    assert(model::extends(s, t));

    assert forall|k: nat| k < next implies #[trigger] model::same_fields(s, t, k) by {
        assert(model::same_fields(s, s1, k));
        assert(model::same_fields(s1r, s2, k));
    }
    assert forall|k: nat| model::reach(s1.b, s1.e, left, d - 1).contains(k) implies model::same_fields(s1, t, k) by {
        assert(model::span(next, n1).contains(k));
        assert(model::same_fields(s1r, s2, k));
    }
    model::lemma_reach_frame(s1, t, left, d - 1);
    assert forall|k: nat| model::reach(s2.b, s2.e, right, d - 1).contains(k) implies model::same_fields(s2, t, k) by {
        assert(model::span(n1, n2).contains(k));
    }
    model::lemma_reach_frame(s2, t, right, d - 1);
    assert(t.b[result] == left);
    assert(t.e[result] == right);
    assert(model::reach(t.b, t.e, result, d) =~= model::span(next, next + bench::perfect_size(d)));

    if model::kept_protected(s, kept) {
        model::lemma_kept_extends(s, s1r, kept);
        assert forall|x: nat| kept1.contains(x) implies #[trigger] model::protected(s1r, x) by {
            if !kept.contains(x) {
                assert(model::reach(s1r.b, s1r.e, left, d - 1).contains(x));
                assert(s1r.roots.count(left) > 0);
            }
        }
        model::lemma_guarded_weaken(s1r, mr, kept1, n1, kept, next);
        model::lemma_extends_trans(s1r, s2, t1);
        model::lemma_kept_extends(s1r, t1, kept1);
        assert forall|x: nat| (kept.contains(x) || (next <= x && x < t1.count)) implies #[trigger] model::protected(t1, x) by {
            if !kept1.contains(x) {
                assert(model::span(n1, n2).contains(x));
                assert(model::reach(t1.b, t1.e, right, d - 1).contains(x));
                assert(t1.roots.count(right) > 0);
            }
        }
    }
}

/// One pass of the first loop of `time_construction(d)` with its temporary
/// object numbered `base`: allocate it, register it, populate it with depth
/// `d`, unregister it.
pub open spec fn temp_tree_at(d: int, base: nat) -> Seq<Op> {
    seq![Op::Alloc, Op::AddRoot { obj: base as usize }] + populate_ops(d, base, base + 1) + seq![
        Op::RemoveRoot { obj: base as usize },
    ]
}

/// One pass of the first loop of `time_construction(d)`, numbering its
/// objects from 0.
pub open spec fn temp_tree_ops(d: int) -> Seq<Op> {
    temp_tree_at(d, 0)
}

/// The work of one round of the benchmark at one tree depth.
///
/// Each pass of either loop starts from its own object numbering at 0.
pub struct RoundPlan {
    /// How many passes each of the two loops makes.
    pub iters: i32,
    /// One pass of the first loop: a populated temporary tree.
    pub temp_tree: Vec<Op>,
    /// One pass of the second loop: a tree built bottom-up.
    pub make_tree: Vec<Op>,
    /// How many objects one pass of either loop allocates.
    pub objects: usize,
}

/// `p` is the round for trees of depth `d`; a round with no passes
/// builds no schedules.
pub open spec fn round_plan_for(p: RoundPlan, d: int) -> bool {
    &&& p.iters == bench::num_iters_spec(d)
    &&& p.iters > 0 ==> {
        &&& p.temp_tree@ == temp_tree_ops(d)
        &&& p.make_tree@ == make_tree_ops(d, 0)
        &&& p.objects == bench::perfect_size(d)
    }
    &&& p.iters == 0 ==> {
        &&& p.temp_tree@.len() == 0
        &&& p.make_tree@.len() == 0
        &&& p.objects == 0
    }
}

proof fn lemma_perfect_size_small(d: int)
    requires
        0 <= d <= 29,
    ensures
        bench::perfect_size(d) < 0x4000_0000,
{
    bench::lemma_tree_size_is_perfect_size(d);
    vstd::arithmetic::power2::lemma2_to64();
    if d < 29 {
        vstd::arithmetic::power2::lemma_pow2_strictly_increases((d + 1) as nat, 30);
    }
}

/// The round of the benchmark for trees of depth `depth`.
pub fn time_construction(depth: i32) -> (plan: RoundPlan)
    requires
        0 <= depth <= 29,
    ensures
        round_plan_for(plan, depth as int),
{
    proof {
        lemma_perfect_size_small(depth as int);
    }
    let i_num_iters: i32 = bench::num_iters(depth);
    if i_num_iters == 0 {
        return RoundPlan { iters: 0, temp_tree: Vec::new(), make_tree: Vec::new(), objects: 0 };
    }
    let mut temp_tree: Vec<Op> = Vec::new();
    temp_tree.push(Op::Alloc);
    temp_tree.push(Op::AddRoot { obj: 0 });
    let _after: usize = populate(depth, 0, 1, &mut temp_tree);
    temp_tree.push(Op::RemoveRoot { obj: 0 });
    let mut built: Vec<Op> = Vec::new();
    let (_root, objects): (usize, usize) = make_tree(depth, 0, &mut built);
    assert(temp_tree@ =~= temp_tree_ops(depth as int));
    assert(built@ =~= make_tree_ops(depth as int, 0));
    RoundPlan { iters: i_num_iters, temp_tree, make_tree: built, objects }
}

/// Allocating object `base` and registering it.
proof fn lemma_register(s: model::HeapModel, base: nat, kept: Set<nat>) -> (s2: model::HeapModel)
    requires
        model::wf(s),
        s.count == base,
        base <= usize::MAX,
    ensures
        s2 == model::run(s, seq![Op::Alloc, Op::AddRoot { obj: base as usize }]),
        s2.count == base + 1,
        s2.roots == s.roots.insert(base),
        s2.b == s.b,
        s2.e == s.e,
        model::wf(s2),
        model::extends(s, s2),
        model::valid(s, seq![Op::Alloc, Op::AddRoot { obj: base as usize }]),
        model::protected(s2, base),
        model::kept_protected(s, kept) ==> model::guarded(
            s,
            seq![Op::Alloc, Op::AddRoot { obj: base as usize }],
            kept,
            base,
        ) && model::kept_protected(s2, kept.union(model::span(base, base + 1))),
{
    let s1 = model::step(s, Op::Alloc);
    let s2 = model::step(s1, Op::AddRoot { obj: base as usize });
    assert(model::run(s, seq![Op::Alloc, Op::AddRoot { obj: base as usize }]) == s2) by {
        reveal_with_fuel(model::run, 3);
    }
    assert(model::valid(s, seq![Op::Alloc, Op::AddRoot { obj: base as usize }])) by {
        reveal_with_fuel(model::valid, 3);
    }
    assert(model::reach(s2.b, s2.e, base, 0).contains(base));
    assert(s2.roots.count(base) > 0);
    assert(model::protected(s2, base));
    assert(model::extends(s, s2));
    if model::kept_protected(s, kept) {
        assert(model::guarded(s, seq![Op::Alloc, Op::AddRoot { obj: base as usize }], kept, base)) by {
            reveal_with_fuel(model::guarded, 3);
        }
        model::lemma_kept_extends(s, s2, kept);
        assert forall|x: nat| kept.union(model::span(base, base + 1)).contains(x) implies #[trigger] model::protected(s2, x) by {
            if !kept.contains(x) {
                assert(x == base);
            }
        }
    }
    s2
}

/// What one pass of the first loop does to any heap.
///
/// Run on a heap that holds `base` objects (some of them perhaps garbage),
/// the pass allocates `perfect_size(d)` objects forming an exact tree of
/// depth `d` rooted at `base`, names only existing objects, leaves the
/// roots as they were and keeps every older field; whenever it allocates,
/// its own objects and those of `kept` (if protected before) are protected.
pub proof fn lemma_temp_tree_pass(s: model::HeapModel, d: int, base: nat, kept: Set<nat>)
    requires
        model::wf(s),
        s.count == base,
        base + bench::perfect_size(d) <= usize::MAX,
    ensures
        ({
            let t = model::run(s, temp_tree_at(d, base));
            &&& model::valid(s, temp_tree_at(d, base))
            &&& model::wf(t)
            &&& t.count == base + bench::perfect_size(d)
            &&& t.roots == s.roots
            &&& model::extends(s, t)
            &&& model::exact_tree(t.b, t.e, base, d)
            &&& model::reach(t.b, t.e, base, d) == model::span(base, base + bench::perfect_size(d))
            &&& model::kept_protected(s, kept) ==> model::guarded(s, temp_tree_at(d, base), kept, base)
        }),
{
    let first = seq![Op::Alloc, Op::AddRoot { obj: base as usize }];
    let pop = populate_ops(d, base, base + 1);
    let last = seq![Op::RemoveRoot { obj: base as usize }];
    assert(temp_tree_at(d, base) == first + pop + last);
    model::lemma_run_append(s, first + pop, last, kept, base);
    model::lemma_run_append(s, first, pop, kept, base);
    let s2 = lemma_register(s, base, kept);
    let kept2 = kept.union(model::span(base, base + 1));
    lemma_populate(s2, d, base, base + 1, kept2);
    let t1 = model::run(s2, pop);
    let t = model::step(t1, Op::RemoveRoot { obj: base as usize });
    assert(model::run(t1, last) == t) by {
        reveal_with_fuel(model::run, 2);
    }
    assert(model::valid(t1, last)) by {
        reveal_with_fuel(model::valid, 2);
    }
    assert(model::guarded(t1, last, kept, base)) by {
        reveal_with_fuel(model::guarded, 2);
    }
    assert(t.roots =~= s.roots);
    model::lemma_extends_trans(s, s2, t1);
    assert(model::extends(s, t));
    assert(model::reach(t.b, t.e, base, d) =~= model::span(base, base + bench::perfect_size(d)));
    if model::kept_protected(s, kept) {
        model::lemma_guarded_weaken(s2, pop, kept2, base + 1, kept, base);
    }
}

/// What one round does to the heap.
///
/// A pass of either loop, run on an empty heap, allocates exactly
/// `perfect_size(d)` objects that form an exact tree of depth `d`, names
/// only existing objects, leaves no slot registered, and keeps every object
/// protected whenever it allocates.
pub proof fn lemma_round(d: int)
    requires
        0 <= d <= 29,
    ensures
        ({
            let t = model::run(model::empty_heap(), temp_tree_ops(d));
            &&& model::valid(model::empty_heap(), temp_tree_ops(d))
            &&& model::guarded(model::empty_heap(), temp_tree_ops(d), Set::empty(), 0)
            &&& t.count == bench::perfect_size(d)
            &&& t.roots == Multiset::<nat>::empty()
            &&& model::exact_tree(t.b, t.e, 0, d)
            &&& model::reach(t.b, t.e, 0, d) == model::span(0, bench::perfect_size(d))
        }),
        ({
            let u = model::run(model::empty_heap(), make_tree_ops(d, 0));
            let root: nat = make_tree_root(d, 0);
            &&& model::valid(model::empty_heap(), make_tree_ops(d, 0))
            &&& model::guarded(model::empty_heap(), make_tree_ops(d, 0), Set::empty(), 0)
            &&& u.count == bench::perfect_size(d)
            &&& u.roots == Multiset::<nat>::empty()
            &&& model::exact_tree(u.b, u.e, root, d)
            &&& model::reach(u.b, u.e, root, d) == model::span(0, bench::perfect_size(d))
        }),
{
    lemma_perfect_size_small(d);
    let s = model::empty_heap();
    assert(model::kept_protected(s, Set::empty()));
    lemma_temp_tree_pass(s, d, 0, Set::empty());
    lemma_make_tree(s, d, 0, Set::empty());
}

/// Moves every object number an operation names up by `base`.
pub open spec fn relocate_op(op: Op, base: nat) -> Op {
    match op {
        Op::Alloc => Op::Alloc,
        Op::SetB { parent, child } => Op::SetB {
            parent: (parent + base) as usize,
            child: (child + base) as usize,
        },
        Op::SetE { parent, child } => Op::SetE {
            parent: (parent + base) as usize,
            child: (child + base) as usize,
        },
        Op::AddRoot { obj } => Op::AddRoot { obj: (obj + base) as usize },
        Op::RemoveRoot { obj } => Op::RemoveRoot { obj: (obj + base) as usize },
    }
}

/// A schedule whose objects are numbered from `base` instead of 0: the
/// same operations on the same objects, where the objects of one pass sit
/// behind those allocated earlier.
pub open spec fn relocate(ops: Seq<Op>, base: nat) -> Seq<Op> {
    ops.map_values(|op: Op| relocate_op(op, base))
}

proof fn lemma_relocate_append(a: Seq<Op>, b: Seq<Op>, base: nat)
    ensures
        relocate(a + b, base) == relocate(a, base) + relocate(b, base),
{
    assert(relocate(a + b, base) =~= relocate(a, base) + relocate(b, base));
}

/// Relocating populate's schedule is populating the relocated objects.
pub proof fn lemma_relocate_populate(d: int, node: nat, next: nat, base: nat)
    requires
        node < next,
        next + bench::perfect_size(d) + base <= usize::MAX + 1,
    ensures
        relocate(populate_ops(d, node, next), base) == populate_ops(d, node + base, next + base),
    decreases d,
{
    if d <= 0 {
        assert(relocate(populate_ops(d, node, next), base) =~= populate_ops(d, node + base, next + base));
        return;
    }
    bench::lemma_perfect_size_pos(d - 1);
    let half: nat = bench::perfect_size(d - 1);
    let pre = seq![
        Op::Alloc,
        Op::SetB { parent: node as usize, child: next as usize },
        Op::Alloc,
        Op::SetE { parent: node as usize, child: (next + 1) as usize },
    ];
    let pe = populate_ops(d - 1, next + 1, next + 2);
    let pb = populate_ops(d - 1, next, next + half + 1);
    lemma_relocate_append(pre + pe, pb, base);
    lemma_relocate_append(pre, pe, base);
    lemma_relocate_populate(d - 1, next + 1, next + 2, base);
    lemma_relocate_populate(d - 1, next, next + half + 1, base);
    let pre2 = seq![
        Op::Alloc,
        Op::SetB { parent: (node + base) as usize, child: (next + base) as usize },
        Op::Alloc,
        Op::SetE { parent: (node + base) as usize, child: (next + base + 1) as usize },
    ];
    assert(relocate(pre, base) =~= pre2);
    assert(next + base + half + 1 == next + half + 1 + base);
}

/// Relocating the joining operations joins the relocated objects.
proof fn lemma_relocate_join(left: nat, right: nat, result: nat, base: nat)
    requires
        left + base <= usize::MAX,
        right + base <= usize::MAX,
        result + base <= usize::MAX,
    ensures
        relocate(join_ops(left, right, result), base) == join_ops(left + base, right + base, result + base),
{
    assert(relocate(join_ops(left, right, result), base) =~= join_ops(
        left + base,
        right + base,
        result + base,
    ));
}

/// Relocating make_tree's schedule is building from the relocated numbers.
pub proof fn lemma_relocate_make_tree(d: int, next: nat, base: nat)
    requires
        next + bench::perfect_size(d) + base <= usize::MAX,
    ensures
        relocate(make_tree_ops(d, next), base) == make_tree_ops(d, next + base),
    decreases d,
{
    if d <= 0 {
        assert(relocate(make_tree_ops(d, next), base) =~= make_tree_ops(d, next + base));
        return;
    }
    bench::lemma_perfect_size_pos(d - 1);
    let half: nat = bench::perfect_size(d - 1);
    let left: nat = make_tree_root(d - 1, next);
    let n1: nat = next + half;
    let right: nat = make_tree_root(d - 1, n1);
    let result: nat = n1 + half;
    let ml = make_tree_ops(d - 1, next);
    let ar = seq![Op::AddRoot { obj: left as usize }];
    let mr = make_tree_ops(d - 1, n1);
    let tail = join_ops(left, right, result);
    lemma_relocate_append(ml + ar + mr, tail, base);
    lemma_relocate_append(ml + ar, mr, base);
    lemma_relocate_append(ml, ar, base);
    lemma_relocate_make_tree(d - 1, next, base);
    lemma_relocate_make_tree(d - 1, n1, base);
    lemma_relocate_join(left, right, result, base);
    assert(relocate(ar, base) =~= seq![Op::AddRoot { obj: (left + base) as usize }]);
    assert(make_tree_root(d - 1, next + base) == left + base);
    assert(make_tree_root(d - 1, n1 + base) == right + base);
}

/// The schedule of one pass of either loop, numbered from 0.
pub open spec fn pass_ops(d: int, build: bool) -> Seq<Op> {
    if build {
        make_tree_ops(d, 0)
    } else {
        temp_tree_ops(d)
    }
}

/// `k` passes of the schedule `ops`, one after another, each allocating
/// `objects` objects, the first numbered from `base` on.
pub open spec fn repeat_pass(ops: Seq<Op>, objects: nat, k: nat, base: nat) -> Seq<Op>
    decreases k,
{
    if k == 0 {
        Seq::empty()
    } else {
        relocate(ops, base) + repeat_pass(ops, objects, (k - 1) as nat, base + objects)
    }
}

/// Each of the `k` passes, run where it stands in the sequence, keeps its
/// own objects and those of `kept` protected whenever it allocates.
pub open spec fn passes_guarded(
    s: model::HeapModel,
    ops: Seq<Op>,
    objects: nat,
    k: nat,
    base: nat,
    kept: Set<nat>,
) -> bool
    decreases k,
{
    k == 0 || {
        &&& model::guarded(s, relocate(ops, base), kept, base)
        &&& passes_guarded(
            model::run(s, relocate(ops, base)),
            ops,
            objects,
            (k - 1) as nat,
            base + objects,
            kept,
        )
    }
}

/// Populating unregisters nothing.
proof fn lemma_populate_unregisters(d: int, node: nat, next: nat, lo: nat)
    ensures
        model::unregisters_only_from(populate_ops(d, node, next), lo),
    decreases d,
{
    if d > 0 {
        let half: nat = bench::perfect_size(d - 1);
        let pre = seq![
            Op::Alloc,
            Op::SetB { parent: node as usize, child: next as usize },
            Op::Alloc,
            Op::SetE { parent: node as usize, child: (next + 1) as usize },
        ];
        assert(model::unregisters_only_from(pre, lo));
        lemma_populate_unregisters(d - 1, next + 1, next + 2, lo);
        lemma_populate_unregisters(d - 1, next, next + half + 1, lo);
        model::lemma_unregisters_append(pre, populate_ops(d - 1, next + 1, next + 2), lo);
        model::lemma_unregisters_append(
            pre + populate_ops(d - 1, next + 1, next + 2),
            populate_ops(d - 1, next, next + half + 1),
            lo,
        );
    }
}

/// Building a tree unregisters only objects it allocated itself.
proof fn lemma_make_tree_unregisters(d: int, next: nat)
    requires
        next + bench::perfect_size(d) <= usize::MAX,
    ensures
        model::unregisters_only_from(make_tree_ops(d, next), next),
    decreases d,
{
    if d <= 0 {
        assert(model::unregisters_only_from(make_tree_ops(d, next), next));
    } else {
        bench::lemma_perfect_size_pos(d - 1);
        let half: nat = bench::perfect_size(d - 1);
        let left: nat = make_tree_root(d - 1, next);
        let n1: nat = next + half;
        let right: nat = make_tree_root(d - 1, n1);
        let result: nat = n1 + half;
        let ml = make_tree_ops(d - 1, next);
        let ar = seq![Op::AddRoot { obj: left as usize }];
        let mr = make_tree_ops(d - 1, n1);
        let tail = join_ops(left, right, result);
        lemma_make_tree_unregisters(d - 1, next);
        lemma_make_tree_unregisters(d - 1, n1);
        model::lemma_unregisters_lower(mr, n1, next);
        assert(model::unregisters_only_from(ar, next));
        assert(model::unregisters_only_from(tail, next));
        model::lemma_unregisters_append(ml, ar, next);
        model::lemma_unregisters_append(ml + ar, mr, next);
        model::lemma_unregisters_append(ml + ar + mr, tail, next);
    }
}

/// A pass of the first loop unregisters only its own temporary object.
proof fn lemma_temp_tree_unregisters(d: int, base: nat)
    requires
        base + bench::perfect_size(d) <= usize::MAX,
    ensures
        model::unregisters_only_from(temp_tree_at(d, base), base),
{
    let first = seq![Op::Alloc, Op::AddRoot { obj: base as usize }];
    let last = seq![Op::RemoveRoot { obj: base as usize }];
    assert(model::unregisters_only_from(first, base));
    assert(model::unregisters_only_from(last, base));
    lemma_populate_unregisters(d, base, base + 1, base);
    model::lemma_unregisters_append(first, populate_ops(d, base, base + 1), base);
    model::lemma_unregisters_append(first + populate_ops(d, base, base + 1), last, base);
}

/// What repeated passes of one loop do to a heap that holds garbage.
///
/// Each pass allocates `perfect_size(d)` fresh objects; the passes name
/// only existing objects, leave the roots as they were and keep every
/// older field; each keeps its own objects protected whenever it
/// allocates, and the objects of `kept`, if protected before, stay
/// protected throughout and after.
pub proof fn lemma_repeat_pass(
    s: model::HeapModel,
    d: int,
    build: bool,
    k: nat,
    base: nat,
    kept: Set<nat>,
)
    requires
        0 <= d <= 29,
        model::wf(s),
        s.count == base,
        base + k * bench::perfect_size(d) <= usize::MAX,
    ensures
        ({
            let o = bench::perfect_size(d);
            let ops = repeat_pass(pass_ops(d, build), o, k, base);
            let t = model::run(s, ops);
            &&& model::valid(s, ops)
            &&& model::wf(t)
            &&& t.count == base + k * o
            &&& t.roots == s.roots
            &&& model::unregisters_only_from(ops, base)
            &&& model::extends(s, t)
            &&& model::kept_protected(s, kept) ==> {
                &&& passes_guarded(s, pass_ops(d, build), o, k, base, kept)
                &&& model::keeps(s, ops, kept)
                &&& model::kept_protected(t, kept)
            }
        }),
    decreases k,
{
    let o = bench::perfect_size(d);
    let ops = repeat_pass(pass_ops(d, build), o, k, base);
    if k == 0 {
        assert(k * o == 0) by (nonlinear_arith)
            requires
                k == 0,
        ;
        assert(model::extends(s, s));
        return;
    }
    bench::lemma_perfect_size_pos(d);
    assert(k * o >= o) by (nonlinear_arith)
        requires
            k >= 1,
    ;
    assert((k - 1) * o + o == k * o) by (nonlinear_arith);
    let here = relocate(pass_ops(d, build), base);
    let rest = repeat_pass(pass_ops(d, build), o, (k - 1) as nat, base + o);
    model::lemma_run_append(s, here, rest, kept, base);
    if build {
        lemma_relocate_make_tree(d, 0, base);
        lemma_make_tree(s, d, base, kept);
        lemma_make_tree_unregisters(d, base);
    } else {
        lemma_relocate_populate(d, 0, 1, base);
        assert(here =~= temp_tree_at(d, base)) by {
            assert(relocate(seq![Op::Alloc, Op::AddRoot { obj: 0 }], base) =~= seq![
                Op::Alloc,
                Op::AddRoot { obj: base as usize },
            ]);
            assert(relocate(seq![Op::RemoveRoot { obj: 0 }], base) =~= seq![
                Op::RemoveRoot { obj: base as usize },
            ]);
            lemma_relocate_append(
                seq![Op::Alloc, Op::AddRoot { obj: 0 }] + populate_ops(d, 0, 1),
                seq![Op::RemoveRoot { obj: 0 }],
                base,
            );
            lemma_relocate_append(seq![Op::Alloc, Op::AddRoot { obj: 0 }], populate_ops(d, 0, 1), base);
        }
        lemma_temp_tree_pass(s, d, base, kept);
        lemma_temp_tree_unregisters(d, base);
    }
    let t1 = model::run(s, here);
    lemma_repeat_pass(t1, d, build, (k - 1) as nat, base + o, kept);
    model::lemma_unregisters_lower(rest, base + o, base);
    model::lemma_unregisters_append(here, rest, base);
    let t = model::run(t1, rest);
    model::lemma_extends_trans(s, t1, t);
    if model::kept_protected(s, kept) {
        model::lemma_guarded_keeps(s, here, kept, base);
        model::lemma_kept_extends(s, t1, kept);
    }
}

/// The operations of one round in the order the benchmark runs them:
/// `iters` passes of the first loop, then `iters` passes of the second,
/// numbering the objects one pass after another from `base` on.
pub open spec fn round_ops(p: RoundPlan, base: nat) -> Seq<Op> {
    let n = p.iters as nat;
    let o = p.objects as nat;
    repeat_pass(p.temp_tree@, o, n, base) + repeat_pass(p.make_tree@, o, n, base + n * o)
}

/// How many objects one round allocates.
pub open spec fn round_objects(p: RoundPlan) -> nat {
    2 * ((p.iters as nat) * (p.objects as nat))
}

/// The operations of the rounds from the `i`-th on, one after another.
pub open spec fn rounds_ops(rounds: Seq<RoundPlan>, i: nat, base: nat) -> Seq<Op>
    decreases rounds.len() - i,
{
    if i >= rounds.len() {
        Seq::empty()
    } else {
        round_ops(rounds[i as int], base) + rounds_ops(rounds, i + 1, base + round_objects(rounds[i as int]))
    }
}

/// How many objects the rounds from the `i`-th on allocate.
pub open spec fn rounds_objects(rounds: Seq<RoundPlan>, i: nat) -> nat
    decreases rounds.len() - i,
{
    if i >= rounds.len() {
        0
    } else {
        round_objects(rounds[i as int]) + rounds_objects(rounds, i + 1)
    }
}

/// Every pass of the rounds from the `i`-th on, run where it stands in the
/// sequence, keeps its own objects and those of `kept` protected whenever
/// it allocates.
pub open spec fn rounds_guarded(
    s: model::HeapModel,
    rounds: Seq<RoundPlan>,
    i: nat,
    base: nat,
    kept: Set<nat>,
) -> bool
    decreases rounds.len() - i,
{
    i >= rounds.len() || {
        let p = rounds[i as int];
        let n = p.iters as nat;
        let o = p.objects as nat;
        let first = repeat_pass(p.temp_tree@, o, n, base);
        &&& passes_guarded(s, p.temp_tree@, o, n, base, kept)
        &&& passes_guarded(model::run(s, first), p.make_tree@, o, n, base + n * o, kept)
        &&& rounds_guarded(
            model::run(s, round_ops(p, base)),
            rounds,
            i + 1,
            base + round_objects(p),
            kept,
        )
    }
}

/// The whole workload in the order the benchmark runs it: the long-lived
/// tree, every round, then the release, numbering all objects one after
/// another in a single heap.
pub open spec fn workload_ops(plan: BenchPlan) -> Seq<Op> {
    plan.long_lived@ + rounds_ops(plan.rounds@, 0, plan.long_lived_objects as nat) + plan.release@
}

/// The rounds are those of GCBench, the `j`-th at depth `4 + 2j`.
pub open spec fn rounds_ok(rounds: Seq<RoundPlan>) -> bool {
    &&& rounds.len() <= 7
    &&& forall|j: int|
        0 <= j < rounds.len() ==> round_plan_for(#[trigger] rounds[j], bench::K_MIN_TREE_DEPTH + 2 * j)
}

proof fn lemma_rounds_objects_bound(rounds: Seq<RoundPlan>, i: nat)
    requires
        rounds_ok(rounds),
        i <= rounds.len(),
    ensures
        rounds_objects(rounds, i) <= (rounds.len() - i) * 2097148,
    decreases rounds.len() - i,
{
    if i < rounds.len() {
        let p = rounds[i as int];
        let d: int = bench::K_MIN_TREE_DEPTH + 2 * i;
        assert(round_plan_for(p, d));
        bench::lemma_num_iters_balances_rounds(d);
        bench::lemma_tree_size_is_perfect_size(d);
        vstd::arithmetic::power2::lemma2_to64();
        let n = p.iters as nat;
        let o = p.objects as nat;
        if p.iters > 0 {
            assert(n * o <= 1048574);
        } else {
            assert(o == 0);
            assert(n * o == 0) by (nonlinear_arith)
                requires
                    o == 0,
            ;
        }
        lemma_rounds_objects_bound(rounds, i + 1);
    }
}

/// What the rounds do to a heap that holds garbage and objects to keep.
///
/// They name only existing objects, leave the roots as they were and keep
/// every older field; every pass keeps its own objects protected whenever
/// it allocates; and the objects of `kept`, if protected before, are
/// protected at every allocation of the rounds and after them.
pub proof fn lemma_rounds(s: model::HeapModel, rounds: Seq<RoundPlan>, i: nat, base: nat, kept: Set<nat>)
    requires
        rounds_ok(rounds),
        model::wf(s),
        s.count == base,
        base + rounds_objects(rounds, i) <= usize::MAX,
    ensures
        ({
            let ops = rounds_ops(rounds, i, base);
            let t = model::run(s, ops);
            &&& model::valid(s, ops)
            &&& model::wf(t)
            &&& t.count == base + rounds_objects(rounds, i)
            &&& t.roots == s.roots
            &&& model::unregisters_only_from(ops, base)
            &&& model::extends(s, t)
            &&& model::kept_protected(s, kept) ==> {
                &&& rounds_guarded(s, rounds, i, base, kept)
                &&& model::keeps(s, ops, kept)
                &&& model::kept_protected(t, kept)
            }
        }),
    decreases rounds.len() - i,
{
    let ops = rounds_ops(rounds, i, base);
    if i >= rounds.len() {
        assert(model::extends(s, s));
        return;
    }
    let p = rounds[i as int];
    let d: int = bench::K_MIN_TREE_DEPTH + 2 * i;
    assert(round_plan_for(p, d));
    bench::lemma_num_iters_balances_rounds(d);
    let n = p.iters as nat;
    let o = p.objects as nat;
    let first = repeat_pass(p.temp_tree@, o, n, base);
    let second = repeat_pass(p.make_tree@, o, n, base + n * o);
    let rest = rounds_ops(rounds, i + 1, base + round_objects(p));
    model::lemma_run_append(s, first + second, rest, kept, base);
    model::lemma_run_append(s, first, second, kept, base);
    if n > 0 {
        assert(p.temp_tree@ == pass_ops(d, false));
        assert(p.make_tree@ == pass_ops(d, true));
        lemma_repeat_pass(s, d, false, n, base, kept);
        lemma_repeat_pass(model::run(s, first), d, true, n, base + n * o, kept);
        model::lemma_unregisters_lower(second, base + n * o, base);
        model::lemma_unregisters_append(first, second, base);
    } else {
        assert(first =~= Seq::<Op>::empty());
        assert(second =~= Seq::<Op>::empty());
        assert(model::extends(s, s));
    }
    let t1 = model::run(s, first + second);
    assert(t1.count == base + round_objects(p));
    lemma_rounds(t1, rounds, i + 1, base + round_objects(p), kept);
    model::lemma_unregisters_lower(rest, base + round_objects(p), base);
    model::lemma_unregisters_append(first + second, rest, base);
    let t = model::run(t1, rest);
    if n > 0 {
        model::lemma_extends_trans(s, model::run(s, first), t1);
    }
    model::lemma_extends_trans(s, t1, t);
    if model::kept_protected(s, kept) {
        if n > 0 {
            model::lemma_kept_extends(s, t1, kept);
        }
    }
}

/// The operations that set up the long-lived tree: allocate object 0,
/// register it, and populate it with the long-lived depth.
pub open spec fn long_lived_ops() -> Seq<Op> {
    seq![Op::Alloc, Op::AddRoot { obj: 0 }] + populate_ops(bench::K_LONG_LIVED_TREE_DEPTH as int, 0, 1)
}

/// The whole GCBench workload.
pub struct BenchPlan {
    /// Builds the long-lived tree, which stays registered during the rounds.
    pub long_lived: Vec<Op>,
    /// How many objects `long_lived` allocates.
    pub long_lived_objects: usize,
    /// The rounds, from the smallest tree depth up.
    pub rounds: Vec<RoundPlan>,
    /// Unregisters the long-lived tree once the rounds are over; it names
    /// the objects of `long_lived`.
    pub release: Vec<Op>,
}

/// `plan` is the GCBench workload: the long-lived tree, one round for each
/// depth `4, 6, ..., 16`, and the release.
pub open spec fn bench_plan_ok(plan: BenchPlan) -> bool {
    &&& plan.long_lived@ == long_lived_ops()
    &&& plan.long_lived_objects == bench::perfect_size(bench::K_LONG_LIVED_TREE_DEPTH as int)
    &&& plan.rounds.len() == 7
    &&& forall|i: int|
        0 <= i < 7 ==> round_plan_for(#[trigger] plan.rounds@[i], bench::K_MIN_TREE_DEPTH + 2 * i)
    &&& plan.release@ == seq![Op::RemoveRoot { obj: 0 }]
}

/// The GCBench workload: a long-lived tree, then one round for each depth
/// `4, 6, ..., 16`, then the long-lived tree is released.
pub fn gcbench() -> (plan: BenchPlan)
    ensures
        bench_plan_ok(plan),
{
    proof {
        lemma_perfect_size_small(bench::K_LONG_LIVED_TREE_DEPTH as int);
    }
    let mut long_lived: Vec<Op> = Vec::new();
    long_lived.push(Op::Alloc);
    long_lived.push(Op::AddRoot { obj: 0 });
    let long_lived_objects: usize = populate(bench::K_LONG_LIVED_TREE_DEPTH, 0, 1, &mut long_lived);
    assert(long_lived@ =~= long_lived_ops());

    let mut rounds: Vec<RoundPlan> = Vec::new();
    let mut d: i32 = bench::K_MIN_TREE_DEPTH;
    while d <= bench::K_MAX_TREE_DEPTH
        invariant
            bench::K_MIN_TREE_DEPTH <= d <= bench::K_MAX_TREE_DEPTH + 2,
            d == bench::K_MIN_TREE_DEPTH + 2 * rounds.len(),
            forall|i: int|
                0 <= i < rounds.len() ==> round_plan_for(
                    #[trigger] rounds@[i],
                    bench::K_MIN_TREE_DEPTH + 2 * i,
                ),
        decreases bench::K_MAX_TREE_DEPTH + 2 - d,
    {
        let round = time_construction(d);
        rounds.push(round);
        d += 2;
    }
    let mut release: Vec<Op> = Vec::new();
    release.push(Op::RemoveRoot { obj: 0 });
    assert(release@ =~= seq![Op::RemoveRoot { obj: 0 }]);
    BenchPlan { long_lived, long_lived_objects, rounds, release }
}

/// What the long-lived tree does to the heap.
///
/// Run on an empty heap, `long_lived` allocates an exact tree of the
/// long-lived depth rooted at object 0, keeps every object protected
/// whenever it allocates and leaves every object protected by the one
/// registered slot, which `release` then unregisters.
pub proof fn lemma_long_lived()
    ensures
        ({
            let d: int = bench::K_LONG_LIVED_TREE_DEPTH as int;
            let t = model::run(model::empty_heap(), long_lived_ops());
            let release = seq![Op::RemoveRoot { obj: 0 }];
            &&& model::valid(model::empty_heap(), long_lived_ops())
            &&& model::guarded(model::empty_heap(), long_lived_ops(), Set::empty(), 0)
            &&& model::wf(t)
            &&& t.count == bench::perfect_size(d)
            &&& t.roots == Multiset::<nat>::empty().insert(0)
            &&& model::kept_protected(t, model::span(0, bench::perfect_size(d)))
            &&& model::exact_tree(t.b, t.e, 0, d)
            &&& model::reach(t.b, t.e, 0, d) == model::span(0, bench::perfect_size(d))
            &&& model::valid(t, release)
            &&& model::run(t, release).roots == Multiset::<nat>::empty()
        }),
{
    let d: int = bench::K_LONG_LIVED_TREE_DEPTH as int;
    lemma_perfect_size_small(d);
    let s = model::empty_heap();
    assert(model::kept_protected(s, Set::empty()));
    let s2 = lemma_register(s, 0, Set::empty());
    let first = seq![Op::Alloc, Op::AddRoot { obj: 0 }];
    let pop = populate_ops(d, 0, 1);
    model::lemma_run_append(s, first, pop, Set::empty(), 0);
    let kept1 = model::span(0, 1);
    assert(Set::<nat>::empty().union(model::span(0, 1)) =~= kept1);
    lemma_populate(s2, d, 0, 1, kept1);
    model::lemma_guarded_weaken(s2, pop, kept1, 1, Set::empty(), 0);
    let t = model::run(s2, pop);
    assert(model::reach(t.b, t.e, 0, d) =~= model::span(0, bench::perfect_size(d)));
    assert(model::run(s, long_lived_ops()) == t);
    assert forall|x: nat| model::span(0, bench::perfect_size(d)).contains(x) implies #[trigger] model::protected(t, x) by {
        assert(model::reach(t.b, t.e, 0, d).contains(x));
    }
    let release = seq![Op::RemoveRoot { obj: 0 }];
    assert(model::run(t, release) == model::step(t, Op::RemoveRoot { obj: 0 })) by {
        reveal_with_fuel(model::run, 2);
    }
    assert(model::valid(t, release)) by {
        reveal_with_fuel(model::valid, 2);
    }
    assert(t.roots =~= Multiset::<nat>::empty().insert(0));
    assert(model::run(t, release).roots =~= Multiset::<nat>::empty());
}

/// The whole workload on one heap, in the benchmark's order.
///
/// Run from an empty heap, the workload names only existing objects and
/// ends with no slot registered. The long-lived tree is built keeping every
/// object protected. While the rounds run, with their garbage piling up,
/// every object of the long-lived tree is protected at every allocation,
/// every pass keeps its own objects protected whenever it allocates, the
/// long-lived slot stays registered before and after every operation of
/// the rounds, the roots after the rounds are those before them, and the
/// long-lived tree is still protected.
pub proof fn lemma_workload(plan: BenchPlan)
    requires
        bench_plan_ok(plan),
    ensures
        ({
            let l = plan.long_lived_objects as nat;
            let kept = model::span(0, l);
            let tl = model::run(model::empty_heap(), plan.long_lived@);
            let rounds = rounds_ops(plan.rounds@, 0, l);
            let tr = model::run(tl, rounds);
            &&& model::valid(model::empty_heap(), workload_ops(plan))
            &&& model::run(model::empty_heap(), workload_ops(plan)).roots == Multiset::<nat>::empty()
            &&& model::guarded(model::empty_heap(), plan.long_lived@, Set::empty(), 0)
            &&& tl.count == l
            &&& tl.roots == Multiset::<nat>::empty().insert(0)
            &&& model::kept_protected(tl, kept)
            &&& model::stays_registered(tl, rounds, 0)
            &&& model::keeps(tl, rounds, kept)
            &&& rounds_guarded(tl, plan.rounds@, 0, l, kept)
            &&& tr.roots == tl.roots
            &&& model::kept_protected(tr, kept)
        }),
{
    let d: int = bench::K_LONG_LIVED_TREE_DEPTH as int;
    lemma_long_lived();
    lemma_perfect_size_small(d);
    let l = plan.long_lived_objects as nat;
    let kept = model::span(0, l);
    let s = model::empty_heap();
    let tl = model::run(s, plan.long_lived@);
    assert(rounds_ok(plan.rounds@));
    lemma_rounds_objects_bound(plan.rounds@, 0);
    assert(l + rounds_objects(plan.rounds@, 0) <= usize::MAX);
    lemma_rounds(tl, plan.rounds@, 0, l, kept);
    let rounds = rounds_ops(plan.rounds@, 0, l);
    model::lemma_stays_registered(tl, rounds, 0, l);
    let tr = model::run(tl, rounds);
    let release = plan.release@;
    model::lemma_run_append(s, plan.long_lived@ + rounds, release, Set::empty(), 0);
    model::lemma_run_append(s, plan.long_lived@, rounds, Set::empty(), 0);
    assert(model::run(tr, release) == model::step(tr, Op::RemoveRoot { obj: 0 })) by {
        reveal_with_fuel(model::run, 2);
    }
    assert(model::valid(tr, release)) by {
        reveal_with_fuel(model::valid, 2);
    }
    assert(model::run(tr, release).roots =~= Multiset::<nat>::empty());
}

/// Populating a fresh object and building a tree bottom-up give the same
/// tree.
///
/// Run on an empty heap, one pass of each loop of a round at depth `d`
/// allocates the same number of objects, `tree_size(d)` in all, and leaves
/// behind an exact tree of depth `d`: the two trees have the same shape at
/// every depth, and no walk from either root, however long, reaches
/// anything but the objects of that pass.
pub proof fn lemma_populate_matches_make_tree(d: int)
    requires
        0 <= d <= 29,
    ensures
        ({
            let t = model::run(model::empty_heap(), temp_tree_ops(d));
            let u = model::run(model::empty_heap(), make_tree_ops(d, 0));
            let root = make_tree_root(d, 0);
            &&& t.count == u.count
            &&& t.count == bench::tree_size_spec(d)
            &&& model::exact_tree(t.b, t.e, 0, d)
            &&& model::exact_tree(u.b, u.e, root, d)
            &&& forall|d2: int| #[trigger] model::same_shape(t.b, t.e, 0, u.b, u.e, root, d2)
            &&& forall|d2: int| d2 >= d ==> #[trigger] model::reach(t.b, t.e, 0, d2) == model::span(0, t.count)
            &&& forall|d2: int| d2 >= d ==> #[trigger] model::reach(u.b, u.e, root, d2) == model::span(0, u.count)
        }),
{
    lemma_round(d);
    bench::lemma_tree_size_is_perfect_size(d);
    let t = model::run(model::empty_heap(), temp_tree_ops(d));
    let u = model::run(model::empty_heap(), make_tree_ops(d, 0));
    let root: nat = make_tree_root(d, 0);
    assert forall|d2: int| #[trigger] model::same_shape(t.b, t.e, 0, u.b, u.e, root, d2) by {
        model::lemma_exact_trees_same_shape(t.b, t.e, 0, u.b, u.e, root, d, d2);
    }
    assert forall|d2: int| d2 >= d implies #[trigger] model::reach(t.b, t.e, 0, d2) == model::span(0, t.count) by {
        model::lemma_exact_tree_reach(t.b, t.e, 0, d, d2);
    }
    assert forall|d2: int| d2 >= d implies #[trigger] model::reach(u.b, u.e, root, d2) == model::span(0, u.count) by {
        model::lemma_exact_tree_reach(u.b, u.e, root, d, d2);
    }
}

} // verus!
