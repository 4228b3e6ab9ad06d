use vstd::prelude::*;
use vstd::multiset::Multiset;

verus! {

/// One thing the benchmark asks of the collector.
///
/// Objects are named by the order of their allocation: the first object a
/// schedule allocates is object 0, the next object 1, and so on.
#[derive(Clone, Copy, Debug, PartialEq, Eq, Structural)]
pub enum Op {
    /// Allocate a fresh test object, whose pointer fields are null.
    Alloc,
    /// Store object `child` into field `b` of object `parent`.
    SetB { parent: usize, child: usize },
    /// Store object `child` into field `e` of object `parent`.
    SetE { parent: usize, child: usize },
    /// Register the slot that holds object `obj` as a root.
    AddRoot { obj: usize },
    /// Unregister the slot that holds object `obj`.
    RemoveRoot { obj: usize },
}

/// What the collector's heap looks like to the benchmark.
///
/// `count` objects have been allocated; `b` and `e` map an object to the
/// object its field of that name points to (an absent key is a null field);
/// `roots` holds the objects whose slots are registered, with multiplicity.
#[verifier::ext_equal]
pub struct HeapModel {
    pub count: nat,
    pub b: Map<nat, nat>,
    pub e: Map<nat, nat>,
    pub roots: Multiset<nat>,
}

/// The heap before anything is allocated.
pub open spec fn empty_heap() -> HeapModel {
    HeapModel { count: 0, b: Map::empty(), e: Map::empty(), roots: Multiset::empty() }
}

/// The heap after one operation.
pub open spec fn step(s: HeapModel, op: Op) -> HeapModel {
    match op {
        Op::Alloc => HeapModel { count: s.count + 1, b: s.b, e: s.e, roots: s.roots },
        Op::SetB { parent, child } => HeapModel {
            count: s.count,
            b: s.b.insert(parent as nat, child as nat),
            e: s.e,
            roots: s.roots,
        },
        Op::SetE { parent, child } => HeapModel {
            count: s.count,
            b: s.b,
            e: s.e.insert(parent as nat, child as nat),
            roots: s.roots,
        },
        Op::AddRoot { obj } => HeapModel {
            count: s.count,
            b: s.b,
            e: s.e,
            roots: s.roots.insert(obj as nat),
        },
        Op::RemoveRoot { obj } => HeapModel {
            count: s.count,
            b: s.b,
            e: s.e,
            roots: s.roots.remove(obj as nat),
        },
    }
}

/// An operation only names objects that exist, and only unregisters a
/// slot that is registered.
pub open spec fn op_ok(s: HeapModel, op: Op) -> bool {
    match op {
        Op::Alloc => true,
        Op::SetB { parent, child } => parent < s.count && child < s.count,
        Op::SetE { parent, child } => parent < s.count && child < s.count,
        Op::AddRoot { obj } => obj < s.count,
        Op::RemoveRoot { obj } => s.roots.count(obj as nat) > 0,
    }
}

/// The heap after a sequence of operations.
pub open spec fn run(s: HeapModel, ops: Seq<Op>) -> HeapModel
    decreases ops.len(),
{
    if ops.len() == 0 {
        s
    } else {
        run(step(s, ops[0]), ops.drop_first())
    }
}

/// Every operation of the sequence is fine in the heap it meets.
pub open spec fn valid(s: HeapModel, ops: Seq<Op>) -> bool
    decreases ops.len(),
{
    ops.len() == 0 || (op_ok(s, ops[0]) && valid(step(s, ops[0]), ops.drop_first()))
}

/// Fields only point to allocated objects, and only allocated objects have
/// non-null fields.
pub open spec fn wf(s: HeapModel) -> bool {
    &&& forall|k: nat| #[trigger] s.b.contains_key(k) ==> k < s.count && s.b[k] < s.count
    &&& forall|k: nat| #[trigger] s.e.contains_key(k) ==> k < s.count && s.e[k] < s.count
}

/// The objects reachable from `n` along at most `d` pointer fields.
pub open spec fn reach(b: Map<nat, nat>, e: Map<nat, nat>, n: nat, d: int) -> Set<nat>
    decreases d,
{
    if d <= 0 {
        set![n]
    } else {
        let via_b = if b.contains_key(n) {
            reach(b, e, b[n], d - 1)
        } else {
            Set::empty()
        };
        let via_e = if e.contains_key(n) {
            reach(b, e, e[n], d - 1)
        } else {
            Set::empty()
        };
        set![n].union(via_b).union(via_e)
    }
}

/// Below `n` lies a perfect binary tree of depth exactly `d`: every object
/// above depth `d` has both fields set, and every object at depth `d` has
/// neither.
pub open spec fn exact_tree(b: Map<nat, nat>, e: Map<nat, nat>, n: nat, d: int) -> bool
    decreases d,
{
    if d <= 0 {
        !b.contains_key(n) && !e.contains_key(n)
    } else {
        &&& b.contains_key(n)
        &&& e.contains_key(n)
        &&& exact_tree(b, e, b[n], d - 1)
        &&& exact_tree(b, e, e[n], d - 1)
    }
}

/// Walking down at most `d` fields from `x` in the heap `(b1, e1)` and from
/// `y` in the heap `(b2, e2)` meets the same pattern of set and null fields.
pub open spec fn same_shape(
    b1: Map<nat, nat>,
    e1: Map<nat, nat>,
    x: nat,
    b2: Map<nat, nat>,
    e2: Map<nat, nat>,
    y: nat,
    d: int,
) -> bool
    decreases d,
{
    &&& b1.contains_key(x) == b2.contains_key(y)
    &&& e1.contains_key(x) == e2.contains_key(y)
    &&& d > 0 ==> {
        &&& b1.contains_key(x) ==> same_shape(b1, e1, b1[x], b2, e2, b2[y], d - 1)
        &&& e1.contains_key(x) ==> same_shape(b1, e1, e1[x], b2, e2, e2[y], d - 1)
    }
}

/// The collector cannot reclaim object `x`: it is reachable from a
/// registered slot.
pub open spec fn protected(s: HeapModel, x: nat) -> bool {
    exists|r: nat, d: int| s.roots.count(r) > 0 && #[trigger] reach(s.b, s.e, r, d).contains(x)
}

/// Every object in `kept` is protected.
pub open spec fn kept_protected(s: HeapModel, kept: Set<nat>) -> bool {
    forall|x: nat| kept.contains(x) ==> #[trigger] protected(s, x)
}

/// Every object in `kept`, and every allocated object numbered `lo` or
/// more, is protected.
pub open spec fn covered(s: HeapModel, kept: Set<nat>, lo: nat) -> bool {
    forall|x: nat| (kept.contains(x) || (lo <= x && x < s.count)) ==> #[trigger] protected(s, x)
}

/// Whenever the sequence allocates (and so may trigger a collection), the
/// objects in `kept` and every object allocated from number `lo` on are
/// protected.
///
/// With `lo` the number of the sequence's first allocation, this says the
/// sequence keeps its own objects alive, besides those in `kept`; objects
/// below `lo` that are not in `kept` may be garbage.
pub open spec fn guarded(s: HeapModel, ops: Seq<Op>, kept: Set<nat>, lo: nat) -> bool
    decreases ops.len(),
{
    ops.len() == 0 || ((ops[0] is Alloc ==> covered(s, kept, lo)) && guarded(
        step(s, ops[0]),
        ops.drop_first(),
        kept,
        lo,
    ))
}

/// Whenever the sequence allocates, the objects in `kept` are protected.
pub open spec fn keeps(s: HeapModel, ops: Seq<Op>, kept: Set<nat>) -> bool
    decreases ops.len(),
{
    ops.len() == 0 || ((ops[0] is Alloc ==> kept_protected(s, kept)) && keeps(
        step(s, ops[0]),
        ops.drop_first(),
        kept,
    ))
}

/// `t` keeps everything of `s`: its objects, its non-null fields and its
/// registered slots.
pub open spec fn extends(s: HeapModel, t: HeapModel) -> bool {
    &&& s.count <= t.count
    &&& fields_kept(s, t)
    &&& s.roots.subset_of(t.roots)
}

/// Every non-null field of `s` is set, to the same object, in `t`.
pub open spec fn fields_kept(s: HeapModel, t: HeapModel) -> bool {
    &&& forall|k: nat| #[trigger] s.b.contains_key(k) ==> t.b.contains_key(k) && t.b[k] == s.b[k]
    &&& forall|k: nat| #[trigger] s.e.contains_key(k) ==> t.e.contains_key(k) && t.e[k] == s.e[k]
}

/// Object `k` has the same fields in `s` and in `t`.
pub open spec fn same_fields(s: HeapModel, t: HeapModel, k: nat) -> bool {
    &&& s.b.contains_key(k) == t.b.contains_key(k)
    &&& s.b.contains_key(k) ==> s.b[k] == t.b[k]
    &&& s.e.contains_key(k) == t.e.contains_key(k)
    &&& s.e.contains_key(k) ==> s.e[k] == t.e[k]
}

/// The object numbers `lo`, ..., `hi - 1`.
pub open spec fn span(lo: nat, hi: nat) -> Set<nat> {
    Set::new(|x: nat| lo <= x && x < hi)
}

/// Running `a` then `b` is running `a + b`.
pub proof fn lemma_run_append(s: HeapModel, a: Seq<Op>, b: Seq<Op>, kept: Set<nat>, lo: nat)
    ensures
        run(s, a + b) == run(run(s, a), b),
        valid(s, a + b) == (valid(s, a) && valid(run(s, a), b)),
        guarded(s, a + b, kept, lo) == (guarded(s, a, kept, lo) && guarded(run(s, a), b, kept, lo)),
        keeps(s, a + b, kept) == (keeps(s, a, kept) && keeps(run(s, a), b, kept)),
    decreases a.len(),
{
    if a.len() == 0 {
        assert(a + b =~= b);
    } else {
        assert((a + b).drop_first() =~= a.drop_first() + b);
        assert((a + b)[0] == a[0]);
        lemma_run_append(step(s, a[0]), a.drop_first(), b, kept, lo);
    }
}

/// A guarantee for more objects implies one for fewer: protecting `kept1`
/// and everything from `lo1` on protects `kept2` and everything from `lo2`
/// on, when `kept2` and the numbers `lo2 .. lo1` all lie in `kept1`.
pub proof fn lemma_guarded_weaken(
    s: HeapModel,
    ops: Seq<Op>,
    kept1: Set<nat>,
    lo1: nat,
    kept2: Set<nat>,
    lo2: nat,
)
    requires
        guarded(s, ops, kept1, lo1),
        lo2 <= lo1,
        forall|x: nat| (kept2.contains(x) || (lo2 <= x && x < lo1)) ==> kept1.contains(x),
    ensures
        guarded(s, ops, kept2, lo2),
    decreases ops.len(),
{
    if ops.len() > 0 {
        if ops[0] is Alloc {
            assert forall|x: nat| (kept2.contains(x) || (lo2 <= x && x < s.count)) implies #[trigger] protected(s, x) by {
                if kept2.contains(x) || x < lo1 {
                    assert(kept1.contains(x));
                }
            }
        }
        lemma_guarded_weaken(step(s, ops[0]), ops.drop_first(), kept1, lo1, kept2, lo2);
    }
}

/// A sequence that keeps `kept` and its own objects protected keeps `kept`
/// protected.
pub proof fn lemma_guarded_keeps(s: HeapModel, ops: Seq<Op>, kept: Set<nat>, lo: nat)
    requires
        guarded(s, ops, kept, lo),
    ensures
        keeps(s, ops, kept),
    decreases ops.len(),
{
    if ops.len() > 0 {
        lemma_guarded_keeps(step(s, ops[0]), ops.drop_first(), kept, lo);
    }
}

/// The start of a walk is reachable.
pub proof fn lemma_reach_start(b: Map<nat, nat>, e: Map<nat, nat>, n: nat, d: int)
    ensures
        reach(b, e, n, d).contains(n),
{
}

/// More fields reach more objects.
pub proof fn lemma_reach_grows(s: HeapModel, t: HeapModel, n: nat, d: int)
    requires
        fields_kept(s, t),
    ensures
        reach(s.b, s.e, n, d).subset_of(reach(t.b, t.e, n, d)),
    decreases d,
{
    if d > 0 {
        if s.b.contains_key(n) {
            assert(t.b.contains_key(n) && t.b[n] == s.b[n]);
            lemma_reach_grows(s, t, s.b[n], d - 1);
        }
        if s.e.contains_key(n) {
            assert(t.e.contains_key(n) && t.e[n] == s.e[n]);
            lemma_reach_grows(s, t, s.e[n], d - 1);
        }
    }
}

/// A protected object stays protected in every heap that keeps all fields
/// and registered slots.
pub proof fn lemma_protected_extends(s: HeapModel, t: HeapModel, x: nat)
    requires
        extends(s, t),
        protected(s, x),
    ensures
        protected(t, x),
{
    let (r, d) = choose|r: nat, d: int| s.roots.count(r) > 0 && #[trigger] reach(s.b, s.e, r, d).contains(x);
    lemma_reach_grows(s, t, r, d);
    assert(t.roots.count(r) > 0);
    assert(reach(t.b, t.e, r, d).contains(x));
}

/// Extension keeps protected objects protected.
pub proof fn lemma_kept_extends(s: HeapModel, t: HeapModel, kept: Set<nat>)
    requires
        extends(s, t),
        kept_protected(s, kept),
    ensures
        kept_protected(t, kept),
{
    assert forall|x: nat| kept.contains(x) implies #[trigger] protected(t, x) by {
        lemma_protected_extends(s, t, x);
    }
}

/// Extension is transitive.
pub proof fn lemma_extends_trans(s: HeapModel, t: HeapModel, u: HeapModel)
    requires
        extends(s, t),
        extends(t, u),
    ensures
        extends(s, u),
{
    assert(fields_kept(s, u));
    assert forall|v: nat| s.roots.count(v) <= u.roots.count(v) by {
        assert(s.roots.count(v) <= t.roots.count(v));
        assert(t.roots.count(v) <= u.roots.count(v));
    }
}

/// What is reachable from `n`, and whether an exact tree lies below it,
/// depends only on the fields of the objects reached.
pub proof fn lemma_reach_frame(s: HeapModel, t: HeapModel, n: nat, d: int)
    requires
        forall|k: nat| reach(s.b, s.e, n, d).contains(k) ==> same_fields(s, t, k),
    ensures
        reach(s.b, s.e, n, d) == reach(t.b, t.e, n, d),
        exact_tree(s.b, s.e, n, d) == exact_tree(t.b, t.e, n, d),
    decreases d,
{
    assert(reach(s.b, s.e, n, d).contains(n));
    assert(same_fields(s, t, n));
    if d > 0 {
        if s.b.contains_key(n) {
            let c = s.b[n];
            assert forall|k: nat| reach(s.b, s.e, c, d - 1).contains(k) implies same_fields(s, t, k) by {
                assert(reach(s.b, s.e, n, d).contains(k));
            }
            lemma_reach_frame(s, t, c, d - 1);
        }
        if s.e.contains_key(n) {
            let c = s.e[n];
            assert forall|k: nat| reach(s.b, s.e, c, d - 1).contains(k) implies same_fields(s, t, k) by {
                assert(reach(s.b, s.e, n, d).contains(k));
            }
            lemma_reach_frame(s, t, c, d - 1);
        }
        assert(reach(s.b, s.e, n, d) =~= reach(t.b, t.e, n, d));
    }
}

/// A field of a reachable object leads one step further.
pub proof fn lemma_reach_child(b: Map<nat, nat>, e: Map<nat, nat>, r: nat, d: int, x: nat)
    requires
        d >= 0,
        reach(b, e, r, d).contains(x),
    ensures
        b.contains_key(x) ==> reach(b, e, r, d + 1).contains(b[x]),
        e.contains_key(x) ==> reach(b, e, r, d + 1).contains(e[x]),
    decreases d,
{
    if x == r {
        if b.contains_key(x) {
            lemma_reach_start(b, e, b[x], d);
        }
        if e.contains_key(x) {
            lemma_reach_start(b, e, e[x], d);
        }
    } else {
        assert(d > 0);
        if b.contains_key(r) && reach(b, e, b[r], d - 1).contains(x) {
            lemma_reach_child(b, e, b[r], d - 1, x);
        } else {
            assert(e.contains_key(r) && reach(b, e, e[r], d - 1).contains(x));
            lemma_reach_child(b, e, e[r], d - 1, x);
        }
    }
}

/// A field set on a protected object protects its target.
pub proof fn lemma_protected_child(s: HeapModel, x: nat)
    requires
        protected(s, x),
    ensures
        s.b.contains_key(x) ==> protected(s, s.b[x]),
        s.e.contains_key(x) ==> protected(s, s.e[x]),
{
    let (r, d) = choose|r: nat, d: int| s.roots.count(r) > 0 && #[trigger] reach(s.b, s.e, r, d).contains(x);
    let d0: int = if d < 0 { 0 } else { d };
    assert(reach(s.b, s.e, r, d0).contains(x));
    lemma_reach_child(s.b, s.e, r, d0, x);
    if s.b.contains_key(x) {
        assert(reach(s.b, s.e, r, d0 + 1).contains(s.b[x]));
    }
    if s.e.contains_key(x) {
        assert(reach(s.b, s.e, r, d0 + 1).contains(s.e[x]));
    }
}

/// Walking deeper reaches at least as much.
pub proof fn lemma_reach_deeper(b: Map<nat, nat>, e: Map<nat, nat>, n: nat, d: int, d2: int)
    requires
        d <= d2,
    ensures
        reach(b, e, n, d).subset_of(reach(b, e, n, d2)),
    decreases d,
{
    if d > 0 {
        if b.contains_key(n) {
            lemma_reach_deeper(b, e, b[n], d - 1, d2 - 1);
        }
        if e.contains_key(n) {
            lemma_reach_deeper(b, e, e[n], d - 1, d2 - 1);
        }
    } else {
        lemma_reach_start(b, e, n, d2);
    }
}

/// Reachability composes: what `y` reaches in `d2` steps, where `n`
/// reaches `y` in `d1` steps, `n` reaches in `d1 + d2` steps.
pub proof fn lemma_reach_trans(
    b: Map<nat, nat>,
    e: Map<nat, nat>,
    n: nat,
    d1: int,
    y: nat,
    d2: int,
    x: nat,
)
    requires
        d1 >= 0,
        d2 >= 0,
        reach(b, e, n, d1).contains(y),
        reach(b, e, y, d2).contains(x),
    ensures
        reach(b, e, n, d1 + d2).contains(x),
    decreases d1,
{
    if y == n {
        lemma_reach_deeper(b, e, n, d2, d1 + d2);
    } else {
        assert(d1 > 0);
        if b.contains_key(n) && reach(b, e, b[n], d1 - 1).contains(y) {
            lemma_reach_trans(b, e, b[n], d1 - 1, y, d2, x);
        } else {
            lemma_reach_trans(b, e, e[n], d1 - 1, y, d2, x);
        }
    }
}

/// Everything a protected object reaches is protected.
pub proof fn lemma_protected_reach(s: HeapModel, y: nat, d: int, x: nat)
    requires
        d >= 0,
        protected(s, y),
        reach(s.b, s.e, y, d).contains(x),
    ensures
        protected(s, x),
{
    let (r, dr) = choose|r: nat, dr: int| s.roots.count(r) > 0 && #[trigger] reach(s.b, s.e, r, dr).contains(y);
    let d0: int = if dr < 0 { 0 } else { dr };
    assert(reach(s.b, s.e, r, d0).contains(y));
    lemma_reach_trans(s.b, s.e, r, d0, y, d, x);
    assert(reach(s.b, s.e, r, d0 + d).contains(x));
}

/// Below an exact tree nothing lies deeper: walking any further than its
/// depth reaches no more objects, so its objects are all the root reaches.
pub proof fn lemma_exact_tree_reach(b: Map<nat, nat>, e: Map<nat, nat>, n: nat, d: int, d2: int)
    requires
        exact_tree(b, e, n, d),
        d <= d2,
    ensures
        reach(b, e, n, d2) == reach(b, e, n, d),
    decreases d,
{
    if d <= 0 {
        assert(reach(b, e, n, d2) =~= reach(b, e, n, d));
    } else {
        lemma_exact_tree_reach(b, e, b[n], d - 1, d2 - 1);
        lemma_exact_tree_reach(b, e, e[n], d - 1, d2 - 1);
        assert(reach(b, e, n, d2) =~= reach(b, e, n, d));
    }
}

/// Two exact trees of the same depth have the same shape all the way down.
pub proof fn lemma_exact_trees_same_shape(
    b1: Map<nat, nat>,
    e1: Map<nat, nat>,
    x: nat,
    b2: Map<nat, nat>,
    e2: Map<nat, nat>,
    y: nat,
    d: int,
    d2: int,
)
    requires
        exact_tree(b1, e1, x, d),
        exact_tree(b2, e2, y, d),
    ensures
        same_shape(b1, e1, x, b2, e2, y, d2),
    decreases d2,
{
    if d > 0 && d2 > 0 {
        lemma_exact_trees_same_shape(b1, e1, b1[x], b2, e2, b2[y], d - 1, d2 - 1);
        lemma_exact_trees_same_shape(b1, e1, e1[x], b2, e2, e2[y], d - 1, d2 - 1);
    }
}

/// The operation unregisters an object numbered below `lo`.
pub open spec fn unregisters_below(op: Op, lo: nat) -> bool {
    match op {
        Op::RemoveRoot { obj } => obj < lo,
        _ => false,
    }
}

/// No operation of the sequence unregisters an object numbered below `lo`.
pub open spec fn unregisters_only_from(ops: Seq<Op>, lo: nat) -> bool {
    forall|i: int| 0 <= i < ops.len() ==> !unregisters_below(#[trigger] ops[i], lo)
}

/// The slot of object `r` is registered before every operation of the
/// sequence and after the last.
pub open spec fn stays_registered(s: HeapModel, ops: Seq<Op>, r: nat) -> bool
    decreases ops.len(),
{
    s.roots.count(r) > 0 && (ops.len() == 0 || stays_registered(step(s, ops[0]), ops.drop_first(), r))
}

/// Sequences that leave the objects below `lo` registered compose.
pub proof fn lemma_unregisters_append(a: Seq<Op>, b: Seq<Op>, lo: nat)
    requires
        unregisters_only_from(a, lo),
        unregisters_only_from(b, lo),
    ensures
        unregisters_only_from(a + b, lo),
{
    assert forall|i: int| 0 <= i < (a + b).len() implies !unregisters_below(#[trigger] (a + b)[i], lo) by {
        if i < a.len() {
            assert((a + b)[i] == a[i]);
        } else {
            assert((a + b)[i] == b[i - a.len()]);
        }
    }
}

/// Leaving everything from `lo1` on registered leaves everything from any
/// smaller `lo2` on registered.
pub proof fn lemma_unregisters_lower(ops: Seq<Op>, lo1: nat, lo2: nat)
    requires
        unregisters_only_from(ops, lo1),
        lo2 <= lo1,
    ensures
        unregisters_only_from(ops, lo2),
{
    assert forall|i: int| 0 <= i < ops.len() implies !unregisters_below(#[trigger] ops[i], lo2) by {
        assert(!unregisters_below(ops[i], lo1));
    }
}

/// A slot that is registered and that no operation unregisters stays
/// registered throughout.
pub proof fn lemma_stays_registered(s: HeapModel, ops: Seq<Op>, r: nat, lo: nat)
    requires
        s.roots.count(r) > 0,
        r < lo,
        unregisters_only_from(ops, lo),
    ensures
        stays_registered(s, ops, r),
    decreases ops.len(),
{
    if ops.len() > 0 {
        assert(!unregisters_below(ops[0], lo));
        assert(step(s, ops[0]).roots.count(r) > 0);
        assert forall|i: int| 0 <= i < ops.drop_first().len() implies !unregisters_below(
            #[trigger] ops.drop_first()[i],
            lo,
        ) by {
            assert(ops.drop_first()[i] == ops[i + 1]);
        }
        lemma_stays_registered(step(s, ops[0]), ops.drop_first(), r, lo);
    }
}

} // verus!
