//! Fast Close-by-One: depth-first enumeration of the concepts of a context,
//! each reached along one canonical path, with the closures that failed the
//! canonicity test handed down to prune later tests. The dual variant walks
//! objects instead of properties.
use vstd::prelude::*;
use crate::bitset::{BitSet, bit128, singleton, set_bits, atom_decrement};
use crate::context::{FcaContext, bits_of, fits, raw_bit, closure_laws, closure_monotone, prime_antitone, subset};
use crate::lindig::{pow2n, lemma_pow2_pos, closed, bottom_below_every_extent};

verus! {

/// A pending node of the depth-first search: a concept, the first index
/// that may extend it, and the closures that failed below each index.
struct Frame {
    extent: BitSet,
    intent: BitSet,
    pivot: usize,
    failed: Vec<BitSet>,
}

/// Every pending concept is a concept, with well-formed failed closures of
/// width `w` for each of the `m` indices that the search walks.
spec fn frames_ok(ctx: &FcaContext, stack: Seq<Frame>, m: nat, w: nat) -> bool {
    forall|k: int|
        0 <= k < stack.len() ==> {
            &&& (#[trigger] stack[k]).extent.wf()
            &&& stack[k].intent.wf()
            &&& ctx.is_concept(stack[k].extent@, stack[k].intent@)
            &&& stack[k].pivot <= m
            &&& stack[k].failed@.len() == m
            &&& forall|q: int|
                0 <= q < m ==> (#[trigger] stack[k].failed@[q]).wf() && stack[k].failed@[q]@.len()
                    == w
        }
}

/// What remains to be searched: a frame with pivot `p` stands for at most
/// two to the `m - p` frames.
spec fn weight(stack: Seq<Frame>, m: nat) -> nat
    decreases stack.len(),
{
    if stack.len() == 0 {
        0
    } else {
        weight(stack.drop_last(), m) + pow2n((m - stack.last().pivot) as nat)
    }
}

/// `d` lies in the part of the search left to a frame with key `b` and
/// pivot `p`: it contains `b` and agrees with it below `p`.
pub open spec fn in_region(d: Seq<bool>, b: Seq<bool>, p: int) -> bool {
    &&& d.len() == b.len()
    &&& subset(b, d)
    &&& forall|q: int| 0 <= q < p ==> d[q] == b[q]
}

/// No set lies in both regions.
pub open spec fn regions_disjoint(b1: Seq<bool>, p1: int, b2: Seq<bool>, p2: int) -> bool {
    forall|d: Seq<bool>| #![trigger in_region(d, b1, p1)] !(in_region(d, b1, p1) && in_region(d, b2, p2))
}

/// `c` is a canonical extension of `b` by index `jc`, searched from `p`:
/// it adds `jc` to `b` and agrees with `b` below `jc`.
pub open spec fn child_of(c: Seq<bool>, jc: int, b: Seq<bool>, p: int) -> bool {
    &&& 0 <= p <= jc < b.len()
    &&& c.len() == b.len()
    &&& c[jc]
    &&& !b[jc]
    &&& subset(b, c)
    &&& forall|q: int| 0 <= q < jc ==> c[q] == b[q]
}

proof fn lemma_child_region_inside(c: Seq<bool>, jc: int, b: Seq<bool>, p: int, d: Seq<bool>)
    requires
        child_of(c, jc, b, p),
        in_region(d, c, jc + 1),
    ensures
        in_region(d, b, p),
{
    assert forall|q: int| 0 <= q < b.len() && #[trigger] b[q] implies d[q] by {
        assert(c[q]);
    }
}

proof fn lemma_children_disjoint(c1: Seq<bool>, j1: int, c2: Seq<bool>, j2: int, b: Seq<bool>, p: int)
    requires
        child_of(c1, j1, b, p),
        child_of(c2, j2, b, p),
        j1 < j2,
    ensures
        regions_disjoint(c1, j1 + 1, c2, j2 + 1),
        regions_disjoint(c2, j2 + 1, c1, j1 + 1),
{
    assert forall|d: Seq<bool>| !(#[trigger] in_region(d, c1, j1 + 1) && in_region(d, c2, j2 + 1)) by {
        if in_region(d, c1, j1 + 1) && in_region(d, c2, j2 + 1) {
            assert(d[j1] == c1[j1]);
            assert(d[j1] == c2[j1]);
        }
    }
}

proof fn lemma_region_shrinks(x: Seq<bool>, px: int, c: Seq<bool>, jc: int, b: Seq<bool>, p: int)
    requires
        regions_disjoint(x, px, b, p),
        child_of(c, jc, b, p),
    ensures
        regions_disjoint(x, px, c, jc + 1),
{
    assert forall|d: Seq<bool>| !(#[trigger] in_region(d, x, px) && in_region(d, c, jc + 1)) by {
        if in_region(d, x, px) && in_region(d, c, jc + 1) {
            lemma_child_region_inside(c, jc, b, p, d);
        }
    }
}

proof fn lemma_own_region(b: Seq<bool>, p: int)
    ensures
        in_region(b, b, p),
{
    assert(subset(b, b));
}

/// The closure of a set of properties.
pub open spec fn closure_p(ctx: &FcaContext, b: Seq<bool>) -> Seq<bool> {
    ctx.prime_obj(ctx.prime_prop(b))
}

/// `d` is an intent: a closed set of properties.
pub open spec fn is_intent(ctx: &FcaContext, d: Seq<bool>) -> bool {
    d.len() == ctx.n_prop() && closure_p(ctx, d) == d
}

/// Each failed closure recorded for index `j` lies inside the closure of
/// `b` with `j` added.
spec fn failed_ok(ctx: &FcaContext, b: Seq<bool>, failed: Seq<BitSet>, m: nat) -> bool {
    forall|j: int| 0 <= j < m ==> #[trigger] subset(failed[j]@, closure_p(ctx, b.update(j, true)))
}

/// `jd` is the first index at which `d` and `b` differ, and there `d` holds it.
spec fn first_diff(d: Seq<bool>, b: Seq<bool>, jd: int) -> bool {
    &&& 0 <= jd < d.len()
    &&& d[jd]
    &&& !b[jd]
    &&& forall|q: int| 0 <= q < jd ==> d[q] == b[q]
}

proof fn lemma_first_diff(d: Seq<bool>, b: Seq<bool>, k: int) -> (jd: int)
    requires
        subset(b, d),
        0 <= k <= d.len(),
        exists|q: int| 0 <= q < k && d[q] && !b[q],
    ensures
        first_diff(d, b, jd),
    decreases k,
{
    if exists|q: int| 0 <= q < k - 1 && d[q] && !b[q] {
        lemma_first_diff(d, b, k - 1)
    } else {
        let jd = k - 1;
        assert forall|q: int| 0 <= q < jd implies d[q] == b[q] by {
            if b[q] {
                assert(d[q]);
            }
        }
        jd
    }
}

/// Closures of larger sets are larger.
proof fn lemma_closure_p_monotone(ctx: &FcaContext, b1: Seq<bool>, b2: Seq<bool>)
    requires
        subset(b1, b2),
        b1.len() == ctx.n_prop(),
    ensures
        subset(closure_p(ctx, b1), closure_p(ctx, b2)),
{
    let a = Seq::new(ctx.n_obj(), |i: int| false);
    assert(subset(a, a));
    closure_monotone(ctx, a, a, b1, b2);
}

/// Every intent in the region of the frame `(b, p)` whose first index
/// outside `b` is `j` or later lies in the region of a frame of `stack` from
/// position `lo` on.
spec fn children_cover(ctx: &FcaContext, b: Seq<bool>, p: int, j: int, stack: Seq<Frame>, lo: int) -> bool {
    forall|d: Seq<bool>, jd: int|
        is_intent(ctx, d) && in_region(d, b, p) && #[trigger] first_diff(d, b, jd) && jd >= j ==> exists|
            k: int,
        | lo <= k < stack.len() && in_region(d, (#[trigger] stack[k]).intent@, stack[k].pivot as int)
}

proof fn lemma_children_cover_grows(
    ctx: &FcaContext,
    b: Seq<bool>,
    p: int,
    j: int,
    s1: Seq<Frame>,
    s2: Seq<Frame>,
    lo: int,
)
    requires
        children_cover(ctx, b, p, j, s1, lo),
        0 <= lo,
        s1.len() <= s2.len(),
        forall|k: int| 0 <= k < s1.len() ==> s2[k] == s1[k],
    ensures
        children_cover(ctx, b, p, j, s2, lo),
{
    assert forall|d: Seq<bool>, jd: int|
        is_intent(ctx, d) && in_region(d, b, p) && #[trigger] first_diff(d, b, jd) && jd >= j implies exists|
        k: int,
    | lo <= k < s2.len() && in_region(d, (#[trigger] s2[k]).intent@, s2[k].pivot as int) by {
        let k = choose|k: int| lo <= k < s1.len() && in_region(d, (#[trigger] s1[k]).intent@, s1[k].pivot as int);
        assert(s2[k] == s1[k]);
    }
}

/// The closure of a set of objects.
pub open spec fn closure_o(ctx: &FcaContext, a: Seq<bool>) -> Seq<bool> {
    ctx.prime_prop(ctx.prime_obj(a))
}

/// `d` is an extent: a closed set of objects.
pub open spec fn is_extent(ctx: &FcaContext, d: Seq<bool>) -> bool {
    d.len() == ctx.n_obj() && closure_o(ctx, d) == d
}

/// Each failed closure recorded for object `j` lies inside the closure of
/// `a` with `j` added.
spec fn failed_ok_o(ctx: &FcaContext, a: Seq<bool>, failed: Seq<BitSet>, m: nat) -> bool {
    forall|j: int| 0 <= j < m ==> #[trigger] subset(failed[j]@, closure_o(ctx, a.update(j, true)))
}

/// Every extent in the region of the frame `(a, p)` whose first object
/// outside `a` is `j` or later lies in the region of a frame of `stack` from
/// position `lo` on.
spec fn children_cover_o(ctx: &FcaContext, a: Seq<bool>, p: int, j: int, stack: Seq<Frame>, lo: int) -> bool {
    forall|d: Seq<bool>, jd: int|
        is_extent(ctx, d) && in_region(d, a, p) && #[trigger] first_diff(d, a, jd) && jd >= j ==> exists|
            k: int,
        | lo <= k < stack.len() && in_region(d, (#[trigger] stack[k]).extent@, stack[k].pivot as int)
}

proof fn lemma_children_cover_grows_o(
    ctx: &FcaContext,
    a: Seq<bool>,
    p: int,
    j: int,
    s1: Seq<Frame>,
    s2: Seq<Frame>,
    lo: int,
)
    requires
        children_cover_o(ctx, a, p, j, s1, lo),
        0 <= lo,
        s1.len() <= s2.len(),
        forall|k: int| 0 <= k < s1.len() ==> s2[k] == s1[k],
    ensures
        children_cover_o(ctx, a, p, j, s2, lo),
{
    assert forall|d: Seq<bool>, jd: int|
        is_extent(ctx, d) && in_region(d, a, p) && #[trigger] first_diff(d, a, jd) && jd >= j implies exists|
        k: int,
    | lo <= k < s2.len() && in_region(d, (#[trigger] s2[k]).extent@, s2[k].pivot as int) by {
        let k = choose|k: int| lo <= k < s1.len() && in_region(d, (#[trigger] s1[k]).extent@, s1[k].pivot as int);
        assert(s2[k] == s1[k]);
    }
}

/// Closures of larger sets of objects are larger.
proof fn lemma_closure_o_monotone(ctx: &FcaContext, a1: Seq<bool>, a2: Seq<bool>)
    requires
        subset(a1, a2),
        a1.len() == ctx.n_obj(),
    ensures
        subset(closure_o(ctx, a1), closure_o(ctx, a2)),
{
    let b = Seq::new(ctx.n_prop(), |i: int| false);
    assert(subset(b, b));
    closure_monotone(ctx, a1, a2, b, b);
}

/// A copy of each set.
fn copy_sets(sets: &Vec<BitSet>) -> (r: Vec<BitSet>)
    requires
        forall|q: int| 0 <= q < sets@.len() ==> (#[trigger] sets@[q]).wf(),
    ensures
        r@.len() == sets@.len(),
        forall|q: int| 0 <= q < r@.len() ==> (#[trigger] r@[q]).wf() && r@[q]@ == sets@[q]@,
{
    let mut r: Vec<BitSet> = Vec::new();
    let mut q: usize = 0;
    while q < sets.len()
        invariant
            q <= sets@.len(),
            forall|q2: int| 0 <= q2 < sets@.len() ==> (#[trigger] sets@[q2]).wf(),
            r@.len() == q,
            forall|q2: int| 0 <= q2 < q ==> (#[trigger] r@[q2]).wf() && r@[q2]@ == sets@[q2]@,
        decreases sets@.len() - q,
    {
        r.push(sets[q].copy());
        q += 1;
    }
    r
}

/// The full set of width `n`.
spec fn full_set(n: nat) -> Seq<bool> {
    Seq::new(n, |p: int| true)
}

proof fn lemma_all_atoms(n: nat)
    ensures
        set_bits(full_set(n)).len() == n,
        forall|k: int| 0 <= k < n ==> #[trigger] set_bits(full_set(n))[k] == k,
    decreases n,
{
    if n > 0 {
        let s = full_set(n);
        assert(s.drop_last() =~= full_set((n - 1) as nat));
        lemma_all_atoms((n - 1) as nat);
    }
}

/// Fast Close-by-One over properties: every concept reached from the
/// closure of the full object set, as `(extent, intent)`.
pub fn fcbo_fast_generate_from(ctx: &FcaContext) -> (r: Vec<(u128, u128)>)
    requires
        ctx.wf(),
        ctx.n_obj() <= 128,
        ctx.n_prop() <= 128,
    ensures
        r@.len() >= 1,
        forall|k: int|
            0 <= k < r@.len() ==> fits((#[trigger] r@[k]).0, ctx.n_obj()) && fits(r@[k].1, ctx.n_prop()),
        bits_of(r@[0].1, ctx.n_prop()) == ctx.prime_obj(Seq::new(ctx.n_obj(), |p: int| true)),
        forall|k: int|
            0 <= k < r@.len() ==> ctx.is_concept(
                bits_of((#[trigger] r@[k]).0, ctx.n_obj()),
                bits_of(r@[k].1, ctx.n_prop()),
            ),
        forall|k1: int, k2: int|
            0 <= k1 < r@.len() && 0 <= k2 < r@.len() && k1 != k2 ==> bits_of(
                (#[trigger] r@[k1]).1,
                ctx.n_prop(),
            ) != bits_of((#[trigger] r@[k2]).1, ctx.n_prop()),
        forall|d: Seq<bool>|
            #[trigger] is_intent(ctx, d) ==> exists|e: int|
                0 <= e < r@.len() && bits_of((#[trigger] r@[e]).1, ctx.n_prop()) == d,
{
    let n_properties = ctx.n_properties();
    let ghost m = n_properties as nat;
    let ghost w = m;
    let properties_supremum = BitSet::supremum(n_properties);
    let j_atom = properties_supremum.atoms();
    proof {
        lemma_all_atoms(m);
        assert(properties_supremum@ == full_set(m));
    }
    let objects_supremum = BitSet::supremum(ctx.n_objects());
    let properties_infimum = BitSet::new(n_properties);
    let (extent0, intent0) = ctx.doubleprime_objects(&objects_supremum);
    proof {
        closure_laws(ctx, objects_supremum@, intent0@);
    }
    let mut initial_failed: Vec<BitSet> = Vec::new();
    let mut q: usize = 0;
    while q < n_properties
        invariant
            q <= n_properties,
            properties_infimum.wf(),
            properties_infimum@.len() == n_properties,
            initial_failed@.len() == q,
            properties_infimum@ == Seq::new(n_properties as nat, |p: int| false),
            forall|q2: int|
                0 <= q2 < q ==> (#[trigger] initial_failed@[q2]).wf() && initial_failed@[q2]@.len()
                    == n_properties && initial_failed@[q2]@ == properties_infimum@,
        decreases n_properties - q,
    {
        initial_failed.push(properties_infimum.copy());
        q += 1;
    }
    let mut stack: Vec<Frame> = Vec::new();
    stack.push(Frame { extent: extent0, intent: intent0, pivot: 0, failed: initial_failed });
    let mut result: Vec<(u128, u128)> = Vec::new();
    let ghost first = intent0@;
    proof {
        assert forall|d: Seq<bool>| #[trigger] is_intent(ctx, d) implies in_region(d, intent0@, 0) by {
            let a = ctx.prime_prop(d);
            let all = Seq::new(ctx.n_obj(), |i: int| true);
            assert(subset(a, all));
            assert(subset(d, d));
            prime_antitone(ctx, a, all, d, d);
            assert(objects_supremum@ == all);
        }
        assert forall|j: int| 0 <= j < m implies #[trigger] subset(
            initial_failed@[j]@,
            closure_p(ctx, intent0@.update(j, true)),
        ) by {
            assert(initial_failed@[j]@ == properties_infimum@);
        }
        assert(stack@[0].intent@ == intent0@ && stack@[0].pivot == 0);
        assert forall|d: Seq<bool>| #[trigger] is_intent(ctx, d) implies (exists|e: int|
            0 <= e < result@.len() && bits_of((#[trigger] result@[e]).1, m) == d) || (exists|k: int|
            0 <= k < stack@.len() && in_region(d, (#[trigger] stack@[k]).intent@, stack@[k].pivot as int)) by {
            assert(in_region(d, stack@[0].intent@, stack@[0].pivot as int));
        }
    }
    while stack.len() > 0
        invariant
            ctx.wf(),
            ctx.n_obj() <= 128,
            ctx.n_prop() <= 128,
            m == ctx.n_prop(),
            n_properties == m,
            w == m,
            first == ctx.prime_obj(Seq::new(ctx.n_obj(), |p: int| true)),
            j_atom@.len() == m,
            forall|k: int|
                0 <= k < m ==> (#[trigger] j_atom@[k]).wf() && j_atom@[k]@ == singleton(m, k),
            frames_ok(ctx, stack@, m, w),
            result@.len() == 0 ==> stack@.len() == 1 && stack@[0].intent@ == first,
            result@.len() > 0 ==> bits_of(result@[0].1, ctx.n_prop()) == first,
            forall|k: int|
                0 <= k < result@.len() ==> ctx.is_concept(
                    bits_of((#[trigger] result@[k]).0, ctx.n_obj()),
                    bits_of(result@[k].1, ctx.n_prop()),
                ),
            forall|k: int|
                0 <= k < result@.len() ==> fits((#[trigger] result@[k]).0, ctx.n_obj()) && fits(
                    result@[k].1,
                    ctx.n_prop(),
                ),
            forall|k1: int, k2: int|
                0 <= k1 < k2 < stack@.len() ==> regions_disjoint(
                    (#[trigger] stack@[k1]).intent@,
                    stack@[k1].pivot as int,
                    (#[trigger] stack@[k2]).intent@,
                    stack@[k2].pivot as int,
                ),
            forall|k: int, e: int|
                0 <= k < stack@.len() && 0 <= e < result@.len() ==> !in_region(
                    bits_of((#[trigger] result@[e]).1, m),
                    (#[trigger] stack@[k]).intent@,
                    stack@[k].pivot as int,
                ),
            forall|e1: int, e2: int|
                0 <= e1 < result@.len() && 0 <= e2 < result@.len() && e1 != e2 ==> bits_of(
                    (#[trigger] result@[e1]).1,
                    m,
                ) != bits_of((#[trigger] result@[e2]).1, m),
            forall|k: int|
                0 <= k < stack@.len() ==> failed_ok(
                    ctx,
                    (#[trigger] stack@[k]).intent@,
                    stack@[k].failed@,
                    m,
                ),
            forall|d: Seq<bool>|
                #[trigger] is_intent(ctx, d) ==> (exists|e: int|
                    0 <= e < result@.len() && bits_of((#[trigger] result@[e]).1, m) == d) || (exists|
                    k: int,
                |
                    0 <= k < stack@.len() && in_region(
                        d,
                        (#[trigger] stack@[k]).intent@,
                        stack@[k].pivot as int,
                    )),
        decreases weight(stack@, m),
    {
        let ghost before = stack@;
        let frame = stack.pop().unwrap();
        proof {
            assert(stack@ == before.drop_last());
            assert(frame == before.last());
            assert(before[before.len() - 1] == frame);
            assert(weight(before, m) == weight(stack@, m) + pow2n((m - frame.pivot) as nat));
            lemma_pow2_pos((m - frame.pivot) as nat);
        }
        let ghost before_weight = weight(before, m);
        let extent = frame.extent;
        let intent = frame.intent;
        let property_index = frame.pivot;
        let e_out = extent.to_u128();
        let i_out = intent.to_u128();
        assert(bits_of(e_out, ctx.n_obj()) =~= extent@);
        assert(bits_of(i_out, ctx.n_prop()) =~= intent@);
        assert(fits(e_out, ctx.n_obj())) by {
            assert forall|q: int| ctx.n_obj() <= q < 128 implies !#[trigger] raw_bit(e_out, q) by {
                assert(bit128(e_out, q as u128) == (q < extent@.len() && extent@[q]));
            }
        }
        assert(fits(i_out, ctx.n_prop())) by {
            assert forall|q: int| ctx.n_prop() <= q < 128 implies !#[trigger] raw_bit(i_out, q) by {
                assert(bit128(i_out, q as u128) == (q < intent@.len() && intent@[q]));
            }
        }
        let ghost bs = stack@;
        let ghost r0 = result@;
        let ghost p = property_index as int;
        proof {
            lemma_own_region(intent@, p);
            assert(before[bs.len() as int].intent@ == intent@);
            assert(failed_ok(ctx, intent@, frame.failed@, m));
            assert(frame.pivot == property_index);
            assert forall|e: int| 0 <= e < r0.len() implies !in_region(
                bits_of((#[trigger] r0[e]).1, m),
                intent@,
                p,
            ) by {
                assert(!in_region(bits_of(r0[e].1, m), before[bs.len() as int].intent@, p));
            }
            assert forall|k: int| 0 <= k < bs.len() implies regions_disjoint(
                (#[trigger] bs[k]).intent@,
                bs[k].pivot as int,
                intent@,
                p,
            ) by {
                assert(before[k] == bs[k]);
            }
        }
        result.push((e_out, i_out));
        proof {
            assert(bits_of(result@[result@.len() - 1].1, m) == intent@);
            assert forall|e1: int, e2: int|
                0 <= e1 < result@.len() && 0 <= e2 < result@.len() && e1 != e2 implies bits_of(
                    (#[trigger] result@[e1]).1,
                    m,
                ) != bits_of((#[trigger] result@[e2]).1, m) by {
                if e1 == r0.len() {
                    assert(result@[e2] == r0[e2]);
                    assert(!in_region(bits_of(r0[e2].1, m), before[bs.len() as int].intent@, p));
                } else if e2 == r0.len() {
                    assert(result@[e1] == r0[e1]);
                    assert(!in_region(bits_of(r0[e1].1, m), before[bs.len() as int].intent@, p));
                } else {
                    assert(result@[e1] == r0[e1] && result@[e2] == r0[e2]);
                }
            }
            assert forall|k: int, e: int|
                0 <= k < stack@.len() && 0 <= e < result@.len() implies !in_region(
                    bits_of((#[trigger] result@[e]).1, m),
                    (#[trigger] stack@[k]).intent@,
                    stack@[k].pivot as int,
                ) by {
                assert(stack@[k] == before[k]);
                if e < r0.len() {
                    assert(result@[e] == r0[e]);
                } else {
                    assert(regions_disjoint(bs[k].intent@, bs[k].pivot as int, intent@, p));
                    assert(in_region(intent@, intent@, p));
                }
            }
        }
        proof {
            assert forall|d: Seq<bool>| #[trigger] is_intent(ctx, d) implies (exists|e: int|
                0 <= e < result@.len() && bits_of((#[trigger] result@[e]).1, m) == d) || (exists|k: int|
                0 <= k < bs.len() && in_region(d, (#[trigger] bs[k]).intent@, bs[k].pivot as int))
                || in_region(d, intent@, p) by {
                if exists|e: int| 0 <= e < r0.len() && bits_of((#[trigger] r0[e]).1, m) == d {
                    let e = choose|e: int| 0 <= e < r0.len() && bits_of((#[trigger] r0[e]).1, m) == d;
                    assert(result@[e] == r0[e]);
                } else {
                    let k = choose|k: int|
                        0 <= k < before.len() && in_region(d, (#[trigger] before[k]).intent@, before[k].pivot as int);
                    if k < bs.len() {
                        assert(before[k] == bs[k]);
                    }
                }
            }
        }
        let ghost old_state = (bs, r0);
        if property_index == n_properties || extent.is_empty() {
            proof {
                assert forall|d: Seq<bool>| #[trigger] is_intent(ctx, d) implies (exists|e: int|
                    0 <= e < result@.len() && bits_of((#[trigger] result@[e]).1, m) == d) || (exists|
                    k: int,
                |
                    0 <= k < stack@.len() && in_region(
                        d,
                        (#[trigger] stack@[k]).intent@,
                        stack@[k].pivot as int,
                    )) by {
                    if in_region(d, intent@, p) && !(exists|k: int|
                        0 <= k < bs.len() && in_region(d, (#[trigger] bs[k]).intent@, bs[k].pivot as int)) && !(exists|e: int|
                        0 <= e < result@.len() && bits_of((#[trigger] result@[e]).1, m) == d) {
                        if property_index == n_properties {
                            assert(d =~= intent@);
                        } else {
                            assert(forall|i: int| 0 <= i < ctx.n_obj() ==> !extent@[i]);
                            assert forall|q: int| 0 <= q < m implies intent@[q] by {
                                assert(ctx.prime_obj(extent@)[q]);
                            }
                            assert(d =~= intent@);
                        }
                        assert(bits_of(result@[r0.len() as int].1, m) == d);
                    } else if exists|k: int|
                        0 <= k < bs.len() && in_region(d, (#[trigger] bs[k]).intent@, bs[k].pivot as int) {
                        let k = choose|k: int|
                            0 <= k < bs.len() && in_region(d, (#[trigger] bs[k]).intent@, bs[k].pivot as int);
                        assert(stack@[k] == bs[k]);
                    }
                }
                assert forall|k: int| 0 <= k < stack@.len() implies failed_ok(
                    ctx,
                    (#[trigger] stack@[k]).intent@,
                    stack@[k].failed@,
                    m,
                ) by {
                    assert(stack@[k] == before[k]);
                }
            }
            continue;
        }
        let mut next_failed = copy_sets(&frame.failed);
        proof {
            assert forall|q: int| 0 <= q < m implies #[trigger] subset(
                next_failed@[q]@,
                closure_p(ctx, intent@.update(q, true)),
            ) by {
                assert(subset(frame.failed@[q]@, closure_p(ctx, intent@.update(q, true))));
            }
            assert forall|k: int| 0 <= k < stack@.len() implies failed_ok(
                ctx,
                (#[trigger] stack@[k]).intent@,
                stack@[k].failed@,
                m,
            ) by {
                assert(stack@[k] == before[k]);
            }
        }
        let ghost base = weight(stack@, m);
        let mut j: usize = n_properties;
        while j > property_index
            invariant
                ctx.wf(),
                m == ctx.n_prop(),
                n_properties == m,
                w == m,
                property_index <= j <= m,
                j_atom@.len() == m,
                forall|k: int|
                    0 <= k < m ==> (#[trigger] j_atom@[k]).wf() && j_atom@[k]@ == singleton(m, k),
                extent.wf(),
                intent.wf(),
                ctx.is_concept(extent@, intent@),
                next_failed@.len() == m,
                forall|q2: int|
                    0 <= q2 < m ==> (#[trigger] next_failed@[q2]).wf() && next_failed@[q2]@.len()
                        == w,
                frames_ok(ctx, stack@, m, w),
                weight(stack@, m) + 1 <= base + pow2n((m - j) as nat),
                before_weight == base + pow2n((m - property_index) as nat),
                p == property_index,
                intent@.len() == m,
                stack@.len() >= bs.len(),
                forall|k: int| 0 <= k < bs.len() ==> stack@[k] == bs[k],
                forall|k1: int, k2: int|
                    0 <= k1 < k2 < bs.len() ==> regions_disjoint(
                        (#[trigger] bs[k1]).intent@,
                        bs[k1].pivot as int,
                        (#[trigger] bs[k2]).intent@,
                        bs[k2].pivot as int,
                    ),
                forall|k: int, e: int|
                    0 <= k < bs.len() && 0 <= e < result@.len() ==> !in_region(
                        bits_of((#[trigger] result@[e]).1, m),
                        (#[trigger] bs[k]).intent@,
                        bs[k].pivot as int,
                    ),
                forall|k: int|
                    0 <= k < bs.len() ==> regions_disjoint(
                        (#[trigger] bs[k]).intent@,
                        bs[k].pivot as int,
                        intent@,
                        p,
                    ),
                result@.len() == r0.len() + 1,
                bits_of(result@[r0.len() as int].1, m) == intent@,
                forall|e: int|
                    0 <= e < r0.len() ==> !in_region(bits_of((#[trigger] result@[e]).1, m), intent@, p),
                forall|k: int|
                    bs.len() <= k < stack@.len() ==> child_of(
                        (#[trigger] stack@[k]).intent@,
                        stack@[k].pivot - 1,
                        intent@,
                        p,
                    ) && stack@[k].pivot - 1 >= j,
                forall|k1: int, k2: int|
                    bs.len() <= k1 < k2 < stack@.len() ==> (#[trigger] stack@[k1]).pivot > (
                    #[trigger] stack@[k2]).pivot,
                failed_ok(ctx, intent@, next_failed@, m),
                forall|k: int|
                    0 <= k < stack@.len() ==> failed_ok(
                        ctx,
                        (#[trigger] stack@[k]).intent@,
                        stack@[k].failed@,
                        m,
                    ),
                children_cover(ctx, intent@, p, j as int, stack@, bs.len() as int),
                forall|d: Seq<bool>| #[trigger] is_intent(ctx, d) ==> (exists|e: int|
                    0 <= e < result@.len() && bits_of((#[trigger] result@[e]).1, m) == d) || (exists|k: int|
                    0 <= k < bs.len() && in_region(d, (#[trigger] bs[k]).intent@, bs[k].pivot as int))
                    || in_region(d, intent@, p),
            decreases j,
        {
            j -= 1;
            let j_property = &j_atom[j];
            if !j_property.and(&intent).is_empty() {
                proof {
                    let q = choose|q: int| 0 <= q < m && j_property@[q] && intent@[q];
                    assert(q == j);
                    assert forall|d: Seq<bool>, jd: int|
                        is_intent(ctx, d) && in_region(d, intent@, p) && #[trigger] first_diff(d, intent@, jd)
                            && jd >= j implies exists|k: int|
                        bs.len() <= k < stack@.len() && in_region(d, (#[trigger] stack@[k]).intent@, stack@[k].pivot as int) by {
                        if jd == j {
                            assert(intent@[j as int]);
                        }
                    }
                }
                continue;
            }
            let j_mask = j_property.sub_one();
            let x = next_failed[j].and(&j_mask);
            if x.is_subset(&intent) {
                let j_extent = extent.and(ctx.extent_of(j));
                let j_intent = ctx.prime_objects(&j_extent);
                let j_lower = j_intent.and(&j_mask);
                    proof {
                    let b1 = intent@.update(j as int, true);
                    assert forall|i: int| 0 <= i < ctx.n_obj() implies #[trigger] j_extent@[i]
                        == ctx.prime_prop(b1)[i] by {
                        assert(extent@[i] == ctx.prime_prop(intent@)[i]);
                        if j_extent@[i] {
                            assert forall|j2: int| 0 <= j2 < ctx.n_prop() && #[trigger] b1[j2]
                                implies ctx.incident(i, j2) by {
                                if j2 != j {
                                    assert(intent@[j2]);
                                }
                            }
                        }
                        if ctx.prime_prop(b1)[i] {
                            assert(b1[j as int]);
                            assert forall|j2: int| 0 <= j2 < ctx.n_prop() && #[trigger] intent@[j2]
                                implies ctx.incident(i, j2) by {
                                assert(b1[j2]);
                            }
                        }
                    }
                    assert(j_extent@ =~= ctx.prime_prop(b1));
                    closure_laws(ctx, j_extent@, b1);
                }
                proof {
                    atom_decrement(m, j as int);
                    assert(j_mask@ == Seq::new(m, |q: int| q < j));
                    assert(j_intent@ == closure_p(ctx, intent@.update(j as int, true)));
                }
                if j_lower.is_subset(&intent) {
                    proof {
                        atom_decrement(m, j as int);
                        assert(j_mask@ == Seq::new(m, |q: int| q < j));
                        assert(!intent@[j as int]) by {
                            assert(!(j_property@[j as int] && intent@[j as int]));
                        }
                        assert(j_intent@[j as int]);
                        assert(subset(intent@, j_intent@)) by {
                            assert forall|q: int| 0 <= q < m && #[trigger] intent@[q] implies j_intent@[q] by {
                                assert(intent@.update(j as int, true)[q]);
                            }
                        }
                        assert forall|q: int| 0 <= q < j implies j_intent@[q] == intent@[q] by {
                            if j_intent@[q] {
                                assert(j_lower@[q]);
                            }
                        }
                        assert(child_of(j_intent@, j as int, intent@, p));
                    }
                    let child_failed = copy_sets(&next_failed);
                    proof {
                        assert forall|q: int| 0 <= q < m implies #[trigger] subset(
                            child_failed@[q]@,
                            closure_p(ctx, j_intent@.update(q, true)),
                        ) by {
                            assert(subset(next_failed@[q]@, closure_p(ctx, intent@.update(q, true))));
                            assert(subset(intent@.update(q, true), j_intent@.update(q, true))) by {
                                assert forall|i: int| 0 <= i < m && #[trigger] intent@.update(q, true)[i]
                                    implies j_intent@.update(q, true)[i] by {
                                    if i != q {
                                        assert(intent@[i]);
                                    }
                                }
                            }
                            lemma_closure_p_monotone(ctx, intent@.update(q, true), j_intent@.update(q, true));
                            let x = child_failed@[q]@;
                            assert forall|i: int| 0 <= i < m && #[trigger] x[i] implies closure_p(
                                ctx,
                                j_intent@.update(q, true),
                            )[i] by {
                                assert(closure_p(ctx, intent@.update(q, true))[i]);
                            }
                        }
                    }
                    let ghost s0 = stack@;
                    stack.push(
                        Frame { extent: j_extent, intent: j_intent, pivot: j + 1, failed: child_failed },
                    );
                    proof {
                        assert(stack@[stack@.len() - 1].intent@ == j_intent@);
                        assert(stack@[stack@.len() - 1].pivot - 1 == j);
                        assert forall|k: int| 0 <= k < s0.len() implies stack@[k] == s0[k] by {}
                        assert(stack@.drop_last() == s0);
                        assert(pow2n((m - j) as nat) == 2 * pow2n((m - (j + 1)) as nat));
                        lemma_children_cover_grows(ctx, intent@, p, j + 1, s0, stack@, bs.len() as int);
                        assert forall|k: int| 0 <= k < stack@.len() implies failed_ok(
                            ctx,
                            (#[trigger] stack@[k]).intent@,
                            stack@[k].failed@,
                            m,
                        ) by {
                            if k < s0.len() {
                                assert(stack@[k] == s0[k]);
                            }
                        }
                        assert forall|d: Seq<bool>, jd: int|
                            is_intent(ctx, d) && in_region(d, intent@, p) && #[trigger] first_diff(d, intent@, jd)
                                && jd >= j implies exists|k: int|
                            bs.len() <= k < stack@.len() && in_region(d, (#[trigger] stack@[k]).intent@, stack@[k].pivot as int) by {
                            if jd == j {
                                let k = stack@.len() - 1;
                                assert(subset(intent@.update(j as int, true), d)) by {
                                    assert forall|i: int| 0 <= i < m && #[trigger] intent@.update(j as int, true)[i]
                                        implies d[i] by {
                                        if i != j {
                                            assert(intent@[i]);
                                        }
                                    }
                                }
                                lemma_closure_p_monotone(ctx, intent@.update(j as int, true), d);
                                assert(in_region(d, stack@[k].intent@, stack@[k].pivot as int));
                            }
                        }
                    }
                } else {
                    proof {
                        let q = choose|q: int| 0 <= q < m && j_lower@[q] && !intent@[q];
                        assert forall|d: Seq<bool>, jd: int|
                            is_intent(ctx, d) && in_region(d, intent@, p) && #[trigger] first_diff(d, intent@, jd)
                                && jd >= j implies exists|k: int|
                            bs.len() <= k < stack@.len() && in_region(d, (#[trigger] stack@[k]).intent@, stack@[k].pivot as int) by {
                            if jd == j {
                                assert(subset(intent@.update(j as int, true), d)) by {
                                    assert forall|i: int| 0 <= i < m && #[trigger] intent@.update(j as int, true)[i]
                                        implies d[i] by {
                                        if i != j {
                                            assert(intent@[i]);
                                        }
                                    }
                                }
                                lemma_closure_p_monotone(ctx, intent@.update(j as int, true), d);
                                assert(j_intent@[q]);
                                assert(d[q]);
                            }
                        }
                    }
                    let ghost old_failed = next_failed@;
                    next_failed.set(j, j_intent);
                    proof {
                        assert(subset(j_intent@, j_intent@));
                        assert forall|q: int| 0 <= q < m implies #[trigger] subset(
                            next_failed@[q]@,
                            closure_p(ctx, intent@.update(q, true)),
                        ) by {
                            if q != j {
                                assert(next_failed@[q] == old_failed[q]);
                            }
                        }
                    }
                }
            } else {
                proof {
                    let q = choose|q: int| 0 <= q < m && x@[q] && !intent@[q];
                    assert forall|d: Seq<bool>, jd: int|
                        is_intent(ctx, d) && in_region(d, intent@, p) && #[trigger] first_diff(d, intent@, jd)
                            && jd >= j implies exists|k: int|
                        bs.len() <= k < stack@.len() && in_region(d, (#[trigger] stack@[k]).intent@, stack@[k].pivot as int) by {
                        if jd == j {
                            atom_decrement(m, j as int);
                            assert(subset(intent@.update(j as int, true), d)) by {
                                assert forall|i: int| 0 <= i < m && #[trigger] intent@.update(j as int, true)[i]
                                    implies d[i] by {
                                    if i != j {
                                        assert(intent@[i]);
                                    }
                                }
                            }
                            lemma_closure_p_monotone(ctx, intent@.update(j as int, true), d);
                            assert(subset(next_failed@[j as int]@, closure_p(ctx, intent@.update(j as int, true))));
                            assert(next_failed@[j as int]@[q]);
                            assert(d[q]);
                        }
                    }
                }
            }
            proof {
                if pow2n((m - (j + 1)) as nat) <= pow2n((m - j) as nat) {
                } else {
                    assert(pow2n((m - j) as nat) == 2 * pow2n((m - (j + 1)) as nat));
                }
            }
        }
        proof {
            assert forall|k1: int, k2: int| 0 <= k1 < k2 < stack@.len() implies regions_disjoint(
                (#[trigger] stack@[k1]).intent@,
                stack@[k1].pivot as int,
                (#[trigger] stack@[k2]).intent@,
                stack@[k2].pivot as int,
            ) by {
                if k2 < bs.len() {
                    assert(stack@[k1] == bs[k1] && stack@[k2] == bs[k2]);
                } else if k1 < bs.len() {
                    assert(stack@[k1] == bs[k1]);
                    lemma_region_shrinks(
                        bs[k1].intent@,
                        bs[k1].pivot as int,
                        stack@[k2].intent@,
                        stack@[k2].pivot - 1,
                        intent@,
                        p,
                    );
                } else {
                    lemma_children_disjoint(
                        stack@[k2].intent@,
                        stack@[k2].pivot - 1,
                        stack@[k1].intent@,
                        stack@[k1].pivot - 1,
                        intent@,
                        p,
                    );
                }
            }
            assert forall|k: int, e: int|
                0 <= k < stack@.len() && 0 <= e < result@.len() implies !in_region(
                bits_of((#[trigger] result@[e]).1, m),
                (#[trigger] stack@[k]).intent@,
                stack@[k].pivot as int,
            ) by {
                if k < bs.len() {
                    assert(stack@[k] == bs[k]);
                } else {
                    let c = stack@[k];
                    assert(child_of(c.intent@, c.pivot - 1, intent@, p));
                    if e == r0.len() {
                        assert(c.intent@[c.pivot - 1]);
                    } else if in_region(bits_of(result@[e].1, m), c.intent@, c.pivot as int) {
                        lemma_child_region_inside(
                            c.intent@,
                            c.pivot - 1,
                            intent@,
                            p,
                            bits_of(result@[e].1, m),
                        );
                    }
                }
            }
            assert(j == property_index);
            assert forall|d: Seq<bool>| #[trigger] is_intent(ctx, d) implies (exists|e: int|
                0 <= e < result@.len() && bits_of((#[trigger] result@[e]).1, m) == d) || (exists|
                k: int,
            |
                0 <= k < stack@.len() && in_region(
                    d,
                    (#[trigger] stack@[k]).intent@,
                    stack@[k].pivot as int,
                )) by {
                if exists|e: int| 0 <= e < result@.len() && bits_of((#[trigger] result@[e]).1, m) == d {
                } else if exists|k: int|
                    0 <= k < bs.len() && in_region(d, (#[trigger] bs[k]).intent@, bs[k].pivot as int) {
                    let k = choose|k: int|
                        0 <= k < bs.len() && in_region(d, (#[trigger] bs[k]).intent@, bs[k].pivot as int);
                    assert(stack@[k] == bs[k]);
                } else {
                    assert(in_region(d, intent@, p));
                    if d == intent@ {
                        assert(bits_of(result@[r0.len() as int].1, m) == d);
                    } else {
                        if !(exists|q: int| 0 <= q < m && d[q] && !intent@[q]) {
                            assert(d =~= intent@);
                        }
                        let jd = lemma_first_diff(d, intent@, m as int);
                        assert(jd >= p);
                        let k = choose|k: int|
                            bs.len() <= k < stack@.len() && in_region(d, (#[trigger] stack@[k]).intent@, stack@[k].pivot as int);
                    }
                }
            }
        }
    }
    result
}


/// Fast Close-by-One over objects: every concept reached from the closure
/// of the empty object set, as `(extent, intent)`.
pub fn fcbo_dual(ctx: &FcaContext) -> (r: Vec<(u128, u128)>)
    requires
        ctx.wf(),
        ctx.n_prop() <= 128,
        ctx.n_obj() <= 128,
    ensures
        r@.len() >= 1,
        forall|k: int|
            0 <= k < r@.len() ==> fits((#[trigger] r@[k]).0, ctx.n_obj()) && fits(r@[k].1, ctx.n_prop()),
        bits_of(r@[0].0, ctx.n_obj()) == ctx.prime_prop(Seq::new(ctx.n_prop(), |p: int| true)),
        forall|k: int|
            0 <= k < r@.len() ==> ctx.is_concept(bits_of(r@[k].0, ctx.n_obj()), bits_of((#[trigger] r@[k]).1, ctx.n_prop())),
        forall|k1: int, k2: int|
            0 <= k1 < r@.len() && 0 <= k2 < r@.len() && k1 != k2 ==> bits_of(
                (#[trigger] r@[k1]).0,
                ctx.n_obj(),
            ) != bits_of((#[trigger] r@[k2]).0, ctx.n_obj()),
        forall|d: Seq<bool>|
            #[trigger] is_extent(ctx, d) ==> exists|e: int|
                0 <= e < r@.len() && bits_of((#[trigger] r@[e]).0, ctx.n_obj()) == d,
{
    let n_objects = ctx.n_objects();
    let ghost m = n_objects as nat;
    let ghost w = m;
    let objects_supremum = BitSet::supremum(n_objects);
    let j_atom = objects_supremum.atoms();
    proof {
        lemma_all_atoms(m);
        assert(objects_supremum@ == full_set(m));
    }
    let objects_infimum = BitSet::new(n_objects);
    let (extent0, intent0) = ctx.doubleprime_objects(&objects_infimum);
    proof {
        closure_laws(ctx, objects_infimum@, intent0@);
        assert(intent0@ =~= Seq::new(ctx.n_prop(), |p: int| true));
    }
    let mut initial_failed: Vec<BitSet> = Vec::new();
    let mut q: usize = 0;
    while q < n_objects
        invariant
            q <= n_objects,
            objects_infimum.wf(),
            objects_infimum@.len() == n_objects,
            initial_failed@.len() == q,
            objects_infimum@ == Seq::new(n_objects as nat, |p: int| false),
            forall|q2: int|
                0 <= q2 < q ==> (#[trigger] initial_failed@[q2]).wf() && initial_failed@[q2]@.len()
                    == n_objects && initial_failed@[q2]@ == objects_infimum@,
        decreases n_objects - q,
    {
        initial_failed.push(objects_infimum.copy());
        q += 1;
    }
    let mut stack: Vec<Frame> = Vec::new();
    stack.push(Frame { intent: intent0, extent: extent0, pivot: 0, failed: initial_failed });
    let mut result: Vec<(u128, u128)> = Vec::new();
    let ghost first = extent0@;
    proof {
        assert forall|d: Seq<bool>| #[trigger] is_extent(ctx, d) implies in_region(d, extent0@, 0) by {
            let a = ctx.prime_obj(d);
            let all = Seq::new(ctx.n_prop(), |i: int| true);
            assert(subset(a, all));
            assert(subset(d, d));
            prime_antitone(ctx, d, d, a, all);
            assert(intent0@ == all);
        }
        assert forall|j: int| 0 <= j < m implies #[trigger] subset(
            initial_failed@[j]@,
            closure_o(ctx, extent0@.update(j, true)),
        ) by {
            assert(initial_failed@[j]@ == objects_infimum@);
        }
        assert(stack@[0].extent@ == extent0@ && stack@[0].pivot == 0);
        assert forall|d: Seq<bool>| #[trigger] is_extent(ctx, d) implies (exists|e: int|
            0 <= e < result@.len() && bits_of((#[trigger] result@[e]).0, m) == d) || (exists|k: int|
            0 <= k < stack@.len() && in_region(d, (#[trigger] stack@[k]).extent@, stack@[k].pivot as int)) by {
            assert(in_region(d, stack@[0].extent@, stack@[0].pivot as int));
        }
    }
    while stack.len() > 0
        invariant
            ctx.wf(),
            ctx.n_prop() <= 128,
            ctx.n_obj() <= 128,
            m == ctx.n_obj(),
            n_objects == m,
            w == m,
            first == ctx.prime_prop(Seq::new(ctx.n_prop(), |p: int| true)),
            j_atom@.len() == m,
            forall|k: int|
                0 <= k < m ==> (#[trigger] j_atom@[k]).wf() && j_atom@[k]@ == singleton(m, k),
            frames_ok(ctx, stack@, m, w),
            result@.len() == 0 ==> stack@.len() == 1 && stack@[0].extent@ == first,
            result@.len() > 0 ==> bits_of(result@[0].0, ctx.n_obj()) == first,
            forall|k: int|
                0 <= k < result@.len() ==> ctx.is_concept(bits_of(result@[k].0, ctx.n_obj()), bits_of((#[trigger] result@[k]).1, ctx.n_prop())),
            forall|k: int|
                0 <= k < result@.len() ==> fits((#[trigger] result@[k]).0, ctx.n_obj()) && fits(
                    result@[k].1,
                    ctx.n_prop(),
                ),
            forall|k1: int, k2: int|
                0 <= k1 < k2 < stack@.len() ==> regions_disjoint(
                    (#[trigger] stack@[k1]).extent@,
                    stack@[k1].pivot as int,
                    (#[trigger] stack@[k2]).extent@,
                    stack@[k2].pivot as int,
                ),
            forall|k: int, e: int|
                0 <= k < stack@.len() && 0 <= e < result@.len() ==> !in_region(
                    bits_of((#[trigger] result@[e]).0, m),
                    (#[trigger] stack@[k]).extent@,
                    stack@[k].pivot as int,
                ),
            forall|e1: int, e2: int|
                0 <= e1 < result@.len() && 0 <= e2 < result@.len() && e1 != e2 ==> bits_of(
                    (#[trigger] result@[e1]).0,
                    m,
                ) != bits_of((#[trigger] result@[e2]).0, m),
            forall|k: int|
                0 <= k < stack@.len() ==> failed_ok_o(
                    ctx,
                    (#[trigger] stack@[k]).extent@,
                    stack@[k].failed@,
                    m,
                ),
            forall|d: Seq<bool>|
                #[trigger] is_extent(ctx, d) ==> (exists|e: int|
                    0 <= e < result@.len() && bits_of((#[trigger] result@[e]).0, m) == d) || (exists|
                    k: int,
                |
                    0 <= k < stack@.len() && in_region(
                        d,
                        (#[trigger] stack@[k]).extent@,
                        stack@[k].pivot as int,
                    )),
        decreases weight(stack@, m),
    {
        let ghost before = stack@;
        let frame = stack.pop().unwrap();
        proof {
            assert(stack@ == before.drop_last());
            assert(frame == before.last());
            assert(before[before.len() - 1] == frame);
            assert(weight(before, m) == weight(stack@, m) + pow2n((m - frame.pivot) as nat));
            lemma_pow2_pos((m - frame.pivot) as nat);
        }
        let ghost before_weight = weight(before, m);
        let intent = frame.intent;
        let extent = frame.extent;
        let object_index = frame.pivot;
        let i_out = intent.to_u128();
        let e_out = extent.to_u128();
        assert(bits_of(i_out, ctx.n_prop()) =~= intent@);
        assert(fits(e_out, ctx.n_obj())) by {
            assert forall|q: int| ctx.n_obj() <= q < 128 implies !#[trigger] raw_bit(e_out, q) by {
                assert(bit128(e_out, q as u128) == (q < extent@.len() && extent@[q]));
            }
        }
        assert(fits(i_out, ctx.n_prop())) by {
            assert forall|q: int| ctx.n_prop() <= q < 128 implies !#[trigger] raw_bit(i_out, q) by {
                assert(bit128(i_out, q as u128) == (q < intent@.len() && intent@[q]));
            }
        }
        assert(bits_of(e_out, ctx.n_obj()) =~= extent@);
        let ghost bs = stack@;
        let ghost r0 = result@;
        let ghost p = object_index as int;
        proof {
            lemma_own_region(extent@, p);
            assert(before[bs.len() as int].extent@ == extent@);
            assert(failed_ok_o(ctx, extent@, frame.failed@, m));
            assert(frame.pivot == object_index);
            assert forall|e: int| 0 <= e < r0.len() implies !in_region(
                bits_of((#[trigger] r0[e]).0, m),
                extent@,
                p,
            ) by {
                assert(!in_region(bits_of(r0[e].0, m), before[bs.len() as int].extent@, p));
            }
            assert forall|k: int| 0 <= k < bs.len() implies regions_disjoint(
                (#[trigger] bs[k]).extent@,
                bs[k].pivot as int,
                extent@,
                p,
            ) by {
                assert(before[k] == bs[k]);
            }
        }
        result.push((e_out, i_out));
        proof {
            assert(bits_of(result@[result@.len() - 1].0, m) == extent@);
            assert forall|e1: int, e2: int|
                0 <= e1 < result@.len() && 0 <= e2 < result@.len() && e1 != e2 implies bits_of(
                    (#[trigger] result@[e1]).0,
                    m,
                ) != bits_of((#[trigger] result@[e2]).0, m) by {
                if e1 == r0.len() {
                    assert(result@[e2] == r0[e2]);
                    assert(!in_region(bits_of(r0[e2].0, m), before[bs.len() as int].extent@, p));
                } else if e2 == r0.len() {
                    assert(result@[e1] == r0[e1]);
                    assert(!in_region(bits_of(r0[e1].0, m), before[bs.len() as int].extent@, p));
                } else {
                    assert(result@[e1] == r0[e1] && result@[e2] == r0[e2]);
                }
            }
            assert forall|k: int, e: int|
                0 <= k < stack@.len() && 0 <= e < result@.len() implies !in_region(
                    bits_of((#[trigger] result@[e]).0, m),
                    (#[trigger] stack@[k]).extent@,
                    stack@[k].pivot as int,
                ) by {
                assert(stack@[k] == before[k]);
                if e < r0.len() {
                    assert(result@[e] == r0[e]);
                } else {
                    assert(regions_disjoint(bs[k].extent@, bs[k].pivot as int, extent@, p));
                    assert(in_region(extent@, extent@, p));
                }
            }
        }
        proof {
            assert forall|d: Seq<bool>| #[trigger] is_extent(ctx, d) implies (exists|e: int|
                0 <= e < result@.len() && bits_of((#[trigger] result@[e]).0, m) == d) || (exists|k: int|
                0 <= k < bs.len() && in_region(d, (#[trigger] bs[k]).extent@, bs[k].pivot as int))
                || in_region(d, extent@, p) by {
                if exists|e: int| 0 <= e < r0.len() && bits_of((#[trigger] r0[e]).0, m) == d {
                    let e = choose|e: int| 0 <= e < r0.len() && bits_of((#[trigger] r0[e]).0, m) == d;
                    assert(result@[e] == r0[e]);
                } else {
                    let k = choose|k: int|
                        0 <= k < before.len() && in_region(d, (#[trigger] before[k]).extent@, before[k].pivot as int);
                    if k < bs.len() {
                        assert(before[k] == bs[k]);
                    }
                }
            }
        }
        let ghost old_state = (bs, r0);
        if object_index == n_objects || intent.is_empty() {
            proof {
                assert forall|d: Seq<bool>| #[trigger] is_extent(ctx, d) implies (exists|e: int|
                    0 <= e < result@.len() && bits_of((#[trigger] result@[e]).0, m) == d) || (exists|
                    k: int,
                |
                    0 <= k < stack@.len() && in_region(
                        d,
                        (#[trigger] stack@[k]).extent@,
                        stack@[k].pivot as int,
                    )) by {
                    if in_region(d, extent@, p) && !(exists|k: int|
                        0 <= k < bs.len() && in_region(d, (#[trigger] bs[k]).extent@, bs[k].pivot as int)) && !(exists|e: int|
                        0 <= e < result@.len() && bits_of((#[trigger] result@[e]).0, m) == d) {
                        if object_index == n_objects {
                            assert(d =~= extent@);
                        } else {
                            assert(forall|i: int| 0 <= i < ctx.n_prop() ==> !intent@[i]);
                            assert forall|q: int| 0 <= q < m implies extent@[q] by {
                                assert(ctx.prime_prop(intent@)[q]);
                            }
                            assert(d =~= extent@);
                        }
                        assert(bits_of(result@[r0.len() as int].0, m) == d);
                    } else if exists|k: int|
                        0 <= k < bs.len() && in_region(d, (#[trigger] bs[k]).extent@, bs[k].pivot as int) {
                        let k = choose|k: int|
                            0 <= k < bs.len() && in_region(d, (#[trigger] bs[k]).extent@, bs[k].pivot as int);
                        assert(stack@[k] == bs[k]);
                    }
                }
                assert forall|k: int| 0 <= k < stack@.len() implies failed_ok_o(
                    ctx,
                    (#[trigger] stack@[k]).extent@,
                    stack@[k].failed@,
                    m,
                ) by {
                    assert(stack@[k] == before[k]);
                }
            }
            continue;
        }
        let mut next_failed = copy_sets(&frame.failed);
        proof {
            assert forall|q: int| 0 <= q < m implies #[trigger] subset(
                next_failed@[q]@,
                closure_o(ctx, extent@.update(q, true)),
            ) by {
                assert(subset(frame.failed@[q]@, closure_o(ctx, extent@.update(q, true))));
            }
            assert forall|k: int| 0 <= k < stack@.len() implies failed_ok_o(
                ctx,
                (#[trigger] stack@[k]).extent@,
                stack@[k].failed@,
                m,
            ) by {
                assert(stack@[k] == before[k]);
            }
        }
        let ghost base = weight(stack@, m);
        let mut j: usize = n_objects;
        while j > object_index
            invariant
                ctx.wf(),
                m == ctx.n_obj(),
                n_objects == m,
                w == m,
                object_index <= j <= m,
                j_atom@.len() == m,
                forall|k: int|
                    0 <= k < m ==> (#[trigger] j_atom@[k]).wf() && j_atom@[k]@ == singleton(m, k),
                intent.wf(),
                extent.wf(),
                ctx.is_concept(extent@, intent@),
                next_failed@.len() == m,
                forall|q2: int|
                    0 <= q2 < m ==> (#[trigger] next_failed@[q2]).wf() && next_failed@[q2]@.len()
                        == w,
                frames_ok(ctx, stack@, m, w),
                weight(stack@, m) + 1 <= base + pow2n((m - j) as nat),
                before_weight == base + pow2n((m - object_index) as nat),
                p == object_index,
                extent@.len() == m,
                stack@.len() >= bs.len(),
                forall|k: int| 0 <= k < bs.len() ==> stack@[k] == bs[k],
                forall|k1: int, k2: int|
                    0 <= k1 < k2 < bs.len() ==> regions_disjoint(
                        (#[trigger] bs[k1]).extent@,
                        bs[k1].pivot as int,
                        (#[trigger] bs[k2]).extent@,
                        bs[k2].pivot as int,
                    ),
                forall|k: int, e: int|
                    0 <= k < bs.len() && 0 <= e < result@.len() ==> !in_region(
                        bits_of((#[trigger] result@[e]).0, m),
                        (#[trigger] bs[k]).extent@,
                        bs[k].pivot as int,
                    ),
                forall|k: int|
                    0 <= k < bs.len() ==> regions_disjoint(
                        (#[trigger] bs[k]).extent@,
                        bs[k].pivot as int,
                        extent@,
                        p,
                    ),
                result@.len() == r0.len() + 1,
                bits_of(result@[r0.len() as int].0, m) == extent@,
                forall|e: int|
                    0 <= e < r0.len() ==> !in_region(bits_of((#[trigger] result@[e]).0, m), extent@, p),
                forall|k: int|
                    bs.len() <= k < stack@.len() ==> child_of(
                        (#[trigger] stack@[k]).extent@,
                        stack@[k].pivot - 1,
                        extent@,
                        p,
                    ) && stack@[k].pivot - 1 >= j,
                forall|k1: int, k2: int|
                    bs.len() <= k1 < k2 < stack@.len() ==> (#[trigger] stack@[k1]).pivot > (
                    #[trigger] stack@[k2]).pivot,
                failed_ok_o(ctx, extent@, next_failed@, m),
                forall|k: int|
                    0 <= k < stack@.len() ==> failed_ok_o(
                        ctx,
                        (#[trigger] stack@[k]).extent@,
                        stack@[k].failed@,
                        m,
                    ),
                children_cover_o(ctx, extent@, p, j as int, stack@, bs.len() as int),
                forall|d: Seq<bool>| #[trigger] is_extent(ctx, d) ==> (exists|e: int|
                    0 <= e < result@.len() && bits_of((#[trigger] result@[e]).0, m) == d) || (exists|k: int|
                    0 <= k < bs.len() && in_region(d, (#[trigger] bs[k]).extent@, bs[k].pivot as int))
                    || in_region(d, extent@, p),
            decreases j,
        {
            j -= 1;
            let j_object = &j_atom[j];
            if !extent.and(j_object).is_empty() {
                proof {
                    let q = choose|q: int| 0 <= q < m && j_object@[q] && extent@[q];
                    assert(q == j);
                    assert forall|d: Seq<bool>, jd: int|
                        is_extent(ctx, d) && in_region(d, extent@, p) && #[trigger] first_diff(d, extent@, jd)
                            && jd >= j implies exists|k: int|
                        bs.len() <= k < stack@.len() && in_region(d, (#[trigger] stack@[k]).extent@, stack@[k].pivot as int) by {
                        if jd == j {
                            assert(extent@[j as int]);
                        }
                    }
                }
                continue;
            }
            let j_mask = j_object.sub_one();
            let x = next_failed[j].and(&j_mask);
            if x.is_subset(&extent) {
                let j_intent = intent.and(ctx.intent_of(j));
                let j_extent = ctx.prime_properties(&j_intent);
                let j_lower = j_extent.and(&j_mask);
                proof {
                    let a1 = extent@.update(j as int, true);
                    assert forall|q: int| 0 <= q < ctx.n_prop() implies #[trigger] j_intent@[q]
                        == ctx.prime_obj(a1)[q] by {
                        assert(intent@[q] == ctx.prime_obj(extent@)[q]);
                        if j_intent@[q] {
                            assert forall|i2: int| 0 <= i2 < ctx.n_obj() && #[trigger] a1[i2]
                                implies ctx.incident(i2, q) by {
                                if i2 != j {
                                    assert(extent@[i2]);
                                }
                            }
                        }
                        if ctx.prime_obj(a1)[q] {
                            assert(a1[j as int]);
                            assert forall|i2: int| 0 <= i2 < ctx.n_obj() && #[trigger] extent@[i2]
                                implies ctx.incident(i2, q) by {
                                assert(a1[i2]);
                            }
                        }
                    }
                    assert(j_intent@ =~= ctx.prime_obj(a1));
                    closure_laws(ctx, a1, j_intent@);
                }
                proof {
                    atom_decrement(m, j as int);
                    assert(j_mask@ == Seq::new(m, |q: int| q < j));
                    assert(j_extent@ == closure_o(ctx, extent@.update(j as int, true)));
                }
                if j_lower.is_subset(&extent) {
                    proof {
                        atom_decrement(m, j as int);
                        assert(j_mask@ == Seq::new(m, |q: int| q < j));
                        assert(!extent@[j as int]) by {
                            assert(!(j_object@[j as int] && extent@[j as int]));
                        }
                        assert(j_extent@[j as int]);
                        assert(subset(extent@, j_extent@)) by {
                            assert forall|q: int| 0 <= q < m && #[trigger] extent@[q] implies j_extent@[q] by {
                                assert(extent@.update(j as int, true)[q]);
                            }
                        }
                        assert forall|q: int| 0 <= q < j implies j_extent@[q] == extent@[q] by {
                            if j_extent@[q] {
                                assert(j_lower@[q]);
                            }
                        }
                        assert(child_of(j_extent@, j as int, extent@, p));
                    }
                    let child_failed = copy_sets(&next_failed);
                    proof {
                        assert forall|q: int| 0 <= q < m implies #[trigger] subset(
                            child_failed@[q]@,
                            closure_o(ctx, j_extent@.update(q, true)),
                        ) by {
                            assert(subset(next_failed@[q]@, closure_o(ctx, extent@.update(q, true))));
                            assert(subset(extent@.update(q, true), j_extent@.update(q, true))) by {
                                assert forall|i: int| 0 <= i < m && #[trigger] extent@.update(q, true)[i]
                                    implies j_extent@.update(q, true)[i] by {
                                    if i != q {
                                        assert(extent@[i]);
                                    }
                                }
                            }
                            lemma_closure_o_monotone(ctx, extent@.update(q, true), j_extent@.update(q, true));
                            let x = child_failed@[q]@;
                            assert forall|i: int| 0 <= i < m && #[trigger] x[i] implies closure_o(
                                ctx,
                                j_extent@.update(q, true),
                            )[i] by {
                                assert(closure_o(ctx, extent@.update(q, true))[i]);
                            }
                        }
                    }
                    let ghost s0 = stack@;
                    stack.push(
                        Frame { intent: j_intent, extent: j_extent, pivot: j + 1, failed: child_failed },
                    );
                    proof {
                        assert(stack@[stack@.len() - 1].extent@ == j_extent@);
                        assert(stack@[stack@.len() - 1].pivot - 1 == j);
                        assert forall|k: int| 0 <= k < s0.len() implies stack@[k] == s0[k] by {}
                        assert(stack@.drop_last() == s0);
                        assert(pow2n((m - j) as nat) == 2 * pow2n((m - (j + 1)) as nat));
                        lemma_children_cover_grows_o(ctx, extent@, p, j + 1, s0, stack@, bs.len() as int);
                        assert forall|k: int| 0 <= k < stack@.len() implies failed_ok_o(
                            ctx,
                            (#[trigger] stack@[k]).extent@,
                            stack@[k].failed@,
                            m,
                        ) by {
                            if k < s0.len() {
                                assert(stack@[k] == s0[k]);
                            }
                        }
                        assert forall|d: Seq<bool>, jd: int|
                            is_extent(ctx, d) && in_region(d, extent@, p) && #[trigger] first_diff(d, extent@, jd)
                                && jd >= j implies exists|k: int|
                            bs.len() <= k < stack@.len() && in_region(d, (#[trigger] stack@[k]).extent@, stack@[k].pivot as int) by {
                            if jd == j {
                                let k = stack@.len() - 1;
                                assert(subset(extent@.update(j as int, true), d)) by {
                                    assert forall|i: int| 0 <= i < m && #[trigger] extent@.update(j as int, true)[i]
                                        implies d[i] by {
                                        if i != j {
                                            assert(extent@[i]);
                                        }
                                    }
                                }
                                lemma_closure_o_monotone(ctx, extent@.update(j as int, true), d);
                                assert(in_region(d, stack@[k].extent@, stack@[k].pivot as int));
                            }
                        }
                    }
                } else {
                    proof {
                        let q = choose|q: int| 0 <= q < m && j_lower@[q] && !extent@[q];
                        assert forall|d: Seq<bool>, jd: int|
                            is_extent(ctx, d) && in_region(d, extent@, p) && #[trigger] first_diff(d, extent@, jd)
                                && jd >= j implies exists|k: int|
                            bs.len() <= k < stack@.len() && in_region(d, (#[trigger] stack@[k]).extent@, stack@[k].pivot as int) by {
                            if jd == j {
                                assert(subset(extent@.update(j as int, true), d)) by {
                                    assert forall|i: int| 0 <= i < m && #[trigger] extent@.update(j as int, true)[i]
                                        implies d[i] by {
                                        if i != j {
                                            assert(extent@[i]);
                                        }
                                    }
                                }
                                lemma_closure_o_monotone(ctx, extent@.update(j as int, true), d);
                                assert(j_extent@[q]);
                                assert(d[q]);
                            }
                        }
                    }
                    let ghost old_failed = next_failed@;
                    next_failed.set(j, j_extent);
                    proof {
                        assert(subset(j_extent@, j_extent@));
                        assert forall|q: int| 0 <= q < m implies #[trigger] subset(
                            next_failed@[q]@,
                            closure_o(ctx, extent@.update(q, true)),
                        ) by {
                            if q != j {
                                assert(next_failed@[q] == old_failed[q]);
                            }
                        }
                    }
                }
            } else {
                proof {
                    let q = choose|q: int| 0 <= q < m && x@[q] && !extent@[q];
                    assert forall|d: Seq<bool>, jd: int|
                        is_extent(ctx, d) && in_region(d, extent@, p) && #[trigger] first_diff(d, extent@, jd)
                            && jd >= j implies exists|k: int|
                        bs.len() <= k < stack@.len() && in_region(d, (#[trigger] stack@[k]).extent@, stack@[k].pivot as int) by {
                        if jd == j {
                            atom_decrement(m, j as int);
                            assert(subset(extent@.update(j as int, true), d)) by {
                                assert forall|i: int| 0 <= i < m && #[trigger] extent@.update(j as int, true)[i]
                                    implies d[i] by {
                                    if i != j {
                                        assert(extent@[i]);
                                    }
                                }
                            }
                            lemma_closure_o_monotone(ctx, extent@.update(j as int, true), d);
                            assert(subset(next_failed@[j as int]@, closure_o(ctx, extent@.update(j as int, true))));
                            assert(next_failed@[j as int]@[q]);
                            assert(d[q]);
                        }
                    }
                }
            }
            proof {
                if pow2n((m - (j + 1)) as nat) <= pow2n((m - j) as nat) {
                } else {
                    assert(pow2n((m - j) as nat) == 2 * pow2n((m - (j + 1)) as nat));
                }
            }
        }
        proof {
            assert forall|k1: int, k2: int| 0 <= k1 < k2 < stack@.len() implies regions_disjoint(
                (#[trigger] stack@[k1]).extent@,
                stack@[k1].pivot as int,
                (#[trigger] stack@[k2]).extent@,
                stack@[k2].pivot as int,
            ) by {
                if k2 < bs.len() {
                    assert(stack@[k1] == bs[k1] && stack@[k2] == bs[k2]);
                } else if k1 < bs.len() {
                    assert(stack@[k1] == bs[k1]);
                    lemma_region_shrinks(
                        bs[k1].extent@,
                        bs[k1].pivot as int,
                        stack@[k2].extent@,
                        stack@[k2].pivot - 1,
                        extent@,
                        p,
                    );
                } else {
                    lemma_children_disjoint(
                        stack@[k2].extent@,
                        stack@[k2].pivot - 1,
                        stack@[k1].extent@,
                        stack@[k1].pivot - 1,
                        extent@,
                        p,
                    );
                }
            }
            assert forall|k: int, e: int|
                0 <= k < stack@.len() && 0 <= e < result@.len() implies !in_region(
                bits_of((#[trigger] result@[e]).0, m),
                (#[trigger] stack@[k]).extent@,
                stack@[k].pivot as int,
            ) by {
                if k < bs.len() {
                    assert(stack@[k] == bs[k]);
                } else {
                    let c = stack@[k];
                    assert(child_of(c.extent@, c.pivot - 1, extent@, p));
                    if e == r0.len() {
                        assert(c.extent@[c.pivot - 1]);
                    } else if in_region(bits_of(result@[e].0, m), c.extent@, c.pivot as int) {
                        lemma_child_region_inside(
                            c.extent@,
                            c.pivot - 1,
                            extent@,
                            p,
                            bits_of(result@[e].0, m),
                        );
                    }
                }
            }
            assert(j == object_index);
            assert forall|d: Seq<bool>| #[trigger] is_extent(ctx, d) implies (exists|e: int|
                0 <= e < result@.len() && bits_of((#[trigger] result@[e]).0, m) == d) || (exists|
                k: int,
            |
                0 <= k < stack@.len() && in_region(
                    d,
                    (#[trigger] stack@[k]).extent@,
                    stack@[k].pivot as int,
                )) by {
                if exists|e: int| 0 <= e < result@.len() && bits_of((#[trigger] result@[e]).0, m) == d {
                } else if exists|k: int|
                    0 <= k < bs.len() && in_region(d, (#[trigger] bs[k]).extent@, bs[k].pivot as int) {
                    let k = choose|k: int|
                        0 <= k < bs.len() && in_region(d, (#[trigger] bs[k]).extent@, bs[k].pivot as int);
                    assert(stack@[k] == bs[k]);
                } else {
                    assert(in_region(d, extent@, p));
                    if d == extent@ {
                        assert(bits_of(result@[r0.len() as int].0, m) == d);
                    } else {
                        if !(exists|q: int| 0 <= q < m && d[q] && !extent@[q]) {
                            assert(d =~= extent@);
                        }
                        let jd = lemma_first_diff(d, extent@, m as int);
                        assert(jd >= p);
                        let k = choose|k: int|
                            bs.len() <= k < stack@.len() && in_region(d, (#[trigger] stack@[k]).extent@, stack@[k].pivot as int);
                    }
                }
            }
        }
    }
    result
}

/// Lindig's algorithm started from the empty extent, Fast Close-by-One and
/// its dual emit the same concepts: given results `l`, `f` and `g` with the
/// properties that their contracts state, a pair is emitted by any one of
/// them exactly when it is a concept.
pub proof fn algorithms_agree(
    ctx: &FcaContext,
    l: Seq<(u128, u128, Vec<usize>, Vec<usize>)>,
    f: Seq<(u128, u128)>,
    g: Seq<(u128, u128)>,
)
    requires
        l.len() >= 1,
        bits_of(l[0].0, ctx.n_obj()) == ctx.prime_prop(
            ctx.prime_obj(Seq::new(ctx.n_obj(), |p: int| false)),
        ),
        forall|k: int|
            0 <= k < l.len() ==> ctx.is_concept(
                bits_of((#[trigger] l[k]).0, ctx.n_obj()),
                bits_of(l[k].1, ctx.n_prop()),
            ),
        forall|c: Seq<bool>|
            c.len() == ctx.n_obj() && closed(ctx, c) && #[trigger] subset(
                bits_of(l[0].0, ctx.n_obj()),
                c,
            ) ==> exists|k: int| 0 <= k < l.len() && bits_of((#[trigger] l[k]).0, ctx.n_obj()) == c,
        forall|k: int|
            0 <= k < f.len() ==> ctx.is_concept(
                bits_of((#[trigger] f[k]).0, ctx.n_obj()),
                bits_of(f[k].1, ctx.n_prop()),
            ),
        forall|d: Seq<bool>|
            #[trigger] is_intent(ctx, d) ==> exists|e: int|
                0 <= e < f.len() && bits_of((#[trigger] f[e]).1, ctx.n_prop()) == d,
        forall|k: int|
            0 <= k < g.len() ==> ctx.is_concept(
                bits_of((#[trigger] g[k]).0, ctx.n_obj()),
                bits_of(g[k].1, ctx.n_prop()),
            ),
        forall|d: Seq<bool>|
            #[trigger] is_extent(ctx, d) ==> exists|e: int|
                0 <= e < g.len() && bits_of((#[trigger] g[e]).0, ctx.n_obj()) == d,
    ensures
        forall|a: Seq<bool>, b: Seq<bool>|
            #[trigger] ctx.is_concept(a, b) <==> (exists|k: int|
                0 <= k < l.len() && bits_of((#[trigger] l[k]).0, ctx.n_obj()) == a && bits_of(
                    l[k].1,
                    ctx.n_prop(),
                ) == b),
        forall|a: Seq<bool>, b: Seq<bool>|
            #[trigger] ctx.is_concept(a, b) <==> (exists|e: int|
                0 <= e < f.len() && bits_of((#[trigger] f[e]).0, ctx.n_obj()) == a && bits_of(
                    f[e].1,
                    ctx.n_prop(),
                ) == b),
        forall|a: Seq<bool>, b: Seq<bool>|
            #[trigger] ctx.is_concept(a, b) <==> (exists|e: int|
                0 <= e < g.len() && bits_of((#[trigger] g[e]).0, ctx.n_obj()) == a && bits_of(
                    g[e].1,
                    ctx.n_prop(),
                ) == b),
{
    assert forall|a: Seq<bool>, b: Seq<bool>| #[trigger] ctx.is_concept(a, b) implies (exists|k: int|
        0 <= k < l.len() && bits_of((#[trigger] l[k]).0, ctx.n_obj()) == a && bits_of(
            l[k].1,
            ctx.n_prop(),
        ) == b) && (exists|e: int|
        0 <= e < f.len() && bits_of((#[trigger] f[e]).0, ctx.n_obj()) == a && bits_of(
            f[e].1,
            ctx.n_prop(),
        ) == b) && (exists|e: int|
        0 <= e < g.len() && bits_of((#[trigger] g[e]).0, ctx.n_obj()) == a && bits_of(
            g[e].1,
            ctx.n_prop(),
        ) == b) by {
        assert(closed(ctx, a));
        bottom_below_every_extent(ctx, a);
        let k = choose|k: int| 0 <= k < l.len() && bits_of((#[trigger] l[k]).0, ctx.n_obj()) == a;
        assert(ctx.is_concept(bits_of(l[k].0, ctx.n_obj()), bits_of(l[k].1, ctx.n_prop())));
        assert(is_intent(ctx, b));
        let e = choose|e: int| 0 <= e < f.len() && bits_of((#[trigger] f[e]).1, ctx.n_prop()) == b;
        assert(ctx.is_concept(bits_of(f[e].0, ctx.n_obj()), bits_of(f[e].1, ctx.n_prop())));
        assert(is_extent(ctx, a));
        let e2 = choose|e2: int| 0 <= e2 < g.len() && bits_of((#[trigger] g[e2]).0, ctx.n_obj()) == a;
        assert(ctx.is_concept(bits_of(g[e2].0, ctx.n_obj()), bits_of(g[e2].1, ctx.n_prop())));
    }
}

} // verus!
