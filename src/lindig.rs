//! Lindig's algorithm: the concepts of a context together with the cover
//! relation of their lattice, found by walking upward from a starting extent
//! in shortlex order.
use vstd::prelude::*;
use crate::bitset::{BitSet, bit128, count_true, shortlex_lt, shortlex_transitive, lex_irreflexive};
use crate::context::{FcaContext, bits_of, fits, raw_bit, strict_subset, subset, closure_laws, closure_monotone};

verus! {

/// `2` to the power `n`.
pub open spec fn pow2n(n: nat) -> nat
    decreases n,
{
    if n == 0 {
        1
    } else {
        2 * pow2n((n - 1) as nat)
    }
}

/// The natural number a set encodes, least significant bit first.
spec fn bin_val(s: Seq<bool>) -> nat
    decreases s.len(),
{
    if s.len() == 0 {
        0
    } else {
        2 * bin_val(s.drop_first()) + if s[0] {
            1nat
        } else {
            0nat
        }
    }
}

proof fn lemma_bin_val_bound(s: Seq<bool>)
    ensures
        bin_val(s) < pow2n(s.len()),
    decreases s.len(),
{
    if s.len() > 0 {
        lemma_bin_val_bound(s.drop_first());
    }
}

proof fn lemma_bin_val_injective(s: Seq<bool>, t: Seq<bool>)
    requires
        s.len() == t.len(),
        bin_val(s) == bin_val(t),
    ensures
        s == t,
    decreases s.len(),
{
    if s.len() > 0 {
        assert(s[0] == t[0]);
        lemma_bin_val_injective(s.drop_first(), t.drop_first());
        assert(s =~= seq![s[0]] + s.drop_first());
        assert(t =~= seq![t[0]] + t.drop_first());
    }
}

/// Distinct sets of width `n` number at most two to the `n`.
proof fn lemma_distinct_sets_bound(xs: Seq<Seq<bool>>, n: nat)
    requires
        xs.no_duplicates(),
        forall|k: int| 0 <= k < xs.len() ==> (#[trigger] xs[k]).len() == n,
    ensures
        xs.len() <= pow2n(n),
{
    let vals = xs.map_values(|s: Seq<bool>| bin_val(s) as int);
    assert forall|a: int, b: int| 0 <= a < vals.len() && 0 <= b < vals.len() && a != b implies vals[a]
        != vals[b] by {
        if vals[a] == vals[b] {
            lemma_bin_val_injective(xs[a], xs[b]);
        }
    }
    vals.unique_seq_to_set();
    assert forall|v: int| vals.to_set().contains(v) implies vstd::set_lib::set_int_range(
        0,
        pow2n(n) as int,
    ).contains(v) by {
        let k = choose|k: int| 0 <= k < vals.len() && vals[k] == v;
        lemma_bin_val_bound(xs[k]);
    }
    vstd::set_lib::lemma_int_range(0, pow2n(n) as int);
    vstd::set_lib::lemma_len_subset(
        vals.to_set(),
        vstd::set_lib::set_int_range(0, pow2n(n) as int),
    );
}

/// The extents held by a list of bit sets.
pub open spec fn views(xs: Seq<BitSet>) -> Seq<Seq<bool>> {
    xs.map_values(|b: BitSet| b@)
}

/// `c` is a closed set of objects: an extent of the context.
pub open spec fn closed(ctx: &FcaContext, c: Seq<bool>) -> bool {
    ctx.prime_prop(ctx.prime_obj(c)) == c
}

/// `e` covers `a`: it contains `a` strictly, and no closed set of objects
/// lies strictly between them.
pub open spec fn is_cover(ctx: &FcaContext, a: Seq<bool>, e: Seq<bool>) -> bool {
    &&& strict_subset(a, e)
    &&& forall|c: Seq<bool>|
        c.len() == ctx.n_obj() && closed(ctx, c) && #[trigger] strict_subset(a, c) ==> !strict_subset(
            c,
            e,
        )
}

/// Object `g` is still a candidate, or the closure of `a` with `g` added
/// takes in another object outside `a` which, if it comes before `g`, is
/// still a candidate.
spec fn settled(ctx: &FcaContext, a: Seq<bool>, minimal: Seq<bool>, g: int) -> bool {
    minimal[g] || exists|h: int|
        0 <= h < ctx.n_obj() && #[trigger] ctx.prime_prop(ctx.prime_obj(a.update(g, true)))[h]
            && !a[h] && h != g && (h < g ==> minimal[h])
}

/// Every closed set above `a` that holds an object `g` outside `a` but not
/// `i` holds a candidate other than `i`.
proof fn lemma_candidate_inside(
    ctx: &FcaContext,
    a: Seq<bool>,
    minimal: Seq<bool>,
    c: Seq<bool>,
    g: int,
    i: int,
)
    requires
        a.len() == ctx.n_obj(),
        minimal.len() == ctx.n_obj(),
        c.len() == ctx.n_obj(),
        closed(ctx, c),
        subset(a, c),
        0 <= g < ctx.n_obj(),
        0 <= i < ctx.n_obj(),
        c[g],
        !a[g],
        !c[i],
        forall|q: int| i < q < ctx.n_obj() ==> #[trigger] minimal[q] == !a[q],
        forall|g2: int| 0 <= g2 < i && !a[g2] ==> #[trigger] settled(ctx, a, minimal, g2),
    ensures
        exists|h: int| 0 <= h < ctx.n_obj() && c[h] && !a[h] && minimal[h] && h != i,
    decreases ctx.n_obj() - g,
{
    if g > i {
        assert(minimal[g]);
    } else if minimal[g] {
    } else {
        assert(settled(ctx, a, minimal, g));
        let h = choose|h: int|
            0 <= h < ctx.n_obj() && #[trigger] ctx.prime_prop(ctx.prime_obj(a.update(g, true)))[h]
                && !a[h] && h != g && (h < g ==> minimal[h]);
        let b = ctx.prime_obj(c);
        assert(subset(b, b));
        closure_monotone(ctx, a.update(g, true), c, b, b);
        assert(c[h]);
        if h > g {
            lemma_candidate_inside(ctx, a, minimal, c, h, i);
        }
    }
}

/// `q` is the last object of `e` outside `a`.
spec fn last_outside(a: Seq<bool>, e: Seq<bool>, q: int) -> bool {
    &&& 0 <= q < e.len()
    &&& e[q]
    &&& !a[q]
    &&& forall|q2: int| q < q2 < e.len() && #[trigger] e[q2] ==> a[q2]
}

/// Every object of `e` from `i` on lies in `a`.
spec fn inside_from(a: Seq<bool>, e: Seq<bool>, i: int) -> bool {
    forall|q: int| i <= q < e.len() && #[trigger] e[q] ==> a[q]
}

/// A cover of `a` is the closure of `a` with any one of its objects
/// outside `a` added.
proof fn lemma_cover_generated(ctx: &FcaContext, a: Seq<bool>, e: Seq<bool>, h: int)
    requires
        a.len() == ctx.n_obj(),
        e.len() == ctx.n_obj(),
        closed(ctx, e),
        is_cover(ctx, a, e),
        0 <= h < ctx.n_obj(),
        e[h],
        !a[h],
    ensures
        ctx.prime_prop(ctx.prime_obj(a.update(h, true))) == e,
{
    let ah = a.update(h, true);
    let c = ctx.prime_prop(ctx.prime_obj(ah));
    let b = ctx.prime_obj(e);
    closure_laws(ctx, ah, b);
    assert(subset(b, b));
    assert(subset(ah, e));
    closure_monotone(ctx, ah, e, b, b);
    assert(ah[h]);
    assert(c[h]);
    assert forall|q: int| 0 <= q < a.len() && #[trigger] a[q] implies c[q] by {
        assert(ah[q]);
    }
    assert(subset(a, c));
    assert(strict_subset(a, c));
    assert(!strict_subset(c, e));
    assert(c =~= e);
}

/// The extent of `a` comes strictly before that of `b` in shortlex order.
spec fn before(a: BitSet, b: BitSet) -> bool {
    shortlex_lt(count_true(a@), a.word_seq(), count_true(b@), b.word_seq())
}

/// A strictly larger extent comes strictly later in shortlex order; and that
/// order is irreflexive and transitive.
proof fn lemma_before(a: BitSet, b: BitSet, c: BitSet)
    ensures
        strict_subset(a@, b@) ==> before(a, b),
        !before(a, a),
        before(a, b) && before(b, c) ==> before(a, c),
{
    if strict_subset(a@, b@) {
        lemma_count_subset(a@, b@);
    }
    lex_irreflexive(a.word_seq());
    if before(a, b) && before(b, c) {
        shortlex_transitive(
            count_true(a@),
            a.word_seq(),
            count_true(b@),
            b.word_seq(),
            count_true(c@),
            c.word_seq(),
        );
    }
}

/// Every extent contains the first one.
spec fn above_first(extents: Seq<BitSet>) -> bool {
    forall|k: int| 0 <= k < extents.len() ==> subset(extents[0]@, (#[trigger] extents[k])@)
}

/// The upper neighbours of the concept with extent `objects`: for each
/// object `i` outside it, in ascending order, the closure of `objects` with
/// `i` added, kept unless the closure also takes in an object that is still
/// a candidate and is not `i` itself.
pub fn neighbors(objects: &BitSet, ctx: &FcaContext) -> (r: Vec<(BitSet, BitSet)>)
    requires
        ctx.wf(),
        objects.wf(),
        objects@.len() == ctx.n_obj(),
    ensures
        forall|k: int|
            0 <= k < r@.len() ==> {
                &&& (#[trigger] r@[k]).0.wf()
                &&& r@[k].1.wf()
                &&& ctx.is_concept(r@[k].0@, r@[k].1@)
                &&& is_cover(ctx, objects@, r@[k].0@)
            },
        forall|k1: int, k2: int|
            0 <= k1 < r@.len() && 0 <= k2 < r@.len() && k1 != k2 ==> (#[trigger] r@[k1]).0@
                != (#[trigger] r@[k2]).0@,
        forall|e: Seq<bool>|
            e.len() == ctx.n_obj() && closed(ctx, e) && #[trigger] is_cover(ctx, objects@, e)
                ==> exists|k: int| 0 <= k < r@.len() && (#[trigger] r@[k]).0@ == e,
{
    let n = ctx.n_objects();
    let mut result: Vec<(BitSet, BitSet)> = Vec::new();
    let mut minimal = objects.complement();
    let mut i: usize = 0;
    let ghost mut lasts: Seq<int> = Seq::empty();
    assert forall|e: Seq<bool>|
        e.len() == n && closed(ctx, e) && #[trigger] is_cover(ctx, objects@, e) && inside_from(
            objects@,
            e,
            0,
        ) implies exists|k: int| 0 <= k < result@.len() && (#[trigger] result@[k]).0@ == e by {
        assert(e =~= objects@);
    }
    while i < n
        invariant
            i <= n,
            n == ctx.n_obj(),
            ctx.wf(),
            objects.wf(),
            objects@.len() == n,
            minimal.wf(),
            minimal@.len() == n,
            forall|q: int| 0 <= q < n && #[trigger] minimal@[q] ==> !objects@[q],
            forall|q: int| i <= q < n ==> #[trigger] minimal@[q] == !objects@[q],
            forall|g: int| 0 <= g < i && !objects@[g] ==> #[trigger] settled(ctx, objects@, minimal@, g),
            forall|k: int|
                0 <= k < result@.len() ==> {
                    &&& (#[trigger] result@[k]).0.wf()
                    &&& result@[k].1.wf()
                    &&& ctx.is_concept(result@[k].0@, result@[k].1@)
                    &&& is_cover(ctx, objects@, result@[k].0@)
                    &&& result@[k].0@.len() == n
                },
            forall|g: int, h: int|
                0 <= g < i && g < h < n && !objects@[g] && #[trigger] ctx.prime_prop(
                    ctx.prime_obj(objects@.update(g, true)),
                )[h] && !objects@[h] ==> !minimal@[g],
            lasts.len() == result@.len(),
            forall|k: int|
                0 <= k < lasts.len() ==> #[trigger] lasts[k] < i && last_outside(
                    objects@,
                    result@[k].0@,
                    lasts[k],
                ),
            forall|k1: int, k2: int|
                0 <= k1 < k2 < lasts.len() ==> #[trigger] lasts[k1] < #[trigger] lasts[k2],
            forall|e: Seq<bool>|
                e.len() == n && closed(ctx, e) && #[trigger] is_cover(ctx, objects@, e)
                    && inside_from(objects@, e, i as int) ==> exists|k: int|
                    0 <= k < result@.len() && (#[trigger] result@[k]).0@ == e,
        decreases n - i,
    {
        if minimal.get(i) {
            let mut add = BitSet::new(n);
            add.set(i);
            let objects_and_add = objects.or(&add);
            assert(objects_and_add@ =~= objects@.update(i as int, true));
            let (extent, intent) = ctx.doubleprime_objects(&objects_and_add);
            let complement_oaa = objects_and_add.complement();
            let check = extent.and(&complement_oaa).and(&minimal);
            let ghost m0 = minimal@;
            if !check.is_empty() {
                let add_complement = add.complement();
                minimal = minimal.and(&add_complement);
                proof {
                    let h = choose|h: int| 0 <= h < n && check@[h];
                    assert(ctx.prime_prop(ctx.prime_obj(objects@.update(i as int, true)))[h]);
                    assert(settled(ctx, objects@, minimal@, i as int));
                    assert forall|g: int| 0 <= g < i + 1 && !objects@[g] implies #[trigger] settled(
                        ctx,
                        objects@,
                        minimal@,
                        g,
                    ) by {
                        if g < i {
                            assert(settled(ctx, objects@, m0, g));
                            if !m0[g] {
                                let h2 = choose|h2: int|
                                    0 <= h2 < n && #[trigger] ctx.prime_prop(
                                        ctx.prime_obj(objects@.update(g, true)),
                                    )[h2] && !objects@[h2] && h2 != g && (h2 < g ==> m0[h2]);
                                assert(h2 < g ==> minimal@[h2]);
                            }
                        }
                    }
                    assert forall|e: Seq<bool>|
                        e.len() == n && closed(ctx, e) && #[trigger] is_cover(ctx, objects@, e)
                            && inside_from(objects@, e, i + 1) implies exists|k: int|
                        0 <= k < result@.len() && (#[trigger] result@[k]).0@ == e by {
                        if e[i as int] {
                            lemma_cover_generated(ctx, objects@, e, i as int);
                            assert(extent@ == e);
                            assert(!objects@[h] && h != i);
                            if h < i {
                                lemma_cover_generated(ctx, objects@, e, h);
                                assert(ctx.prime_prop(ctx.prime_obj(objects@.update(h, true)))[i as int]);
                            }
                        }
                        assert(inside_from(objects@, e, i as int));
                    }
                }
            } else {
                proof {
                    closure_laws(ctx, objects_and_add@, intent@);
                    assert(extent@[i as int]);
                    assert(subset(objects@, objects_and_add@));
                    assert forall|c: Seq<bool>|
                        c.len() == n && closed(ctx, c) && #[trigger] strict_subset(
                            objects@,
                            c,
                        ) implies !strict_subset(c, extent@) by {
                        if strict_subset(c, extent@) {
                            let b = ctx.prime_obj(c);
                            assert(subset(b, b));
                            if c[i as int] {
                                closure_monotone(ctx, objects_and_add@, c, b, b);
                                assert(extent@ =~= c);
                            } else {
                                if !(exists|g: int| 0 <= g < n && c[g] && !objects@[g]) {
                                    assert(objects@ =~= c);
                                }
                                let g = choose|g: int| 0 <= g < n && c[g] && !objects@[g];
                                lemma_candidate_inside(ctx, objects@, minimal@, c, g, i as int);
                                let h = choose|h: int|
                                    0 <= h < n && c[h] && !objects@[h] && minimal@[h] && h != i;
                                assert(check@[h]);
                            }
                        }
                    }
                    assert forall|q2: int| i < q2 < n && #[trigger] extent@[q2] implies objects@[q2] by {
                        if !objects@[q2] {
                            assert(check@[q2]);
                        }
                    }
                    assert(last_outside(objects@, extent@, i as int));
                    assert forall|h: int|
                        i < h < n && #[trigger] ctx.prime_prop(
                            ctx.prime_obj(objects@.update(i as int, true)),
                        )[h] implies objects@[h] by {
                        assert(extent@[h]);
                    }
                }
                let ghost e_new = extent@;
                let ghost r0 = result@;
                result.push((extent, intent));
                proof {
                    lasts = lasts.push(i as int);
                    assert(result@[result@.len() - 1].0@ == e_new);
                    assert forall|e: Seq<bool>|
                        e.len() == n && closed(ctx, e) && #[trigger] is_cover(ctx, objects@, e)
                            && inside_from(objects@, e, i + 1) implies exists|k: int|
                        0 <= k < result@.len() && (#[trigger] result@[k]).0@ == e by {
                        if e[i as int] {
                            lemma_cover_generated(ctx, objects@, e, i as int);
                            assert(result@[result@.len() - 1].0@ == e);
                        } else {
                            assert(inside_from(objects@, e, i as int));
                            let k = choose|k: int| 0 <= k < r0.len() && (#[trigger] r0[k]).0@ == e;
                            assert(result@[k] == r0[k]);
                        }
                    }
                }
            }
        } else {
            proof {
                assert forall|e: Seq<bool>|
                    e.len() == n && closed(ctx, e) && #[trigger] is_cover(ctx, objects@, e)
                        && inside_from(objects@, e, i + 1) implies exists|k: int|
                    0 <= k < result@.len() && (#[trigger] result@[k]).0@ == e by {
                    assert(inside_from(objects@, e, i as int));
                }
            }
        }
        i += 1;
    }
    proof {
        assert forall|k1: int, k2: int|
            0 <= k1 < result@.len() && 0 <= k2 < result@.len() && k1 != k2 implies (#[trigger] result@[k1]).0@
                != (#[trigger] result@[k2]).0@ by {
            if k1 < k2 {
                assert(lasts[k1] < lasts[k2]);
                assert(last_outside(objects@, result@[k2].0@, lasts[k2]));
            } else {
                assert(lasts[k2] < lasts[k1]);
                assert(last_outside(objects@, result@[k1].0@, lasts[k1]));
            }
        }
        assert forall|e: Seq<bool>|
            e.len() == ctx.n_obj() && closed(ctx, e) && #[trigger] is_cover(ctx, objects@, e)
                implies exists|k: int| 0 <= k < result@.len() && (#[trigger] result@[k]).0@ == e by {
            assert(inside_from(objects@, e, n as int));
        }
    }
    result
}


/// The position of `e` among the extents, if it is there.
fn find_extent(extents: &Vec<BitSet>, e: &BitSet) -> (r: Option<usize>)
    requires
        e.wf(),
        forall|k: int| 0 <= k < extents@.len() ==> (#[trigger] extents@[k]).wf(),
    ensures
        match r {
            Some(k) => k < extents@.len() && extents@[k as int]@ == e@,
            None => forall|k: int| 0 <= k < extents@.len() ==> (#[trigger] extents@[k])@ != e@,
        },
{
    let mut k: usize = 0;
    while k < extents.len()
        invariant
            k <= extents@.len(),
            e.wf(),
            forall|k2: int| 0 <= k2 < extents@.len() ==> (#[trigger] extents@[k2]).wf(),
            forall|k2: int| 0 <= k2 < k ==> (#[trigger] extents@[k2])@ != e@,
        decreases extents@.len() - k,
    {
        if extents[k].equals(e) {
            return Some(k);
        }
        k += 1;
    }
    None
}

/// The position in the worklist of an entry whose extent comes first in
/// shortlex order: no entry comes strictly before it.
fn min_position(extents: &Vec<BitSet>, worklist: &Vec<usize>) -> (r: usize)
    requires
        worklist@.len() > 0,
        forall|t: int| 0 <= t < worklist@.len() ==> #[trigger] worklist@[t] < extents@.len(),
        forall|k: int| 0 <= k < extents@.len() ==> (#[trigger] extents@[k]).wf(),
    ensures
        r < worklist@.len(),
        forall|t: int|
            0 <= t < worklist@.len() ==> !shortlex_lt(
                count_true(extents@[#[trigger] worklist@[t] as int]@),
                extents@[worklist@[t] as int].word_seq(),
                count_true(extents@[worklist@[r as int] as int]@),
                extents@[worklist@[r as int] as int].word_seq(),
            ),
{
    let mut best: usize = 0;
    let mut t: usize = 1;
    proof {
        lex_irreflexive(extents@[worklist@[0] as int].word_seq());
    }
    while t < worklist.len()
        invariant
            1 <= t <= worklist@.len(),
            best < t,
            forall|t2: int| 0 <= t2 < worklist@.len() ==> #[trigger] worklist@[t2] < extents@.len(),
            forall|k: int| 0 <= k < extents@.len() ==> (#[trigger] extents@[k]).wf(),
            forall|t2: int|
                0 <= t2 < t ==> !shortlex_lt(
                    count_true(extents@[#[trigger] worklist@[t2] as int]@),
                    extents@[worklist@[t2] as int].word_seq(),
                    count_true(extents@[worklist@[best as int] as int]@),
                    extents@[worklist@[best as int] as int].word_seq(),
                ),
        decreases worklist@.len() - t,
    {
        if extents[worklist[t]].shortlex_less(&extents[worklist[best]]) {
            proof {
                let kb = extents@[worklist@[best as int] as int];
                let kt = extents@[worklist@[t as int] as int];
                assert forall|t2: int| 0 <= t2 < t implies !shortlex_lt(
                    count_true(extents@[#[trigger] worklist@[t2] as int]@),
                    extents@[worklist@[t2] as int].word_seq(),
                    count_true(kt@),
                    kt.word_seq(),
                ) by {
                    let k2 = extents@[worklist@[t2] as int];
                    if shortlex_lt(count_true(k2@), k2.word_seq(), count_true(kt@), kt.word_seq()) {
                        shortlex_transitive(
                            count_true(k2@),
                            k2.word_seq(),
                            count_true(kt@),
                            kt.word_seq(),
                            count_true(kb@),
                            kb.word_seq(),
                        );
                    }
                }
            }
            proof {
                lex_irreflexive(extents@[worklist@[t as int] as int].word_seq());
            }
            best = t;
        }
        t += 1;
    }
    best
}

/// The nodes found so far are concepts with distinct extents, and every
/// recorded cover edge joins two of them, the lower one strictly inside the
/// upper one.
spec fn lattice_ok(
    ctx: &FcaContext,
    extents: Seq<BitSet>,
    intents: Seq<BitSet>,
    uppers: Seq<Vec<usize>>,
    lowers: Seq<Vec<usize>>,
) -> bool {
    &&& intents.len() == extents.len()
    &&& uppers.len() == extents.len()
    &&& lowers.len() == extents.len()
    &&& views(extents).no_duplicates()
    &&& forall|k: int|
        0 <= k < extents.len() ==> {
            &&& (#[trigger] extents[k]).wf()
            &&& intents[k].wf()
            &&& ctx.is_concept(extents[k]@, intents[k]@)
        }
    &&& forall|k: int, t: int|
        0 <= k < extents.len() && 0 <= t < uppers[k]@.len() ==> {
            &&& #[trigger] uppers[k]@[t] < extents.len()
            &&& is_cover(ctx, extents[k]@, extents[uppers[k]@[t] as int]@)
        }
    &&& forall|k: int, t: int|
        0 <= k < extents.len() && 0 <= t < lowers[k]@.len() ==> {
            &&& #[trigger] lowers[k]@[t] < extents.len()
            &&& is_cover(ctx, extents[lowers[k]@[t] as int]@, extents[k]@)
        }
}

/// Every cover of the extent of node `k` is the extent of one of its
/// recorded upper covers.
spec fn upper_complete(ctx: &FcaContext, extents: Seq<BitSet>, uppers: Seq<Vec<usize>>, k: int) -> bool {
    forall|e: Seq<bool>|
        e.len() == ctx.n_obj() && closed(ctx, e) && #[trigger] is_cover(ctx, extents[k]@, e) ==> exists|t: int|
            0 <= t < uppers[k]@.len() && extents[uppers[k]@[t] as int]@ == e
}

/// Every recorded upper cover of a node records the node among its lower
/// covers.
spec fn lower_linked(uppers: Seq<Vec<usize>>, lowers: Seq<Vec<usize>>) -> bool {
    forall|k: int, t: int|
        0 <= k < uppers.len() && 0 <= t < uppers[k]@.len() ==> lowers[#[trigger] uppers[k]@[t] as int]@.contains(
            k as usize,
        )
}

/// The second state extends the first: nodes and edge lists only grow.
spec fn grows(
    ext1: Seq<BitSet>,
    up1: Seq<Vec<usize>>,
    low1: Seq<Vec<usize>>,
    ext2: Seq<BitSet>,
    up2: Seq<Vec<usize>>,
    low2: Seq<Vec<usize>>,
) -> bool {
    &&& ext1.len() <= ext2.len()
    &&& up1.len() == ext1.len()
    &&& low1.len() == ext1.len()
    &&& up2.len() == ext2.len()
    &&& low2.len() == ext2.len()
    &&& forall|j: int| 0 <= j < ext1.len() ==> (#[trigger] ext2[j])@ == ext1[j]@
    &&& forall|j: int|
        0 <= j < ext1.len() ==> up1[j]@.len() <= (#[trigger] up2[j])@.len() && forall|t: int|
            0 <= t < up1[j]@.len() ==> up2[j]@[t] == #[trigger] up1[j]@[t]
    &&& forall|j: int|
        0 <= j < ext1.len() ==> low1[j]@.len() <= (#[trigger] low2[j])@.len() && forall|t: int|
            0 <= t < low1[j]@.len() ==> low2[j]@[t] == #[trigger] low1[j]@[t]
}

proof fn lemma_upper_complete_grows(
    ctx: &FcaContext,
    ext1: Seq<BitSet>,
    up1: Seq<Vec<usize>>,
    low1: Seq<Vec<usize>>,
    ext2: Seq<BitSet>,
    up2: Seq<Vec<usize>>,
    low2: Seq<Vec<usize>>,
    k: int,
)
    requires
        grows(ext1, up1, low1, ext2, up2, low2),
        0 <= k < ext1.len(),
        forall|t: int| 0 <= t < up1[k]@.len() ==> #[trigger] up1[k]@[t] < ext1.len(),
        upper_complete(ctx, ext1, up1, k),
    ensures
        upper_complete(ctx, ext2, up2, k),
{
    assert forall|e: Seq<bool>|
        e.len() == ctx.n_obj() && closed(ctx, e) && #[trigger] is_cover(ctx, ext2[k]@, e) implies exists|t: int|
        0 <= t < up2[k]@.len() && ext2[up2[k]@[t] as int]@ == e by {
        assert(ext2[k]@ == ext1[k]@);
        let t = choose|t: int| 0 <= t < up1[k]@.len() && ext1[up1[k]@[t] as int]@ == e;
        assert(up2[k]@[t] == up1[k]@[t]);
        assert(ext2[up1[k]@[t] as int]@ == ext1[up1[k]@[t] as int]@);
    }
}

proof fn lemma_lower_linked_grows(
    ext1: Seq<BitSet>,
    up1: Seq<Vec<usize>>,
    low1: Seq<Vec<usize>>,
    ext2: Seq<BitSet>,
    up2: Seq<Vec<usize>>,
    low2: Seq<Vec<usize>>,
    k: int,
    t: int,
)
    requires
        grows(ext1, up1, low1, ext2, up2, low2),
        0 <= k < ext1.len(),
        0 <= t < up1[k]@.len(),
        up1[k]@[t] < ext1.len(),
        lower_linked(up1, low1),
    ensures
        low2[up2[k]@[t] as int]@.contains(k as usize),
{
    let v = up1[k]@[t] as int;
    assert(up2[k]@[t] == up1[k]@[t]);
    assert(low1[v]@.contains(k as usize));
    let t2 = choose|t2: int| 0 <= t2 < low1[v]@.len() && low1[v]@[t2] == k as usize;
    assert(low2[v]@[t2] == low1[v]@[t2]);
}

/// A set contained in another has no more elements, and fewer when the two
/// differ.
proof fn lemma_count_subset(s1: Seq<bool>, s2: Seq<bool>)
    requires
        subset(s1, s2),
    ensures
        count_true(s1) <= count_true(s2),
        s1 != s2 ==> count_true(s1) < count_true(s2),
    decreases s1.len(),
{
    if s1.len() == 0 {
        assert(s1 =~= s2);
    } else {
        let d1 = s1.drop_last();
        let d2 = s2.drop_last();
        assert forall|i: int| 0 <= i < d1.len() && #[trigger] d1[i] implies d2[i] by {
            assert(s1[i]);
        }
        lemma_count_subset(d1, d2);
        assert(s1.last() ==> s2.last()) by {
            assert(s1[s1.len() - 1] ==> s2[s1.len() - 1]);
        }
        if s1 != s2 && d1 == d2 {
            assert(s1.last() != s2.last()) by {
                if s1.last() == s2.last() {
                    assert forall|i: int| 0 <= i < s1.len() implies s1[i] == s2[i] by {
                        if i < s1.len() - 1 {
                            assert(d1[i] == d2[i]);
                        }
                    }
                    assert(s1 =~= s2);
                }
            }
        }
    }
}

/// Between a closed set and a larger closed set lies a cover of the first.
proof fn lemma_cover_below(ctx: &FcaContext, e: Seq<bool>, c: Seq<bool>) -> (v: Seq<bool>)
    requires
        e.len() == ctx.n_obj(),
        c.len() == ctx.n_obj(),
        closed(ctx, c),
        strict_subset(e, c),
    ensures
        v.len() == ctx.n_obj(),
        closed(ctx, v),
        is_cover(ctx, e, v),
        subset(v, c),
    decreases count_true(c) - count_true(e),
{
    lemma_count_subset(e, c);
    if is_cover(ctx, e, c) {
        assert(subset(c, c));
        c
    } else {
        let w = choose|w: Seq<bool>|
            w.len() == ctx.n_obj() && closed(ctx, w) && #[trigger] strict_subset(e, w) && strict_subset(
                w,
                c,
            );
        lemma_count_subset(w, c);
        lemma_count_subset(e, w);
        let v = lemma_cover_below(ctx, e, w);
        assert forall|i: int| 0 <= i < v.len() && #[trigger] v[i] implies c[i] by {
            assert(w[i]);
        }
        v
    }
}

/// Where every node records all its covers, every closed set above node `k`
/// is the extent of some node.
proof fn lemma_reach_closed(
    ctx: &FcaContext,
    extents: Seq<BitSet>,
    uppers: Seq<Vec<usize>>,
    k: int,
    c: Seq<bool>,
)
    requires
        uppers.len() == extents.len(),
        0 <= k < extents.len(),
        forall|j: int| 0 <= j < extents.len() ==> (#[trigger] extents[j])@.len() == ctx.n_obj(),
        forall|j: int|
            0 <= j < extents.len() ==> #[trigger] upper_complete(ctx, extents, uppers, j),
        forall|j: int, t: int|
            0 <= j < extents.len() && 0 <= t < uppers[j]@.len() ==> #[trigger] uppers[j]@[t]
                < extents.len(),
        c.len() == ctx.n_obj(),
        closed(ctx, c),
        subset(extents[k]@, c),
    ensures
        exists|j: int| 0 <= j < extents.len() && (#[trigger] extents[j])@ == c,
    decreases count_true(c) - count_true(extents[k]@),
{
    if extents[k]@ == c {
    } else {
        lemma_count_subset(extents[k]@, c);
        let v = lemma_cover_below(ctx, extents[k]@, c);
        assert(upper_complete(ctx, extents, uppers, k));
        let t = choose|t: int| 0 <= t < uppers[k]@.len() && extents[uppers[k]@[t] as int]@ == v;
        let j = uppers[k]@[t] as int;
        assert(uppers[k]@[t] < extents.len());
        lemma_count_subset(v, c);
        lemma_count_subset(extents[k]@, v);
        lemma_reach_closed(ctx, extents, uppers, j, c);
    }
}

/// The closure of the empty set of objects lies inside every extent; so
/// Lindig's algorithm started from the empty extent, whose first extent is
/// that closure, reaches every concept of the context.
pub proof fn bottom_below_every_extent(ctx: &FcaContext, c: Seq<bool>)
    requires
        c.len() == ctx.n_obj(),
        closed(ctx, c),
    ensures
        subset(ctx.prime_prop(ctx.prime_obj(Seq::new(ctx.n_obj(), |p: int| false))), c),
{
    let empty = Seq::new(ctx.n_obj(), |p: int| false);
    let b = ctx.prime_obj(c);
    assert(subset(b, b));
    assert(subset(empty, c));
    closure_monotone(ctx, empty, c, b, b);
}

/// A list of positions renumbered through `rank`.
spec fn remapped(list: Seq<usize>, rank: Seq<usize>) -> Seq<usize> {
    list.map_values(|x: usize| rank[x as int])
}

/// Renumbers each position of `list` through `rank`.
fn remap(list: &Vec<usize>, rank: &Vec<usize>) -> (r: Vec<usize>)
    requires
        forall|t: int| 0 <= t < list@.len() ==> #[trigger] list@[t] < rank@.len(),
    ensures
        r@ == remapped(list@, rank@),
{
    let mut r: Vec<usize> = Vec::new();
    let mut t: usize = 0;
    while t < list.len()
        invariant
            t <= list@.len(),
            forall|t2: int| 0 <= t2 < list@.len() ==> #[trigger] list@[t2] < rank@.len(),
            r@ =~= remapped(list@.subrange(0, t as int), rank@),
        decreases list@.len() - t,
    {
        r.push(rank[list[t]]);
        t += 1;
        assert(r@ =~= remapped(list@.subrange(0, t as int), rank@));
    }
    assert(list@.subrange(0, list@.len() as int) =~= list@);
    r
}

/// The nodes, numbered as found (`q`), renumbered in the order in which
/// they were processed (`order`, inverted by `rank`), keep every property,
/// and the new numbering follows the cover edges and ends with the top.
proof fn lemma_final(
    ctx: &FcaContext,
    inf: Seq<bool>,
    extents: Seq<BitSet>,
    intents: Seq<BitSet>,
    q: Seq<(u128, u128, Vec<usize>, Vec<usize>)>,
    order: Seq<usize>,
    rank: Seq<usize>,
    r: Seq<(u128, u128, Vec<usize>, Vec<usize>)>,
)
    requires
        ctx.wf(),
        inf.len() == ctx.n_obj(),
        q.len() >= 1,
        bits_of(q[0].1, ctx.n_prop()) == ctx.prime_obj(inf),
        bits_of(q[0].0, ctx.n_obj()) == ctx.prime_prop(ctx.prime_obj(inf)),
        forall|k: int|
            0 <= k < q.len() ==> ctx.is_concept(
                bits_of((#[trigger] q[k]).0, ctx.n_obj()),
                bits_of(q[k].1, ctx.n_prop()),
            ),
        forall|k1: int, k2: int|
            0 <= k1 < q.len() && 0 <= k2 < q.len() && k1 != k2 ==> bits_of(
                (#[trigger] q[k1]).0,
                ctx.n_obj(),
            ) != bits_of((#[trigger] q[k2]).0, ctx.n_obj()),
        forall|k: int, t: int|
            0 <= k < q.len() && 0 <= t < q[k].2@.len() ==> {
                &&& #[trigger] q[k].2@[t] < q.len()
                &&& is_cover(
                    ctx,
                    bits_of(q[k].0, ctx.n_obj()),
                    bits_of(q[q[k].2@[t] as int].0, ctx.n_obj()),
                )
            },
        forall|k: int, t: int|
            0 <= k < q.len() && 0 <= t < q[k].3@.len() ==> {
                &&& #[trigger] q[k].3@[t] < q.len()
                &&& is_cover(
                    ctx,
                    bits_of(q[q[k].3@[t] as int].0, ctx.n_obj()),
                    bits_of(q[k].0, ctx.n_obj()),
                )
            },
        forall|k: int, e: Seq<bool>|
            0 <= k < q.len() && e.len() == ctx.n_obj() && closed(ctx, e) && #[trigger] is_cover(
                ctx,
                bits_of(q[k].0, ctx.n_obj()),
                e,
            ) ==> exists|t: int|
                0 <= t < q[k].2@.len() && bits_of(q[q[k].2@[t] as int].0, ctx.n_obj()) == e,
        forall|k: int, t: int|
            0 <= k < q.len() && 0 <= t < q[k].2@.len() ==> q[#[trigger] q[k].2@[t] as int].3@.contains(
                k as usize,
            ),
        forall|c: Seq<bool>|
            c.len() == ctx.n_obj() && closed(ctx, c) && #[trigger] subset(
                bits_of(q[0].0, ctx.n_obj()),
                c,
            ) ==> exists|k: int| 0 <= k < q.len() && bits_of((#[trigger] q[k]).0, ctx.n_obj()) == c,
        forall|k: int|
            0 <= k < q.len() ==> (#[trigger] q[k]).2@.no_duplicates() && q[k].3@.no_duplicates(),
        forall|k: int|
            0 <= k < q.len() ==> fits((#[trigger] q[k]).0, ctx.n_obj()) && fits(q[k].1, ctx.n_prop()),
        forall|k: int|
            0 <= k < q.len() ==> subset(
                bits_of(q[0].0, ctx.n_obj()),
                bits_of((#[trigger] q[k]).0, ctx.n_obj()),
            ),
        q.len() == extents.len(),
        rank.len() == extents.len(),
        forall|k: int| 0 <= k < extents.len() ==> bits_of((#[trigger] q[k]).0, ctx.n_obj()) == extents[k]@,
        forall|k: int| 0 <= k < extents.len() ==> (#[trigger] extents[k])@.len() == ctx.n_obj(),
        order.no_duplicates(),
        order.len() >= 1,
        order[0] == 0,
        forall|i: int| 0 <= i < order.len() ==> #[trigger] order[i] < extents.len(),
        forall|k: int| 0 <= k < extents.len() ==> #[trigger] rank[k] < order.len() && order[rank[k] as int] == k,
        forall|i: int, j: int|
            0 <= i < j < order.len() ==> !before(
                extents[#[trigger] order[j] as int],
                extents[#[trigger] order[i] as int],
            ),
        r.len() == order.len(),
        forall|i: int|
            0 <= i < order.len() ==> {
                &&& (#[trigger] r[i]).0 == q[order[i] as int].0
                &&& r[i].1 == q[order[i] as int].1
                &&& r[i].2@ == remapped(q[order[i] as int].2@, rank)
                &&& r[i].3@ == remapped(q[order[i] as int].3@, rank)
            },
    ensures
        r.len() >= 1,
        bits_of(r[0].1, ctx.n_prop()) == ctx.prime_obj(inf),
        bits_of(r[0].0, ctx.n_obj()) == ctx.prime_prop(ctx.prime_obj(inf)),
        forall|k: int|
            0 <= k < r.len() ==> ctx.is_concept(
                bits_of((#[trigger] r[k]).0, ctx.n_obj()),
                bits_of(r[k].1, ctx.n_prop()),
            ),
        forall|k1: int, k2: int|
            0 <= k1 < r.len() && 0 <= k2 < r.len() && k1 != k2 ==> bits_of(
                (#[trigger] r[k1]).0,
                ctx.n_obj(),
            ) != bits_of((#[trigger] r[k2]).0, ctx.n_obj()),
        forall|k: int, t: int|
            0 <= k < r.len() && 0 <= t < r[k].2@.len() ==> {
                &&& #[trigger] r[k].2@[t] < r.len()
                &&& is_cover(
                    ctx,
                    bits_of(r[k].0, ctx.n_obj()),
                    bits_of(r[r[k].2@[t] as int].0, ctx.n_obj()),
                )
            },
        forall|k: int, t: int|
            0 <= k < r.len() && 0 <= t < r[k].3@.len() ==> {
                &&& #[trigger] r[k].3@[t] < r.len()
                &&& is_cover(
                    ctx,
                    bits_of(r[r[k].3@[t] as int].0, ctx.n_obj()),
                    bits_of(r[k].0, ctx.n_obj()),
                )
            },
        forall|k: int, e: Seq<bool>|
            0 <= k < r.len() && e.len() == ctx.n_obj() && closed(ctx, e) && #[trigger] is_cover(
                ctx,
                bits_of(r[k].0, ctx.n_obj()),
                e,
            ) ==> exists|t: int|
                0 <= t < r[k].2@.len() && bits_of(r[r[k].2@[t] as int].0, ctx.n_obj()) == e,
        forall|k: int, t: int|
            0 <= k < r.len() && 0 <= t < r[k].2@.len() ==> r[#[trigger] r[k].2@[t] as int].3@.contains(
                k as usize,
            ),
        forall|c: Seq<bool>|
            c.len() == ctx.n_obj() && closed(ctx, c) && #[trigger] subset(
                bits_of(r[0].0, ctx.n_obj()),
                c,
            ) ==> exists|k: int| 0 <= k < r.len() && bits_of((#[trigger] r[k]).0, ctx.n_obj()) == c,
        forall|k: int|
            0 <= k < r.len() ==> (#[trigger] r[k]).2@.no_duplicates() && r[k].3@.no_duplicates(),
        forall|k: int|
            0 <= k < r.len() ==> fits((#[trigger] r[k]).0, ctx.n_obj()) && fits(r[k].1, ctx.n_prop()),
        forall|k: int|
            0 <= k < r.len() ==> subset(
                bits_of(r[0].0, ctx.n_obj()),
                bits_of((#[trigger] r[k]).0, ctx.n_obj()),
            ),
        forall|k: int, t: int|
            0 <= k < r.len() && 0 <= t < r[k].2@.len() ==> k < #[trigger] r[k].2@[t],
        forall|k: int, t: int|
            0 <= k < r.len() && 0 <= t < r[k].3@.len() ==> #[trigger] r[k].3@[t] < k,
        bits_of(r[r.len() - 1].0, ctx.n_obj()) == Seq::new(ctx.n_obj(), |p: int| true),
{
    assert forall|i: int| 0 <= i < order.len() implies rank[#[trigger] order[i] as int] == i by {
        let k = order[i] as int;
        assert(order[rank[k] as int] == k);
    }
    assert forall|k: int, e: Seq<bool>|
        0 <= k < r.len() && e.len() == ctx.n_obj() && closed(ctx, e) && #[trigger] is_cover(
            ctx,
            bits_of(r[k].0, ctx.n_obj()),
            e,
        ) implies exists|t: int|
        0 <= t < r[k].2@.len() && bits_of(r[r[k].2@[t] as int].0, ctx.n_obj()) == e by {
        let nd = order[k] as int;
        assert(is_cover(ctx, bits_of(q[nd].0, ctx.n_obj()), e));
        let t = choose|t: int| 0 <= t < q[nd].2@.len() && bits_of(q[q[nd].2@[t] as int].0, ctx.n_obj()) == e;
        let v = q[nd].2@[t] as int;
        assert(r[k].2@[t] == rank[v]);
        assert(order[rank[v] as int] == v);
        assert(r[rank[v] as int].0 == q[v].0);
    }
    assert forall|k: int, t: int|
        0 <= k < r.len() && 0 <= t < r[k].2@.len() implies r[#[trigger] r[k].2@[t] as int].3@.contains(
            k as usize,
        ) by {
        let nd = order[k] as int;
        let v = q[nd].2@[t] as int;
        assert(r[k].2@[t] == rank[v]);
        assert(order[rank[v] as int] == v);
        assert(q[v].3@.contains(nd as usize));
        let s2 = choose|s2: int| 0 <= s2 < q[v].3@.len() && q[v].3@[s2] == nd as usize;
        assert(r[rank[v] as int].3@[s2] == rank[nd]);
        assert(rank[nd] == k);
    }
    assert forall|c: Seq<bool>|
        c.len() == ctx.n_obj() && closed(ctx, c) && #[trigger] subset(
            bits_of(r[0].0, ctx.n_obj()),
            c,
        ) implies exists|k: int| 0 <= k < r.len() && bits_of((#[trigger] r[k]).0, ctx.n_obj()) == c by {
        assert(r[0].0 == q[0].0);
        assert(subset(bits_of(q[0].0, ctx.n_obj()), c));
        let j = choose|j: int| 0 <= j < q.len() && bits_of((#[trigger] q[j]).0, ctx.n_obj()) == c;
        assert(order[rank[j] as int] == j);
        assert(r[rank[j] as int].0 == q[j].0);
    }
    assert forall|k: int, t: int|
        0 <= k < r.len() && 0 <= t < r[k].2@.len() implies k < #[trigger] r[k].2@[t] by {
        let nd = order[k] as int;
        let v = q[nd].2@[t] as int;
        assert(r[k].2@[t] == rank[v]);
        assert(order[rank[v] as int] == v);
        assert(rank[nd] == k);
        lemma_before(extents[nd], extents[v], extents[nd]);
        if rank[v] <= k {
            assert(rank[v] != k);
            assert(!before(extents[order[k] as int], extents[order[rank[v] as int] as int]));
        }
    }
    assert forall|k: int, t: int|
        0 <= k < r.len() && 0 <= t < r[k].3@.len() implies #[trigger] r[k].3@[t] < k by {
        let nd = order[k] as int;
        let u = q[nd].3@[t] as int;
        assert(r[k].3@[t] == rank[u]);
        assert(order[rank[u] as int] == u);
        assert(rank[nd] == k);
        lemma_before(extents[u], extents[nd], extents[u]);
        if rank[u] >= k {
            assert(rank[u] != k);
            assert(!before(extents[order[rank[u] as int] as int], extents[order[k] as int]));
        }
    }
    let n = ctx.n_obj();
    let all = Seq::new(n, |p: int| true);
    closure_laws(ctx, all, ctx.prime_obj(all));
    assert(closed(ctx, all)) by {
        assert(ctx.prime_prop(ctx.prime_obj(all)) =~= all);
    }
    assert(subset(bits_of(r[0].0, n), all));
    let j = choose|j: int| 0 <= j < r.len() && bits_of((#[trigger] r[j]).0, n) == all;
    let last = r.len() - 1;
    if j != last {
        let nl = order[last] as int;
        let nj = order[j] as int;
        assert(r[last].0 == q[nl].0 && r[j].0 == q[nj].0);
        assert(nl != nj);
        assert(extents[nl]@ != extents[nj]@) by {
            assert(bits_of((#[trigger] q[nl]).0, n) != bits_of((#[trigger] q[nj]).0, n));
        }
        assert(strict_subset(extents[nl]@, extents[nj]@));
        lemma_before(extents[nl], extents[nj], extents[nl]);
        assert(!before(extents[order[last] as int], extents[order[j] as int]));
    }
}

/// Lindig's algorithm from the extent `infimum`: the concepts above the
/// closure of `infimum` as `(extent, intent, upper covers, lower covers)`,
/// covers given as positions in the result. The closure of `infimum` comes
/// first; the others follow in the order in which they were found, walking
/// the concepts in shortlex order of their extents.
#[verifier::spinoff_prover]
#[verifier::rlimit(50)]
pub fn lindig_lattice(ctx: &FcaContext, infimum: &BitSet) -> (r: Vec<(u128, u128, Vec<usize>, Vec<usize>)>)
    requires
        ctx.wf(),
        ctx.n_obj() <= 128,
        ctx.n_prop() <= 128,
        infimum.wf(),
        infimum@.len() == ctx.n_obj(),
    ensures
        r@.len() >= 1,
        bits_of(r@[0].1, ctx.n_prop()) == ctx.prime_obj(infimum@),
        bits_of(r@[0].0, ctx.n_obj()) == ctx.prime_prop(ctx.prime_obj(infimum@)),
        forall|k: int|
            0 <= k < r@.len() ==> ctx.is_concept(
                bits_of((#[trigger] r@[k]).0, ctx.n_obj()),
                bits_of(r@[k].1, ctx.n_prop()),
            ),
        forall|k1: int, k2: int|
            0 <= k1 < r@.len() && 0 <= k2 < r@.len() && k1 != k2 ==> bits_of(
                (#[trigger] r@[k1]).0,
                ctx.n_obj(),
            ) != bits_of((#[trigger] r@[k2]).0, ctx.n_obj()),
        forall|k: int, t: int|
            0 <= k < r@.len() && 0 <= t < r@[k].2@.len() ==> {
                &&& #[trigger] r@[k].2@[t] < r@.len()
                &&& is_cover(
                    ctx,
                    bits_of(r@[k].0, ctx.n_obj()),
                    bits_of(r@[r@[k].2@[t] as int].0, ctx.n_obj()),
                )
            },
        forall|k: int, t: int|
            0 <= k < r@.len() && 0 <= t < r@[k].3@.len() ==> {
                &&& #[trigger] r@[k].3@[t] < r@.len()
                &&& is_cover(
                    ctx,
                    bits_of(r@[r@[k].3@[t] as int].0, ctx.n_obj()),
                    bits_of(r@[k].0, ctx.n_obj()),
                )
            },
        forall|k: int, e: Seq<bool>|
            0 <= k < r@.len() && e.len() == ctx.n_obj() && closed(ctx, e) && #[trigger] is_cover(
                ctx,
                bits_of(r@[k].0, ctx.n_obj()),
                e,
            ) ==> exists|t: int|
                0 <= t < r@[k].2@.len() && bits_of(r@[r@[k].2@[t] as int].0, ctx.n_obj()) == e,
        forall|k: int, t: int|
            0 <= k < r@.len() && 0 <= t < r@[k].2@.len() ==> r@[#[trigger] r@[k].2@[t] as int].3@.contains(
                k as usize,
            ),
        forall|c: Seq<bool>|
            c.len() == ctx.n_obj() && closed(ctx, c) && #[trigger] subset(
                bits_of(r@[0].0, ctx.n_obj()),
                c,
            ) ==> exists|k: int| 0 <= k < r@.len() && bits_of((#[trigger] r@[k]).0, ctx.n_obj()) == c,
        forall|k: int|
            0 <= k < r@.len() ==> (#[trigger] r@[k]).2@.no_duplicates() && r@[k].3@.no_duplicates(),
        forall|k: int|
            0 <= k < r@.len() ==> fits((#[trigger] r@[k]).0, ctx.n_obj()) && fits(r@[k].1, ctx.n_prop()),
        forall|k: int|
            0 <= k < r@.len() ==> subset(
                bits_of(r@[0].0, ctx.n_obj()),
                bits_of((#[trigger] r@[k]).0, ctx.n_obj()),
            ),
        forall|k: int, t: int|
            0 <= k < r@.len() && 0 <= t < r@[k].2@.len() ==> k < #[trigger] r@[k].2@[t],
        forall|k: int, t: int|
            0 <= k < r@.len() && 0 <= t < r@[k].3@.len() ==> #[trigger] r@[k].3@[t] < k,
        bits_of(r@[r@.len() - 1].0, ctx.n_obj()) == Seq::new(ctx.n_obj(), |p: int| true),
{
    let ghost n = ctx.n_obj();
    let (extent, intent) = ctx.doubleprime_objects(infimum);
    proof {
        closure_laws(ctx, infimum@, intent@);
    }
    let mut extents: Vec<BitSet> = Vec::new();
    let mut intents: Vec<BitSet> = Vec::new();
    let mut uppers: Vec<Vec<usize>> = Vec::new();
    let mut lowers: Vec<Vec<usize>> = Vec::new();
    extents.push(extent);
    intents.push(intent);
    uppers.push(Vec::new());
    lowers.push(Vec::new());
    let mut worklist: Vec<usize> = Vec::new();
    worklist.push(0);
    let ghost mut done: Set<usize> = Set::empty();
    let mut order: Vec<usize> = Vec::new();
    proof {
        assert(worklist@[0] == 0usize);
        assert(worklist@.contains(0usize));
        assert(views(extents@).len() == 1);
        assert(pow2n(n) >= 1) by {
            lemma_distinct_sets_bound(Seq::<Seq<bool>>::empty(), n);
            lemma_pow2_pos(n);
        }
    }
    while worklist.len() > 0
        invariant
            ctx.wf(),
            n == ctx.n_obj(),
            extents@.len() >= 1,
            extents@[0]@ == ctx.prime_prop(ctx.prime_obj(infimum@)),
            intents@[0]@ == ctx.prime_obj(infimum@),
            lattice_ok(ctx, extents@, intents@, uppers@, lowers@),
            above_first(extents@),
            extents@.len() <= pow2n(n),
            forall|t: int| 0 <= t < worklist@.len() ==> #[trigger] worklist@[t] < extents@.len(),
            order@.no_duplicates(),
            forall|i: int| 0 <= i < order@.len() ==> #[trigger] order@[i] < extents@.len(),
            forall|k: usize|
                #![trigger order@.contains(k)]
                #![trigger done.contains(k)]
                order@.contains(k) == done.contains(k),
            forall|i: int, j: int|
                0 <= i < j < order@.len() ==> !before(
                    extents@[#[trigger] order@[j] as int],
                    extents@[#[trigger] order@[i] as int],
                ),
            forall|t: int, i: int|
                0 <= t < worklist@.len() && 0 <= i < order@.len() ==> !before(
                    extents@[#[trigger] worklist@[t] as int],
                    extents@[#[trigger] order@[i] as int],
                ),
            order@.len() == 0 ==> worklist@ == seq![0usize],
            order@.len() > 0 ==> order@[0] == 0,
            forall|k: usize|
                k < extents@.len() ==> worklist@.contains(k) || #[trigger] done.contains(k),
            forall|k: usize|
                #[trigger] done.contains(k) ==> k < extents@.len() && upper_complete(
                    ctx,
                    extents@,
                    uppers@,
                    k as int,
                ),
            lower_linked(uppers@, lowers@),
            worklist@.no_duplicates(),
            forall|k: usize| #[trigger] done.contains(k) ==> !worklist@.contains(k),
            forall|k: usize|
                k < extents@.len() && !done.contains(k) ==> (#[trigger] uppers@[k as int])@.len() == 0,
            forall|k: int| 0 <= k < extents@.len() ==> (#[trigger] uppers@[k])@.no_duplicates(),
            forall|k: int| 0 <= k < extents@.len() ==> (#[trigger] lowers@[k])@.no_duplicates(),
            forall|v: int, s: int|
                0 <= v < extents@.len() && 0 <= s < lowers@[v]@.len() ==> done.contains(
                    #[trigger] lowers@[v]@[s],
                ),
        decreases 2 * (pow2n(n) - extents@.len()) + worklist@.len(),
    {
        let pos = min_position(&extents, &worklist);
        let ghost wl0 = worklist@;
        let current_idx = worklist.remove(pos);
        proof {
            assert(worklist@ =~= wl0.subrange(0, pos as int) + wl0.subrange(pos + 1, wl0.len() as int));
            assert(wl0[pos as int] == current_idx);
            assert forall|k: usize|
                k < extents@.len() implies k == current_idx || worklist@.contains(k)
                || #[trigger] done.contains(k) by {
                if wl0.contains(k) && k != current_idx {
                    let j = choose|j: int| 0 <= j < wl0.len() && wl0[j] == k;
                    if j < pos {
                        assert(worklist@[j] == k);
                    } else {
                        assert(j != pos);
                        assert(worklist@[j - 1] == k);
                    }
                }
            }
            assert forall|a: int, b: int|
                0 <= a < worklist@.len() && 0 <= b < worklist@.len() && a != b implies worklist@[a]
                != worklist@[b] by {
                let a0 = if a < pos { a } else { a + 1 };
                let b0 = if b < pos { b } else { b + 1 };
                assert(worklist@[a] == wl0[a0] && worklist@[b] == wl0[b0]);
            }
            assert(worklist@.no_duplicates());
            assert(!worklist@.contains(current_idx)) by {
                if worklist@.contains(current_idx) {
                    let j = choose|j: int| 0 <= j < worklist@.len() && worklist@[j] == current_idx;
                    let j0 = if j < pos { j } else { j + 1 };
                    assert(wl0[j0] == current_idx && j0 != pos);
                }
            }
            assert(wl0.contains(current_idx));
            assert(!done.contains(current_idx));
            assert forall|k: usize| #[trigger] done.contains(k) implies !worklist@.contains(k) by {
                if worklist@.contains(k) {
                    let j = choose|j: int| 0 <= j < worklist@.len() && worklist@[j] == k;
                    let j0 = if j < pos { j } else { j + 1 };
                    assert(wl0[j0] == k);
                }
            }
            assert(uppers@[current_idx as int]@.len() == 0);
            assert forall|t2: int, i: int|
                0 <= t2 < worklist@.len() && 0 <= i < order@.len() implies !before(
                    extents@[#[trigger] worklist@[t2] as int],
                    extents@[#[trigger] order@[i] as int],
                ) by {
                let t0 = if t2 < pos { t2 } else { t2 + 1 };
                assert(worklist@[t2] == wl0[t0]);
            }
            assert forall|t2: int|
                0 <= t2 < worklist@.len() implies !before(
                    extents@[#[trigger] worklist@[t2] as int],
                    extents@[current_idx as int],
                ) by {
                let t0 = if t2 < pos { t2 } else { t2 + 1 };
                assert(worklist@[t2] == wl0[t0]);
            }
            assert forall|i: int|
                0 <= i < order@.len() implies !before(
                    extents@[current_idx as int],
                    extents@[#[trigger] order@[i] as int],
                ) by {
                assert(wl0[pos as int] == current_idx);
            }
            if order@.len() == 0 {
                assert(wl0 == seq![0usize]);
            }
        }
        let nbrs = neighbors(&extents[current_idx], ctx);
        let ghost cur_ext = extents@[current_idx as int]@;
        let ghost measure = 2 * (pow2n(n) - extents@.len()) + worklist@.len();
        let mut t: usize = 0;
        while t < nbrs.len()
            invariant
                ctx.wf(),
                n == ctx.n_obj(),
                current_idx < extents@.len(),
                extents@.len() >= 1,
                extents@[0]@ == ctx.prime_prop(ctx.prime_obj(infimum@)),
                intents@[0]@ == ctx.prime_obj(infimum@),
                lattice_ok(ctx, extents@, intents@, uppers@, lowers@),
                above_first(extents@),
                extents@.len() <= pow2n(n),
                forall|t2: int| 0 <= t2 < worklist@.len() ==> #[trigger] worklist@[t2] < extents@.len(),
                order@.no_duplicates(),
                forall|i: int| 0 <= i < order@.len() ==> #[trigger] order@[i] < extents@.len(),
                forall|k: usize|
                    #![trigger order@.contains(k)]
                    #![trigger done.contains(k)]
                    order@.contains(k) == done.contains(k),
                forall|i: int, j: int|
                    0 <= i < j < order@.len() ==> !before(
                        extents@[#[trigger] order@[j] as int],
                        extents@[#[trigger] order@[i] as int],
                    ),
                forall|t2: int, i: int|
                    0 <= t2 < worklist@.len() && 0 <= i < order@.len() ==> !before(
                        extents@[#[trigger] worklist@[t2] as int],
                        extents@[#[trigger] order@[i] as int],
                    ),
                forall|t2: int|
                    0 <= t2 < worklist@.len() ==> !before(
                        extents@[#[trigger] worklist@[t2] as int],
                        extents@[current_idx as int],
                    ),
                forall|i: int|
                    0 <= i < order@.len() ==> !before(
                        extents@[current_idx as int],
                        extents@[#[trigger] order@[i] as int],
                    ),
                order@.len() == 0 ==> current_idx == 0,
                order@.len() > 0 ==> order@[0] == 0,
                2 * (pow2n(n) - extents@.len()) + worklist@.len() <= measure,
                forall|k: int|
                    0 <= k < nbrs@.len() ==> {
                        &&& (#[trigger] nbrs@[k]).0.wf()
                        &&& nbrs@[k].1.wf()
                        &&& ctx.is_concept(nbrs@[k].0@, nbrs@[k].1@)
                        &&& is_cover(ctx, extents@[current_idx as int]@, nbrs@[k].0@)
                    },
                cur_ext == extents@[current_idx as int]@,
                forall|e: Seq<bool>|
                    e.len() == ctx.n_obj() && closed(ctx, e) && #[trigger] is_cover(ctx, cur_ext, e)
                        ==> exists|k: int| 0 <= k < nbrs@.len() && (#[trigger] nbrs@[k]).0@ == e,
                forall|k: usize|
                    k < extents@.len() ==> k == current_idx || worklist@.contains(k)
                        || #[trigger] done.contains(k),
                forall|k: usize|
                    #[trigger] done.contains(k) ==> k < extents@.len() && upper_complete(
                        ctx,
                        extents@,
                        uppers@,
                        k as int,
                    ),
                lower_linked(uppers@, lowers@),
                forall|t2: int|
                    0 <= t2 < t ==> exists|t3: int|
                        0 <= t3 < uppers@[current_idx as int]@.len() && extents@[uppers@[current_idx as int]@[t3] as int]@
                            == (#[trigger] nbrs@[t2]).0@,
                worklist@.no_duplicates(),
                !worklist@.contains(current_idx),
                !done.contains(current_idx),
                forall|k: usize| #[trigger] done.contains(k) ==> !worklist@.contains(k),
                forall|k: usize|
                    k < extents@.len() && k != current_idx && !done.contains(k) ==> (#[trigger] uppers@[k as int])@.len()
                        == 0,
                forall|k: int| 0 <= k < extents@.len() ==> (#[trigger] uppers@[k])@.no_duplicates(),
                forall|k: int| 0 <= k < extents@.len() ==> (#[trigger] lowers@[k])@.no_duplicates(),
                forall|v: int, s: int|
                    0 <= v < extents@.len() && 0 <= s < lowers@[v]@.len() ==> #[trigger] lowers@[v]@[s]
                        == current_idx || done.contains(lowers@[v]@[s]),
                forall|v: int, s: int|
                    0 <= v < extents@.len() && 0 <= s < lowers@[v]@.len() && #[trigger] lowers@[v]@[s]
                        == current_idx ==> exists|t3: int|
                        0 <= t3 < t && uppers@[current_idx as int]@[t3] == v,
                uppers@[current_idx as int]@.len() == t,
                forall|t3: int|
                    0 <= t3 < t ==> extents@[#[trigger] uppers@[current_idx as int]@[t3] as int]@
                        == nbrs@[t3].0@,
                forall|k1: int, k2: int|
                    0 <= k1 < nbrs@.len() && 0 <= k2 < nbrs@.len() && k1 != k2 ==> (#[trigger] nbrs@[k1]).0@
                        != (#[trigger] nbrs@[k2]).0@,
            decreases nbrs@.len() - t,
        {
            let n_extent = &nbrs[t].0;
            let n_intent = &nbrs[t].1;
            match find_extent(&extents, n_extent) {
                Some(existing_idx) => {
                    let ghost e0 = extents@;
                    let ghost u0 = uppers@;
                    let ghost l0 = lowers@;
                    let mut up = Vec::new();
                    uppers.set_and_swap(current_idx, &mut up);
                    up.push(existing_idx);
                    uppers.set_and_swap(current_idx, &mut up);
                    let mut low = Vec::new();
                    lowers.set_and_swap(existing_idx, &mut low);
                    low.push(current_idx);
                    lowers.set_and_swap(existing_idx, &mut low);
                    proof {
                        let nb = nbrs@[t as int];
                        assert(is_cover(ctx, extents@[current_idx as int]@, nb.0@));
                        assert(extents@[existing_idx as int]@ == nb.0@);
                        assert(grows(e0, u0, l0, extents@, uppers@, lowers@));
                        assert forall|k: usize| #[trigger] done.contains(k) implies k < extents@.len()
                            && upper_complete(ctx, extents@, uppers@, k as int) by {
                            lemma_upper_complete_grows(ctx, e0, u0, l0, extents@, uppers@, lowers@, k as int);
                        }
                        assert(lower_linked(uppers@, lowers@)) by {
                        assert forall|k: int, t2: int|
                            0 <= k < uppers@.len() && 0 <= t2 < uppers@[k]@.len() implies lowers@[
                            #[trigger] uppers@[k]@[t2] as int]@.contains(k as usize) by {
                            if k == current_idx && t2 == u0[k]@.len() {
                                assert(uppers@[k]@[t2] == existing_idx);
                                let t3 = l0[existing_idx as int]@.len() as int;
                                assert(lowers@[uppers@[k]@[t2] as int]@[t3] == k as usize);
                            } else {
                                assert(t2 < u0[k]@.len());
                                lemma_lower_linked_grows(e0, u0, l0, extents@, uppers@, lowers@, k, t2);
                            }
                        }
                        }
                        assert forall|t2: int| 0 <= t2 < t + 1 implies exists|t3: int|
                            0 <= t3 < uppers@[current_idx as int]@.len() && extents@[uppers@[current_idx as int]@[t3] as int]@
                                == (#[trigger] nbrs@[t2]).0@ by {
                            if t2 == t {
                                assert(uppers@[current_idx as int]@[u0[current_idx as int]@.len() as int] == existing_idx);
                            } else {
                                let t3 = choose|t3: int|
                                    0 <= t3 < u0[current_idx as int]@.len() && e0[u0[current_idx as int]@[t3] as int]@
                                        == nbrs@[t2].0@;
                                assert(uppers@[current_idx as int]@[t3] == u0[current_idx as int]@[t3]);
                            }
                        }
                        assert(lattice_ok(ctx, extents@, intents@, uppers@, lowers@)) by {
                            assert forall|k: int, t2: int|
                                0 <= k < extents@.len() && 0 <= t2 < uppers@[k]@.len() implies {
                                    &&& #[trigger] uppers@[k]@[t2] < extents@.len()
                                    &&& is_cover(ctx, extents@[k]@, extents@[uppers@[k]@[t2] as int]@)
                                } by {}
                            assert forall|k: int, t2: int|
                                0 <= k < extents@.len() && 0 <= t2 < lowers@[k]@.len() implies {
                                    &&& #[trigger] lowers@[k]@[t2] < extents@.len()
                                    &&& is_cover(ctx, extents@[lowers@[k]@[t2] as int]@, extents@[k]@)
                                } by {}
                        }
                    }
                },
                None => {
                    let new_idx = extents.len();
                    let ghost v0 = views(extents@);
                    let ghost e0 = extents@;
                    let ghost u0 = uppers@;
                    let ghost l0 = lowers@;
                    let ghost w0 = worklist@;
                    let ghost i0 = intents@;
                    let mut up = Vec::new();
                    uppers.set_and_swap(current_idx, &mut up);
                    up.push(new_idx);
                    uppers.set_and_swap(current_idx, &mut up);
                    extents.push(n_extent.copy());
                    intents.push(n_intent.copy());
                    uppers.push(Vec::new());
                    let mut low = Vec::new();
                    low.push(current_idx);
                    lowers.push(low);
                    worklist.push(new_idx);
                    proof {
                        assert(views(extents@) =~= v0.push(nbrs@[t as int].0@));
                        assert(views(extents@).no_duplicates()) by {
                            assert forall|a: int, b: int|
                                0 <= a < views(extents@).len() && 0 <= b < views(extents@).len()
                                    && a != b implies views(extents@)[a] != views(extents@)[b] by {
                                if a < new_idx && b < new_idx {
                                    assert(v0[a] != v0[b]);
                                }
                            }
                        }
                        lemma_distinct_sets_bound(views(extents@), n);
                        let nb = nbrs@[t as int];
                        assert(nb.0.wf() && nb.1.wf() && ctx.is_concept(nb.0@, nb.1@));
                        assert(is_cover(ctx, extents@[current_idx as int]@, nb.0@));
                        assert(extents@[new_idx as int]@ == nb.0@);
                        assert(intents@[new_idx as int]@ == nb.1@);
                        assert(subset(e0[0]@, e0[current_idx as int]@));
                        assert forall|q: int| 0 <= q < n && #[trigger] extents@[0]@[q] implies nb.0@[q] by {
                            assert(e0[current_idx as int]@[q]);
                        }
                        assert forall|k: int| 0 <= k < extents@.len() implies subset(
                            extents@[0]@,
                            (#[trigger] extents@[k])@,
                        ) by {
                            if k < new_idx {
                                assert(extents@[k] == e0[k]);
                            }
                        }
                        assert(grows(e0, u0, l0, extents@, uppers@, lowers@));
                        assert forall|k: usize| #[trigger] done.contains(k) implies k < extents@.len()
                            && upper_complete(ctx, extents@, uppers@, k as int) by {
                            lemma_upper_complete_grows(ctx, e0, u0, l0, extents@, uppers@, lowers@, k as int);
                        }
                        assert(lower_linked(uppers@, lowers@)) by {
                        assert forall|k: int, t2: int|
                            0 <= k < uppers@.len() && 0 <= t2 < uppers@[k]@.len() implies lowers@[
                            #[trigger] uppers@[k]@[t2] as int]@.contains(k as usize) by {
                            if k == current_idx && t2 == u0[k]@.len() {
                                assert(uppers@[k]@[t2] == new_idx);
                                assert(lowers@[uppers@[k]@[t2] as int]@[0] == k as usize);
                            } else if k < new_idx {
                                assert(t2 < u0[k]@.len());
                                lemma_lower_linked_grows(e0, u0, l0, extents@, uppers@, lowers@, k, t2);
                            }
                        }
                        }
                        assert forall|t2: int| 0 <= t2 < t + 1 implies exists|t3: int|
                            0 <= t3 < uppers@[current_idx as int]@.len() && extents@[uppers@[current_idx as int]@[t3] as int]@
                                == (#[trigger] nbrs@[t2]).0@ by {
                            if t2 == t {
                                assert(uppers@[current_idx as int]@[u0[current_idx as int]@.len() as int] == new_idx);
                            } else {
                                let t3 = choose|t3: int|
                                    0 <= t3 < u0[current_idx as int]@.len() && e0[u0[current_idx as int]@[t3] as int]@
                                        == nbrs@[t2].0@;
                                assert(uppers@[current_idx as int]@[t3] == u0[current_idx as int]@[t3]);
                            }
                        }
                        assert forall|k: usize|
                            k < extents@.len() implies k == current_idx || worklist@.contains(k)
                            || #[trigger] done.contains(k) by {
                            if k == new_idx {
                                assert(worklist@[worklist@.len() - 1] == new_idx);
                            } else if k != current_idx && !done.contains(k) {
                                let j = choose|j: int| 0 <= j < w0.len() && w0[j] == k;
                                assert(worklist@[j] == k);
                            }
                        }
                        let cur = extents@[current_idx as int];
                        let nw = extents@[new_idx as int];
                        lemma_before(cur, nw, cur);
                        assert(before(cur, nw));
                        assert forall|i: int| 0 <= i < order@.len() implies !before(
                            nw,
                            extents@[#[trigger] order@[i] as int],
                        ) by {
                            assert(extents@[order@[i] as int] == e0[order@[i] as int]);
                            let o = extents@[order@[i] as int];
                            lemma_before(cur, nw, o);
                        }
                        assert forall|t2: int, i: int|
                            0 <= t2 < worklist@.len() && 0 <= i < order@.len() implies !before(
                                extents@[#[trigger] worklist@[t2] as int],
                                extents@[#[trigger] order@[i] as int],
                            ) by {
                            if t2 < w0.len() {
                                assert(worklist@[t2] == w0[t2]);
                                assert(extents@[w0[t2] as int] == e0[w0[t2] as int]);
                                assert(extents@[order@[i] as int] == e0[order@[i] as int]);
                            }
                        }
                        assert forall|t2: int|
                            0 <= t2 < worklist@.len() implies !before(
                                extents@[#[trigger] worklist@[t2] as int],
                                extents@[current_idx as int],
                            ) by {
                            if t2 < w0.len() {
                                assert(worklist@[t2] == w0[t2]);
                                assert(extents@[w0[t2] as int] == e0[w0[t2] as int]);
                            }
                        }
                        assert forall|k: int| 0 <= k < extents@.len() implies {
                            &&& (#[trigger] extents@[k]).wf()
                            &&& intents@[k].wf()
                            &&& ctx.is_concept(extents@[k]@, intents@[k]@)
                        } by {
                            if k < new_idx {
                                assert(lattice_ok(ctx, e0, i0, u0, l0));
                                assert(extents@[k] == e0[k] && intents@[k] == i0[k]);
                                assert(e0[k].wf());
                            }
                        }
                        assert(lattice_ok(ctx, extents@, intents@, uppers@, lowers@)) by {
                            assert forall|k: int, t2: int|
                                0 <= k < extents@.len() && 0 <= t2 < uppers@[k]@.len() implies {
                                    &&& #[trigger] uppers@[k]@[t2] < extents@.len()
                                    &&& is_cover(ctx, extents@[k]@, extents@[uppers@[k]@[t2] as int]@)
                                } by {}
                            assert forall|k: int, t2: int|
                                0 <= k < extents@.len() && 0 <= t2 < lowers@[k]@.len() implies {
                                    &&& #[trigger] lowers@[k]@[t2] < extents@.len()
                                    &&& is_cover(ctx, extents@[lowers@[k]@[t2] as int]@, extents@[k]@)
                                } by {}
                        }
                    }
                },
            }
            t += 1;
        }
        proof {
            assert forall|e: Seq<bool>|
                e.len() == ctx.n_obj() && closed(ctx, e) && #[trigger] is_cover(
                    ctx,
                    extents@[current_idx as int]@,
                    e,
                ) implies exists|t3: int|
                0 <= t3 < uppers@[current_idx as int]@.len() && extents@[uppers@[current_idx as int]@[t3] as int]@
                    == e by {
                let k = choose|k: int| 0 <= k < nbrs@.len() && (#[trigger] nbrs@[k]).0@ == e;
                assert(nbrs@[k].0@ == e);
            }
            done = done.insert(current_idx);
        }
        let ghost ord0 = order@;
        order.push(current_idx);
        proof {
            assert forall|k: usize|
                #![trigger order@.contains(k)]
                #![trigger done.contains(k)]
                order@.contains(k) == done.contains(k) by {
                if order@.contains(k) && k != current_idx {
                    let j = choose|j: int| 0 <= j < order@.len() && order@[j] == k;
                    assert(ord0[j] == k);
                }
                if ord0.contains(k) {
                    let j = choose|j: int| 0 <= j < ord0.len() && ord0[j] == k;
                    assert(order@[j] == k);
                }
                if k == current_idx {
                    assert(order@[ord0.len() as int] == k);
                }
            }
            assert(!ord0.contains(current_idx));
            assert forall|a: int, b: int| 0 <= a < order@.len() && 0 <= b < order@.len() && a != b implies order@[a] != order@[b] by {
                if a == ord0.len() && b < ord0.len() {
                    assert(ord0[b] != current_idx);
                } else if b == ord0.len() && a < ord0.len() {
                    assert(ord0[a] != current_idx);
                }
            }
            assert(order@.no_duplicates());
        }
    }
    let n_nodes = extents.len();
    proof {
        assert forall|k: int| 0 <= k < extents@.len() implies #[trigger] upper_complete(
            ctx,
            extents@,
            uppers@,
            k,
        ) by {
            assert(k < n_nodes);
            let ku = k as usize;
            assert(ku as int == k);
            assert(!worklist@.contains(ku));
            assert(done.contains(ku));
        }
    }
    let mut q: Vec<(u128, u128, Vec<usize>, Vec<usize>)> = Vec::new();
    let mut k: usize = 0;
    while k < extents.len()
        invariant
            k <= extents@.len(),
            ctx.wf(),
            ctx.n_obj() <= 128,
            ctx.n_prop() <= 128,
            lattice_ok(ctx, extents@, intents@, uppers@, lowers@),
            forall|k2: int| 0 <= k2 < extents@.len() ==> #[trigger] upper_complete(ctx, extents@, uppers@, k2),
            lower_linked(uppers@, lowers@),
            above_first(extents@),
            extents@.len() >= 1,
            forall|k2: int|
                0 <= k2 < k ==> fits((#[trigger] q@[k2]).0, ctx.n_obj()) && fits(q@[k2].1, ctx.n_prop()),
            forall|k2: int| 0 <= k2 < extents@.len() ==> (#[trigger] uppers@[k2])@.no_duplicates(),
            forall|k2: int| 0 <= k2 < extents@.len() ==> (#[trigger] lowers@[k2])@.no_duplicates(),
            q@.len() == k,
            forall|k2: int|
                0 <= k2 < k ==> {
                    &&& bits_of((#[trigger] q@[k2]).0, ctx.n_obj()) == extents@[k2]@
                    &&& bits_of(q@[k2].1, ctx.n_prop()) == intents@[k2]@
                    &&& q@[k2].2@ == uppers@[k2]@
                    &&& q@[k2].3@ == lowers@[k2]@
                },
        decreases extents@.len() - k,
    {
        let e = extents[k].to_u128();
        let i = intents[k].to_u128();
        assert(bits_of(e, ctx.n_obj()) =~= extents@[k as int]@);
        assert(bits_of(i, ctx.n_prop()) =~= intents@[k as int]@);
        assert(fits(e, ctx.n_obj())) by {
            assert forall|p: int| ctx.n_obj() <= p < 128 implies !#[trigger] raw_bit(e, p) by {
                assert(bit128(e, p as u128) == (p < extents@[k as int]@.len() && extents@[k as int]@[p]));
            }
        }
        assert(fits(i, ctx.n_prop())) by {
            assert forall|p: int| ctx.n_prop() <= p < 128 implies !#[trigger] raw_bit(i, p) by {
                assert(bit128(i, p as u128) == (p < intents@[k as int]@.len() && intents@[k as int]@[p]));
            }
        }
        let up = uppers[k].clone();
        let low = lowers[k].clone();
        assert(up@ =~= uppers@[k as int]@);
        assert(low@ =~= lowers@[k as int]@);
        q.push((e, i, up, low));
        k += 1;
    }
    proof {
        assert forall|k1: int, k2: int|
            0 <= k1 < q@.len() && 0 <= k2 < q@.len() && k1 != k2 implies bits_of(
                (#[trigger] q@[k1]).0,
                ctx.n_obj(),
            ) != bits_of((#[trigger] q@[k2]).0, ctx.n_obj()) by {
            assert(views(extents@)[k1] != views(extents@)[k2]);
        }
        assert forall|k: int, e: Seq<bool>|
            0 <= k < q@.len() && e.len() == ctx.n_obj() && closed(ctx, e) && #[trigger] is_cover(
                ctx,
                bits_of(q@[k].0, ctx.n_obj()),
                e,
            ) implies exists|t: int|
            0 <= t < q@[k].2@.len() && bits_of(q@[q@[k].2@[t] as int].0, ctx.n_obj()) == e by {
            assert(upper_complete(ctx, extents@, uppers@, k));
            assert(bits_of(q@[k].0, ctx.n_obj()) == extents@[k]@);
            let t = choose|t: int| 0 <= t < uppers@[k]@.len() && extents@[uppers@[k]@[t] as int]@ == e;
            assert(q@[k].2@[t] == uppers@[k]@[t]);
        }
        assert forall|k: int, t: int|
            0 <= k < q@.len() && 0 <= t < q@[k].2@.len() implies q@[#[trigger] q@[k].2@[t] as int].3@.contains(
                k as usize,
            ) by {
            assert(q@[k].2@[t] == uppers@[k]@[t]);
        }
        assert forall|c: Seq<bool>|
            c.len() == ctx.n_obj() && closed(ctx, c) && #[trigger] subset(
                bits_of(q@[0].0, ctx.n_obj()),
                c,
            ) implies exists|k: int| 0 <= k < q@.len() && bits_of((#[trigger] q@[k]).0, ctx.n_obj()) == c by {
            assert forall|j: int| 0 <= j < extents@.len() implies (#[trigger] extents@[j])@.len() == ctx.n_obj() by {
                assert(ctx.is_concept(extents@[j]@, intents@[j]@));
            }
            lemma_reach_closed(ctx, extents@, uppers@, 0, c);
            let j = choose|j: int| 0 <= j < extents@.len() && (#[trigger] extents@[j])@ == c;
            assert(bits_of(q@[j].0, ctx.n_obj()) == c);
        }
    }
    let mut rank: Vec<usize> = Vec::new();
    let mut k: usize = 0;
    while k < n_nodes
        invariant
            k <= n_nodes,
            rank@.len() == k,
            forall|k2: int| 0 <= k2 < k ==> rank@[k2] == 0,
        decreases n_nodes - k,
    {
        rank.push(0);
        k += 1;
    }
    let mut i: usize = 0;
    while i < order.len()
        invariant
            i <= order@.len(),
            rank@.len() == n_nodes,
            n_nodes == extents@.len(),
            order@.no_duplicates(),
            forall|i2: int| 0 <= i2 < order@.len() ==> #[trigger] order@[i2] < extents@.len(),
            forall|i2: int| 0 <= i2 < i ==> rank@[#[trigger] order@[i2] as int] == i2,
        decreases order@.len() - i,
    {
        let ghost rk0 = rank@;
        rank.set(order[i], i);
        proof {
            assert forall|i2: int| 0 <= i2 < i + 1 implies rank@[#[trigger] order@[i2] as int] == i2 by {
                if i2 < i {
                    assert(order@[i2] != order@[i as int]);
                    assert(rank@[order@[i2] as int] == rk0[order@[i2] as int]);
                }
            }
        }
        i += 1;
    }
    proof {
        assert forall|k2: int| 0 <= k2 < extents@.len() implies #[trigger] rank@[k2] < order@.len()
            && order@[rank@[k2] as int] == k2 by {
            assert(k2 < n_nodes);
            let ku = k2 as usize;
            assert(!worklist@.contains(ku));
            assert(done.contains(ku));
            assert(order@.contains(ku));
            let j = choose|j: int| 0 <= j < order@.len() && order@[j] == ku;
            assert(rank@[order@[j] as int] == j);
        }
    }
    let mut r: Vec<(u128, u128, Vec<usize>, Vec<usize>)> = Vec::new();
    let mut i: usize = 0;
    while i < order.len()
        invariant
            i <= order@.len(),
            q@.len() == extents@.len(),
            rank@.len() == extents@.len(),
            forall|i2: int| 0 <= i2 < order@.len() ==> #[trigger] order@[i2] < extents@.len(),
            forall|k2: int|
                0 <= k2 < extents@.len() ==> forall|t: int|
                    0 <= t < (#[trigger] q@[k2]).2@.len() ==> q@[k2].2@[t] < extents@.len(),
            forall|k2: int|
                0 <= k2 < extents@.len() ==> forall|t: int|
                    0 <= t < (#[trigger] q@[k2]).3@.len() ==> q@[k2].3@[t] < extents@.len(),
            r@.len() == i,
            forall|i2: int|
                0 <= i2 < i ==> {
                    &&& (#[trigger] r@[i2]).0 == q@[order@[i2] as int].0
                    &&& r@[i2].1 == q@[order@[i2] as int].1
                    &&& r@[i2].2@ == remapped(q@[order@[i2] as int].2@, rank@)
                    &&& r@[i2].3@ == remapped(q@[order@[i2] as int].3@, rank@)
                },
        decreases order@.len() - i,
    {
        let node = order[i];
        let up = remap(&q[node].2, &rank);
        let low = remap(&q[node].3, &rank);
        r.push((q[node].0, q[node].1, up, low));
        i += 1;
    }
    proof {
        lemma_final(ctx, infimum@, extents@, intents@, q@, order@, rank@, r@);
    }
    r
}

/// Powers of two are positive.
pub proof fn lemma_pow2_pos(n: nat)
    ensures
        pow2n(n) >= 1,
    decreases n,
{
    if n > 0 {
        lemma_pow2_pos((n - 1) as nat);
    }
}

} // verus!
