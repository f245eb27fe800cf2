//! A formal context: the incidence between objects and properties, kept both
//! by property (extents) and by object (intents), with the derivation
//! operators.
use vstd::prelude::*;
use crate::bitset::{BitSet, bit128};

verus! {

/// `a` is contained in `b`, both of the same width.
pub open spec fn subset(a: Seq<bool>, b: Seq<bool>) -> bool {
    a.len() == b.len() && forall|i: int| 0 <= i < a.len() && #[trigger] a[i] ==> b[i]
}

/// Bit `p` of `v`, as a set of width `n`: positions from 128 on are unset.
pub open spec fn raw_bit(v: u128, p: int) -> bool {
    0 <= p < 128 && bit128(v, p as u128)
}

/// Raw incidence data in which object `i` has property `j` in the column of
/// `j` exactly when it does in the row of `i`.
pub open spec fn raw_consistent(
    n_objects: nat,
    n_properties: nat,
    extents: Seq<u128>,
    intents: Seq<u128>,
) -> bool {
    &&& extents.len() == n_properties
    &&& intents.len() == n_objects
    &&& forall|i: int, j: int|
        0 <= i < n_objects && 0 <= j < n_properties ==> raw_bit(extents[j], i) == #[trigger] raw_bit(
            intents[i],
            j,
        )
}

/// The set of width `n` read from the bits of `v`.
pub open spec fn bits_of(v: u128, n: nat) -> Seq<bool> {
    Seq::new(n, |p: int| raw_bit(v, p))
}

/// `v` holds no bit at or beyond the width `n`.
pub open spec fn fits(v: u128, n: nat) -> bool {
    forall|p: int| n <= p < 128 ==> !#[trigger] raw_bit(v, p)
}

/// `a` is contained in `b` and differs from it.
pub open spec fn strict_subset(a: Seq<bool>, b: Seq<bool>) -> bool {
    subset(a, b) && a != b
}

/// A formal context.
pub struct FcaContext {
    n_objects: usize,
    n_properties: usize,
    extents: Vec<BitSet>,
    intents: Vec<BitSet>,
}

impl FcaContext {
    /// Number of objects.
    pub closed spec fn n_obj(&self) -> nat {
        self.n_objects as nat
    }

    /// Number of properties.
    pub closed spec fn n_prop(&self) -> nat {
        self.n_properties as nat
    }

    /// Object `i` has property `j`.
    pub closed spec fn incident(&self, i: int, j: int) -> bool {
        self.intents@[i]@[j]
    }

    /// Both representations are well formed and agree.
    pub closed spec fn wf(&self) -> bool {
        &&& self.extents@.len() == self.n_properties
        &&& self.intents@.len() == self.n_objects
        &&& forall|j: int|
            0 <= j < self.n_properties ==> (#[trigger] self.extents@[j]).wf()
                && self.extents@[j]@.len() == self.n_objects
        &&& forall|i: int|
            0 <= i < self.n_objects ==> (#[trigger] self.intents@[i]).wf()
                && self.intents@[i]@.len() == self.n_properties
        &&& forall|i: int, j: int|
            0 <= i < self.n_objects && 0 <= j < self.n_properties ==> (
            #[trigger] self.extents@[j]@[i]) == self.intents@[i]@[j]
    }

    /// The properties shared by every object of `a`.
    pub open spec fn prime_obj(&self, a: Seq<bool>) -> Seq<bool> {
        Seq::new(
            self.n_prop(),
            |j: int| forall|i: int| 0 <= i < self.n_obj() && #[trigger] a[i] ==> self.incident(i, j),
        )
    }

    /// The objects having every property of `b`.
    pub open spec fn prime_prop(&self, b: Seq<bool>) -> Seq<bool> {
        Seq::new(
            self.n_obj(),
            |i: int|
                forall|j: int| 0 <= j < self.n_prop() && #[trigger] b[j] ==> self.incident(i, j),
        )
    }

    /// `(a, b)` is a formal concept: each is the derivation of the other.
    pub open spec fn is_concept(&self, a: Seq<bool>, b: Seq<bool>) -> bool {
        &&& a.len() == self.n_obj()
        &&& b.len() == self.n_prop()
        &&& self.prime_obj(a) == b
        &&& self.prime_prop(b) == a
    }

    /// Number of objects.
    pub fn n_objects(&self) -> (r: usize)
        ensures
            r == self.n_obj(),
    {
        self.n_objects
    }

    /// Number of properties.
    pub fn n_properties(&self) -> (r: usize)
        ensures
            r == self.n_prop(),
    {
        self.n_properties
    }

    /// The objects that have property `j`.
    pub fn extent_of(&self, j: usize) -> (r: &BitSet)
        requires
            self.wf(),
            j < self.n_prop(),
        ensures
            r.wf(),
            r@.len() == self.n_obj(),
            forall|i: int| 0 <= i < self.n_obj() ==> r@[i] == self.incident(i, j as int),
    {
        &self.extents[j]
    }

    /// The properties of object `i`.
    pub fn intent_of(&self, i: usize) -> (r: &BitSet)
        requires
            self.wf(),
            i < self.n_obj(),
        ensures
            r.wf(),
            r@.len() == self.n_prop(),
            forall|j: int| 0 <= j < self.n_prop() ==> r@[j] == self.incident(i as int, j),
    {
        &self.intents[i]
    }

    /// Whether the raw data is of the right lengths and consistent.
    pub fn consistent(
        n_objects: usize,
        n_properties: usize,
        extents_raw: &Vec<u128>,
        intents_raw: &Vec<u128>,
    ) -> (r: bool)
        ensures
            r == raw_consistent(n_objects as nat, n_properties as nat, extents_raw@, intents_raw@),
    {
        if extents_raw.len() != n_properties || intents_raw.len() != n_objects {
            return false;
        }
        let mut i: usize = 0;
        while i < n_objects
            invariant
                i <= n_objects,
                extents_raw@.len() == n_properties,
                intents_raw@.len() == n_objects,
                forall|i2: int, j: int|
                    0 <= i2 < i && 0 <= j < n_properties ==> raw_bit(extents_raw@[j], i2)
                        == #[trigger] raw_bit(intents_raw@[i2], j),
            decreases n_objects - i,
        {
            let mut j: usize = 0;
            while j < n_properties
                invariant
                    i < n_objects,
                    j <= n_properties,
                    extents_raw@.len() == n_properties,
                    intents_raw@.len() == n_objects,
                    forall|i2: int, j2: int|
                        0 <= i2 < i && 0 <= j2 < n_properties ==> raw_bit(extents_raw@[j2], i2)
                            == #[trigger] raw_bit(intents_raw@[i2], j2),
                    forall|j2: int|
                        0 <= j2 < j ==> raw_bit(extents_raw@[j2], i as int) == raw_bit(
                            intents_raw@[i as int],
                            j2,
                        ),
                decreases n_properties - j,
            {
                let in_extent = i < 128 && (extents_raw[j] >> i as u128) & 1 == 1;
                let in_intent = j < 128 && (intents_raw[i] >> j as u128) & 1 == 1;
                assert(in_extent == raw_bit(extents_raw@[j as int], i as int));
                assert(in_intent == raw_bit(intents_raw@[i as int], j as int));
                if in_extent != in_intent {
                    return false;
                }
                j += 1;
            }
            i += 1;
        }
        true
    }

    /// The context of `n_objects` objects and `n_properties` properties in
    /// which object `i` has property `j` when bit `j` of `intents_raw[i]` is
    /// set (equivalently, bit `i` of `extents_raw[j]`).
    pub fn new(
        n_objects: usize,
        n_properties: usize,
        extents_raw: Vec<u128>,
        intents_raw: Vec<u128>,
    ) -> (r: FcaContext)
        requires
            raw_consistent(n_objects as nat, n_properties as nat, extents_raw@, intents_raw@),
        ensures
            r.wf(),
            r.n_obj() == n_objects,
            r.n_prop() == n_properties,
            forall|i: int, j: int|
                0 <= i < n_objects && 0 <= j < n_properties ==> #[trigger] r.incident(i, j)
                    == raw_bit(intents_raw@[i], j),
    {
        let mut extents: Vec<BitSet> = Vec::new();
        let mut j: usize = 0;
        while j < n_properties
            invariant
                j <= n_properties,
                extents_raw@.len() == n_properties,
                extents@.len() == j,
                forall|j2: int|
                    0 <= j2 < j ==> (#[trigger] extents@[j2]).wf() && extents@[j2]@ == Seq::new(
                        n_objects as nat,
                        |p: int| raw_bit(extents_raw@[j2], p),
                    ),
            decreases n_properties - j,
        {
            let e = BitSet::from_u128(extents_raw[j], n_objects);
            assert(e@ =~= Seq::new(n_objects as nat, |p: int| raw_bit(extents_raw@[j as int], p)));
            extents.push(e);
            j += 1;
        }
        let mut intents: Vec<BitSet> = Vec::new();
        let mut i: usize = 0;
        while i < n_objects
            invariant
                i <= n_objects,
                intents_raw@.len() == n_objects,
                intents@.len() == i,
                forall|i2: int|
                    0 <= i2 < i ==> (#[trigger] intents@[i2]).wf() && intents@[i2]@ == Seq::new(
                        n_properties as nat,
                        |p: int| raw_bit(intents_raw@[i2], p),
                    ),
            decreases n_objects - i,
        {
            let t = BitSet::from_u128(intents_raw[i], n_properties);
            assert(t@ =~= Seq::new(n_properties as nat, |p: int| raw_bit(intents_raw@[i as int], p)));
            intents.push(t);
            i += 1;
        }
        let r = FcaContext { n_objects, n_properties, extents, intents };
        assert forall|i: int, j: int|
            0 <= i < n_objects && 0 <= j < n_properties implies (
            #[trigger] r.extents@[j]@[i]) == r.intents@[i]@[j] by {
            assert(raw_bit(extents_raw@[j], i) == raw_bit(intents_raw@[i], j));
        }
        r
    }

    /// The derivation of a set of objects: the properties they all share
    /// (every property for the empty set).
    pub fn prime_objects(&self, objects: &BitSet) -> (r: BitSet)
        requires
            self.wf(),
            objects.wf(),
            objects@.len() == self.n_obj(),
        ensures
            r.wf(),
            r@ == self.prime_obj(objects@),
    {
        let mut result = BitSet::supremum(self.n_properties);
        let mut i: usize = 0;
        while i < self.n_objects
            invariant
                i <= self.n_objects,
                self.wf(),
                objects.wf(),
                objects@.len() == self.n_obj(),
                result.wf(),
                result@.len() == self.n_prop(),
                forall|j: int|
                    0 <= j < self.n_prop() ==> #[trigger] result@[j] == (forall|i2: int|
                        0 <= i2 < i && #[trigger] objects@[i2] ==> self.incident(i2, j)),
            decreases self.n_objects - i,
        {
            if objects.get(i) {
                let ghost prev = result@;
                result = result.and(&self.intents[i]);
                assert forall|j: int| 0 <= j < self.n_prop() implies #[trigger] result@[j] == (
                forall|i2: int| 0 <= i2 < i + 1 && #[trigger] objects@[i2] ==> self.incident(i2, j)) by {
                    assert(prev[j] == (forall|i2: int|
                        0 <= i2 < i && #[trigger] objects@[i2] ==> self.incident(i2, j)));
                }
            } else {
                assert forall|j: int| 0 <= j < self.n_prop() implies #[trigger] result@[j] == (
                forall|i2: int| 0 <= i2 < i + 1 && #[trigger] objects@[i2] ==> self.incident(i2, j)) by {
                }
            }
            i += 1;
        }
        assert(result@ =~= self.prime_obj(objects@));
        result
    }

    /// The derivation of a set of properties: the objects having them all
    /// (every object for the empty set).
    pub fn prime_properties(&self, properties: &BitSet) -> (r: BitSet)
        requires
            self.wf(),
            properties.wf(),
            properties@.len() == self.n_prop(),
        ensures
            r.wf(),
            r@ == self.prime_prop(properties@),
    {
        let mut result = BitSet::supremum(self.n_objects);
        let mut j: usize = 0;
        while j < self.n_properties
            invariant
                j <= self.n_properties,
                self.wf(),
                properties.wf(),
                properties@.len() == self.n_prop(),
                result.wf(),
                result@.len() == self.n_obj(),
                forall|i: int|
                    0 <= i < self.n_obj() ==> #[trigger] result@[i] == (forall|j2: int|
                        0 <= j2 < j && #[trigger] properties@[j2] ==> self.incident(i, j2)),
            decreases self.n_properties - j,
        {
            if properties.get(j) {
                let ghost prev = result@;
                result = result.and(&self.extents[j]);
                assert forall|i: int| 0 <= i < self.n_obj() implies #[trigger] result@[i] == (
                forall|j2: int| 0 <= j2 < j + 1 && #[trigger] properties@[j2] ==> self.incident(i, j2)) by {
                    assert(prev[i] == (forall|j2: int|
                        0 <= j2 < j && #[trigger] properties@[j2] ==> self.incident(i, j2)));
                    assert(self.extents@[j as int]@[i] == self.intents@[i]@[j as int]);
                }
            } else {
                assert forall|i: int| 0 <= i < self.n_obj() implies #[trigger] result@[i] == (
                forall|j2: int| 0 <= j2 < j + 1 && #[trigger] properties@[j2] ==> self.incident(i, j2)) by {
                }
            }
            j += 1;
        }
        assert(result@ =~= self.prime_prop(properties@));
        result
    }

    /// The closure of a set of objects, as `(extent, intent)`.
    pub fn doubleprime_objects(&self, objects: &BitSet) -> (r: (BitSet, BitSet))
        requires
            self.wf(),
            objects.wf(),
            objects@.len() == self.n_obj(),
        ensures
            r.0.wf(),
            r.1.wf(),
            r.1@ == self.prime_obj(objects@),
            r.0@ == self.prime_prop(r.1@),
    {
        let intent = self.prime_objects(objects);
        let extent = self.prime_properties(&intent);
        (extent, intent)
    }

    /// The closure of a set of properties, as `(extent, intent)`.
    pub fn doubleprime_properties(&self, properties: &BitSet) -> (r: (BitSet, BitSet))
        requires
            self.wf(),
            properties.wf(),
            properties@.len() == self.n_prop(),
        ensures
            r.0.wf(),
            r.1.wf(),
            r.0@ == self.prime_prop(properties@),
            r.1@ == self.prime_obj(r.0@),
    {
        let extent = self.prime_properties(properties);
        let intent = self.prime_objects(&extent);
        (extent, intent)
    }
}


/// Galois connection: `a` lies within the objects of `b` exactly when `b`
/// lies within the properties of `a`.
pub proof fn galois_connection(ctx: &FcaContext, a: Seq<bool>, b: Seq<bool>)
    requires
        a.len() == ctx.n_obj(),
        b.len() == ctx.n_prop(),
    ensures
        subset(a, ctx.prime_prop(b)) == subset(b, ctx.prime_obj(a)),
{
    if subset(a, ctx.prime_prop(b)) {
        assert forall|j: int| 0 <= j < b.len() && #[trigger] b[j] implies ctx.prime_obj(a)[j] by {
            assert forall|i: int| 0 <= i < ctx.n_obj() && #[trigger] a[i] implies ctx.incident(
                i,
                j,
            ) by {
                assert(ctx.prime_prop(b)[i]);
            }
        }
    }
    if subset(b, ctx.prime_obj(a)) {
        assert forall|i: int| 0 <= i < a.len() && #[trigger] a[i] implies ctx.prime_prop(b)[i] by {
            assert forall|j: int| 0 <= j < ctx.n_prop() && #[trigger] b[j] implies ctx.incident(
                i,
                j,
            ) by {
                assert(ctx.prime_obj(a)[j]);
            }
        }
    }
}

/// Derivation reverses inclusion, on either side.
pub proof fn prime_antitone(
    ctx: &FcaContext,
    a1: Seq<bool>,
    a2: Seq<bool>,
    b1: Seq<bool>,
    b2: Seq<bool>,
)
    requires
        subset(a1, a2),
        a1.len() == ctx.n_obj(),
        subset(b1, b2),
        b1.len() == ctx.n_prop(),
    ensures
        subset(ctx.prime_obj(a2), ctx.prime_obj(a1)),
        subset(ctx.prime_prop(b2), ctx.prime_prop(b1)),
{
    assert forall|j: int|
        0 <= j < ctx.n_prop() && #[trigger] ctx.prime_obj(a2)[j] implies ctx.prime_obj(a1)[j] by {
        assert forall|i: int| 0 <= i < ctx.n_obj() && #[trigger] a1[i] implies ctx.incident(i, j) by {
            assert(a2[i]);
        }
    }
    assert forall|i: int|
        0 <= i < ctx.n_obj() && #[trigger] ctx.prime_prop(b2)[i] implies ctx.prime_prop(b1)[i] by {
        assert forall|j: int| 0 <= j < ctx.n_prop() && #[trigger] b1[j] implies ctx.incident(i, j) by {
            assert(b2[j]);
        }
    }
}

/// The closure laws of the double derivation, for a set of objects `a` and a
/// set of properties `b`: each closure contains its argument, closing twice
/// is closing once, and the derivation of a closure is the derivation of its
/// argument.
pub proof fn closure_laws(ctx: &FcaContext, a: Seq<bool>, b: Seq<bool>)
    requires
        a.len() == ctx.n_obj(),
        b.len() == ctx.n_prop(),
    ensures
        subset(a, ctx.prime_prop(ctx.prime_obj(a))),
        subset(b, ctx.prime_obj(ctx.prime_prop(b))),
        ctx.prime_obj(ctx.prime_prop(ctx.prime_obj(a))) == ctx.prime_obj(a),
        ctx.prime_prop(ctx.prime_obj(ctx.prime_prop(b))) == ctx.prime_prop(b),
        ctx.prime_prop(ctx.prime_obj(ctx.prime_prop(ctx.prime_obj(a)))) == ctx.prime_prop(
            ctx.prime_obj(a),
        ),
        ctx.prime_obj(ctx.prime_prop(ctx.prime_obj(ctx.prime_prop(b)))) == ctx.prime_obj(
            ctx.prime_prop(b),
        ),
{
    let a1 = ctx.prime_obj(a);
    let b1 = ctx.prime_prop(b);
    galois_connection(ctx, a, a1);
    assert(subset(a1, a1));
    galois_connection(ctx, b1, b);
    assert(subset(b1, b1));
    let a2 = ctx.prime_prop(a1);
    galois_connection(ctx, a2, a1);
    assert(subset(a2, a2));
    prime_antitone(ctx, a, a2, b, b);
    assert(ctx.prime_obj(a2) =~= a1);
    let b2 = ctx.prime_obj(b1);
    galois_connection(ctx, b1, b2);
    assert(subset(b2, b2));
    prime_antitone(ctx, a, a, b, b2);
    assert(ctx.prime_prop(b2) =~= b1);
}

/// The closures are monotone.
pub proof fn closure_monotone(
    ctx: &FcaContext,
    a1: Seq<bool>,
    a2: Seq<bool>,
    b1: Seq<bool>,
    b2: Seq<bool>,
)
    requires
        subset(a1, a2),
        a1.len() == ctx.n_obj(),
        subset(b1, b2),
        b1.len() == ctx.n_prop(),
    ensures
        subset(ctx.prime_prop(ctx.prime_obj(a1)), ctx.prime_prop(ctx.prime_obj(a2))),
        subset(ctx.prime_obj(ctx.prime_prop(b1)), ctx.prime_obj(ctx.prime_prop(b2))),
{
    prime_antitone(ctx, a1, a2, b1, b2);
    prime_antitone(ctx, ctx.prime_prop(b2), ctx.prime_prop(b1), ctx.prime_obj(a2), ctx.prime_obj(a1));
}

} // verus!
