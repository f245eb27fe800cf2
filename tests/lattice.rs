use concepts::bitset::BitSet;
use concepts::context::FcaContext;
use concepts::fcbo::{fcbo_dual, fcbo_fast_generate_from};
use concepts::lindig::{lindig_lattice, neighbors};

type Lattice = Vec<(u128, u128, Vec<usize>, Vec<usize>)>;

fn context(n_objects: usize, n_properties: usize, extents: &[u128], intents: &[u128]) -> FcaContext {
    assert!(FcaContext::consistent(n_objects, n_properties, &extents.to_vec(), &intents.to_vec()));
    FcaContext::new(n_objects, n_properties, extents.to_vec(), intents.to_vec())
}

fn run_lindig(ctx: &FcaContext) -> Lattice {
    lindig_lattice(ctx, &BitSet::from_u128(0, ctx.n_objects()))
}

fn sorted_pairs(mut v: Vec<(u128, u128)>) -> Vec<(u128, u128)> {
    v.sort();
    v
}

fn lindig_pairs(l: &Lattice) -> Vec<(u128, u128)> {
    sorted_pairs(l.iter().map(|c| (c.0, c.1)).collect())
}

fn index_of(l: &Lattice, extent: u128) -> usize {
    l.iter().position(|c| c.0 == extent).unwrap()
}

/// All concepts by closing every subset of objects.
fn brute_force(n_objects: usize, n_properties: usize, intents: &[u128]) -> Vec<(u128, u128)> {
    let all_props: u128 = if n_properties == 0 { 0 } else { (1u128 << n_properties) - 1 };
    let mut out: Vec<(u128, u128)> = Vec::new();
    for a in 0u128..(1u128 << n_objects) {
        let mut intent = all_props;
        for i in 0..n_objects {
            if (a >> i) & 1 == 1 {
                intent &= intents[i];
            }
        }
        let mut extent: u128 = 0;
        for i in 0..n_objects {
            if intents[i] & intent == intent {
                extent |= 1u128 << i;
            }
        }
        if !out.contains(&(extent, intent)) {
            out.push((extent, intent));
        }
    }
    out.sort();
    out
}

fn strict_sub(a: u128, b: u128) -> bool {
    a & b == a && a != b
}

#[test]
fn empty_context() {
    let ctx = context(0, 0, &[], &[]);
    let l = run_lindig(&ctx);
    assert_eq!(l, vec![(0, 0, vec![], vec![])]);
    assert_eq!(fcbo_fast_generate_from(&ctx), vec![(0, 0)]);
    assert_eq!(fcbo_dual(&ctx), vec![(0, 0)]);
}

#[test]
fn single_object_without_properties() {
    let ctx = context(1, 1, &[0b0], &[0b0]);
    let l = run_lindig(&ctx);
    assert_eq!(l, vec![(0b0, 0b1, vec![1], vec![]), (0b1, 0b0, vec![], vec![0])]);
    let expected = vec![(0b0, 0b1), (0b1, 0b0)];
    assert_eq!(sorted_pairs(fcbo_fast_generate_from(&ctx)), expected);
    assert_eq!(sorted_pairs(fcbo_dual(&ctx)), expected);
}

#[test]
fn identity_two_by_two() {
    let ctx = context(2, 2, &[0b01, 0b10], &[0b01, 0b10]);
    let l = run_lindig(&ctx);
    let expected = vec![(0b00, 0b11), (0b01, 0b01), (0b10, 0b10), (0b11, 0b00)];
    assert_eq!(lindig_pairs(&l), expected);
    assert_eq!(sorted_pairs(fcbo_fast_generate_from(&ctx)), expected);
    assert_eq!(sorted_pairs(fcbo_dual(&ctx)), expected);
    assert_eq!(l[0].0, 0b00);
    assert_eq!(l[3].0, 0b11);
    let top = index_of(&l, 0b11);
    let bottom = index_of(&l, 0b00);
    let m0 = index_of(&l, 0b01);
    let m1 = index_of(&l, 0b10);
    let mut top_lower = l[top].3.clone();
    top_lower.sort();
    assert_eq!(top_lower, vec![m0.min(m1), m0.max(m1)]);
    let mut bottom_upper = l[bottom].2.clone();
    bottom_upper.sort();
    assert_eq!(bottom_upper, vec![m0.min(m1), m0.max(m1)]);
    assert_eq!(l[m0].2, vec![top]);
    assert_eq!(l[m0].3, vec![bottom]);
    assert_eq!(l[m1].2, vec![top]);
    assert_eq!(l[m1].3, vec![bottom]);
}

#[test]
fn full_two_by_two() {
    let ctx = context(2, 2, &[0b11, 0b11], &[0b11, 0b11]);
    let l = run_lindig(&ctx);
    assert_eq!(l, vec![(0b11, 0b11, vec![], vec![])]);
    assert_eq!(fcbo_fast_generate_from(&ctx), vec![(0b11, 0b11)]);
    assert_eq!(fcbo_dual(&ctx), vec![(0b11, 0b11)]);
}

#[test]
fn chain_of_three() {
    // object i has the properties 0..=i
    let ctx = context(3, 3, &[0b111, 0b110, 0b100], &[0b001, 0b011, 0b111]);
    let l = run_lindig(&ctx);
    assert_eq!(
        l,
        vec![
            (0b100, 0b111, vec![1], vec![]),
            (0b110, 0b011, vec![2], vec![0]),
            (0b111, 0b001, vec![], vec![1]),
        ]
    );
    let expected = vec![(0b100, 0b111), (0b110, 0b011), (0b111, 0b001)];
    assert_eq!(sorted_pairs(fcbo_fast_generate_from(&ctx)), expected);
    assert_eq!(sorted_pairs(fcbo_dual(&ctx)), expected);
}

#[test]
fn neighbors_of_bottom() {
    let ctx = context(2, 2, &[0b01, 0b10], &[0b01, 0b10]);
    let n = neighbors(&BitSet::new(2), &ctx);
    let got: Vec<(u128, u128)> = n.iter().map(|(e, i)| (e.to_u128(), i.to_u128())).collect();
    assert_eq!(got, vec![(0b01, 0b01), (0b10, 0b10)]);
}

#[test]
fn lindig_from_nonempty_infimum() {
    let ctx = context(2, 2, &[0b01, 0b10], &[0b01, 0b10]);
    let l = lindig_lattice(&ctx, &BitSet::from_u128(0b01, 2));
    assert_eq!(l, vec![(0b01, 0b01, vec![1], vec![]), (0b11, 0b00, vec![], vec![0])]);
}

#[test]
fn prime_operators() {
    let ctx = context(3, 3, &[0b111, 0b110, 0b100], &[0b001, 0b011, 0b111]);
    let objs = BitSet::from_u128(0b011, 3);
    assert_eq!(ctx.prime_objects(&objs).to_u128(), 0b001);
    assert_eq!(ctx.prime_objects(&BitSet::new(3)).to_u128(), 0b111);
    let props = BitSet::from_u128(0b010, 3);
    assert_eq!(ctx.prime_properties(&props).to_u128(), 0b110);
    assert_eq!(ctx.prime_properties(&BitSet::new(3)).to_u128(), 0b111);
    let (e, i) = ctx.doubleprime_objects(&BitSet::from_u128(0b010, 3));
    assert_eq!((e.to_u128(), i.to_u128()), (0b110, 0b011));
    let (e, i) = ctx.doubleprime_properties(&BitSet::from_u128(0b100, 3));
    assert_eq!((e.to_u128(), i.to_u128()), (0b100, 0b111));
}

#[test]
fn closure_laws_on_values() {
    let ctx = context(3, 3, &[0b011, 0b110, 0b100], &[0b001, 0b011, 0b110]);
    for a in 0u128..8 {
        let set = BitSet::from_u128(a, 3);
        let (e, i) = ctx.doubleprime_objects(&set);
        assert_eq!(e.to_u128() & a, a);
        let (e2, i2) = ctx.doubleprime_objects(&e);
        assert!(e2.equals(&e));
        assert!(i2.equals(&i));
        let (pe, pi) = ctx.doubleprime_properties(&BitSet::from_u128(a, 3));
        assert_eq!(pi.to_u128() & a, a);
        let (pe2, pi2) = ctx.doubleprime_properties(&pi);
        assert!(pe2.equals(&pe));
        assert!(pi2.equals(&pi));
    }
}

#[test]
fn inconsistent_incidence_is_detected() {
    assert!(!FcaContext::consistent(2, 2, &vec![0b01, 0b10], &vec![0b01, 0b01]));
    assert!(!FcaContext::consistent(2, 2, &vec![0b01], &vec![0b01, 0b10]));
    assert!(FcaContext::consistent(2, 1, &vec![0b10], &vec![0b0, 0b1]));
}

#[test]
fn random_agreement() {
    let mut seed: u64 = 0x2545_f491_4f6c_dd1d;
    let mut next = move || {
        seed = seed.wrapping_mul(6364136223846793005).wrapping_add(1442695040888963407);
        (seed >> 33) as u32
    };
    for _ in 0..20 {
        let n_objects = (next() % 9) as usize;
        let n_properties = (next() % 9) as usize;
        let mut intents: Vec<u128> = Vec::new();
        for _ in 0..n_objects {
            let mut row: u128 = 0;
            for j in 0..n_properties {
                if next() % 2 == 0 {
                    row |= 1u128 << j;
                }
            }
            intents.push(row);
        }
        let mut extents: Vec<u128> = vec![0; n_properties];
        for (i, row) in intents.iter().enumerate() {
            for (j, col) in extents.iter_mut().enumerate() {
                if (row >> j) & 1 == 1 {
                    *col |= 1u128 << i;
                }
            }
        }
        let ctx = context(n_objects, n_properties, &extents, &intents);
        let expected = brute_force(n_objects, n_properties, &intents);
        let l = run_lindig(&ctx);
        let f = fcbo_fast_generate_from(&ctx);
        let d = fcbo_dual(&ctx);
        assert_eq!(f.len(), expected.len());
        assert_eq!(d.len(), expected.len());
        assert_eq!(l.len(), expected.len());
        assert_eq!(lindig_pairs(&l), expected);
        assert_eq!(sorted_pairs(f), expected);
        assert_eq!(sorted_pairs(d), expected);
        // bottom first
        assert_eq!(l[0].0, expected.iter().map(|c| c.0).min_by_key(|e| e.count_ones()).unwrap());
        for u in 0..l.len() {
            for &v in l[u].2.iter() {
                assert!(l[u].0.count_ones() < l[v].0.count_ones());
                assert!(u < v);
            }
            for &w in l[u].3.iter() {
                assert!(w < u);
            }
        }
        let all_objects: u128 = if n_objects == 0 { 0 } else { (1u128 << n_objects) - 1 };
        assert_eq!(l[l.len() - 1].0, all_objects);
        // covers against the pairwise check
        for u in 0..l.len() {
            for v in 0..l.len() {
                let covers = strict_sub(l[u].0, l[v].0)
                    && !l.iter().any(|w| strict_sub(l[u].0, w.0) && strict_sub(w.0, l[v].0));
                let up = l[u].2.iter().filter(|&&x| x == v).count();
                let low = l[v].3.iter().filter(|&&x| x == u).count();
                assert_eq!(up, if covers { 1 } else { 0 });
                assert_eq!(low, if covers { 1 } else { 0 });
            }
        }
    }
}

#[test]
fn lindig_numbers_in_processing_order() {
    let ctx = context(4, 3, &[0b0001, 0b0110, 0b1110], &[0b001, 0b110, 0b110, 0b100]);
    let l = run_lindig(&ctx);
    let expected = vec![(0b0000, 0b111), (0b0001, 0b001), (0b0110, 0b110), (0b1110, 0b100), (0b1111, 0b000)];
    assert_eq!(lindig_pairs(&l), expected);
    assert_eq!(l[0].0, 0b0000);
    assert_eq!(l[4].0, 0b1111);
    for u in 0..l.len() {
        for &v in l[u].2.iter() {
            assert!(u < v);
            assert!(l[v].3.contains(&u));
        }
    }
    assert_eq!(sorted_pairs(fcbo_fast_generate_from(&ctx)), expected);
    assert_eq!(sorted_pairs(fcbo_dual(&ctx)), expected);
}
