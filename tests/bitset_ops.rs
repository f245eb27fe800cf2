use concepts::bitset::BitSet;

fn bits(b: &BitSet) -> Vec<usize> {
    b.iter_bits()
}

#[test]
fn new_is_empty() {
    let b = BitSet::new(70);
    assert!(b.is_empty());
    assert_eq!(b.count(), 0);
    assert_eq!(b.to_u128(), 0);
}

#[test]
fn supremum_sets_exactly_width() {
    let b = BitSet::supremum(70);
    assert_eq!(b.count(), 70);
    assert!(b.get(69));
    assert!(!b.get(70));
    assert_eq!(BitSet::supremum(3).to_u128(), 0b111);
    assert_eq!(BitSet::supremum(0).count(), 0);
}

#[test]
fn set_and_get() {
    let mut b = BitSet::new(130);
    b.set(0);
    b.set(64);
    b.set(129);
    b.set(200);
    assert!(b.get(0) && b.get(64) && b.get(129));
    assert!(!b.get(1) && !b.get(200));
    assert_eq!(bits(&b), vec![0, 64, 129]);
}

#[test]
fn complement_respects_width() {
    let b = BitSet::from_u128(0b0101, 4);
    let c = b.complement();
    assert_eq!(c.to_u128(), 0b1010);
    assert_eq!(BitSet::new(5).complement().to_u128(), 0b11111);
}

#[test]
fn and_or() {
    let a = BitSet::from_u128(0b1100, 4);
    let b = BitSet::from_u128(0b1010, 4);
    assert_eq!(a.and(&b).to_u128(), 0b1000);
    assert_eq!(a.or(&b).to_u128(), 0b1110);
}

#[test]
fn u128_round_trip() {
    let v: u128 = (0xdead_beef_u128 << 64) | 0x1234_5678_9abc_def0;
    let b = BitSet::from_u128(v, 128);
    assert_eq!(b.to_u128(), v);
    let short = BitSet::from_u128(0b1111_0000, 6);
    assert_eq!(short.to_u128(), 0b11_0000);
}

#[test]
fn decrement_of_atoms() {
    for n in [1usize, 5, 64, 65, 100] {
        for j in 0..n {
            let mut a = BitSet::new(n);
            a.set(j);
            let m = a.sub_one();
            assert_eq!(m.count(), j);
            assert_eq!(bits(&m), (0..j).collect::<Vec<usize>>());
        }
    }
}

#[test]
fn decrement_of_zero_wraps_within_width() {
    let z = BitSet::new(70);
    let m = z.sub_one();
    assert_eq!(m.count(), 70);
    assert_eq!(BitSet::new(3).sub_one().to_u128(), 0b111);
}

#[test]
fn decrement_general_value() {
    let b = BitSet::from_u128(0b1011_0000, 8);
    assert_eq!(b.sub_one().to_u128(), 0b1010_1111);
    let mut w = BitSet::new(130);
    w.set(128);
    let m = w.sub_one();
    assert_eq!(m.count(), 128);
    assert!(!m.get(128) && m.get(127) && m.get(0));
}

#[test]
fn atoms_ascending() {
    let b = BitSet::from_u128(0b1010_0110, 8);
    let atoms = b.atoms();
    let got: Vec<u128> = atoms.iter().map(|a| a.to_u128()).collect();
    assert_eq!(got, vec![0b10, 0b100, 0b10_0000, 0b1000_0000]);
}

#[test]
fn equality_and_subset() {
    let a = BitSet::from_u128(0b0110, 4);
    let b = BitSet::from_u128(0b0111, 4);
    assert!(a.is_subset(&b));
    assert!(!b.is_subset(&a));
    assert!(a.equals(&a.copy()));
    assert!(!a.equals(&b));
    assert!(!a.equals(&BitSet::from_u128(0b0110, 5)));
}

#[test]
fn shortlex_order() {
    let one = BitSet::from_u128(0b1000, 4);
    let two = BitSet::from_u128(0b0011, 4);
    assert!(one.shortlex_less(&two));
    assert!(!two.shortlex_less(&one));
    let a = BitSet::from_u128(0b0101, 4);
    let b = BitSet::from_u128(0b0110, 4);
    assert!(a.shortlex_less(&b));
    assert!(!a.shortlex_less(&a));
    let lo = BitSet::from_u128(1u128 << 70, 100);
    let hi = BitSet::from_u128(1u128 << 3, 100);
    assert!(lo.shortlex_less(&hi));
    assert!(!hi.shortlex_less(&lo));
}
