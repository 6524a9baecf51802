use halo2_proofs::pasta::group::ff::PrimeField;
use halo2_proofs::pasta::pallas;
use sparse_merkle::Element;

fn bits(n: u64, bits: usize) -> Vec<bool> {
    Element::from_u64(n).least_significant_bits(bits)
}

fn limbs_of(value: pallas::Base) -> [u64; 4] {
    let repr = value.to_repr();
    [
        u64::from_le_bytes(repr[0..8].try_into().unwrap()),
        u64::from_le_bytes(repr[8..16].try_into().unwrap()),
        u64::from_le_bytes(repr[16..24].try_into().unwrap()),
        u64::from_le_bytes(repr[24..32].try_into().unwrap()),
    ]
}

#[test]
fn element_lsb_test() {
    assert_eq!(bits(0, 1), vec![false]);
    assert_eq!(bits(1, 1), vec![true]);

    assert_eq!(bits(0, 4), vec![false, false, false, false]);
    assert_eq!(bits(1, 4), vec![false, false, false, true]);
    assert_eq!(bits(3, 4), vec![false, false, true, true]);

    assert_eq!(bits(0, 6), vec![false, false, false, false, false, false]);
    assert_eq!(bits(1, 6), vec![false, false, false, false, false, true]);
    assert_eq!(bits(3, 6), vec![false, false, false, false, true, true]);
}

#[test]
fn lsb_of_no_bits_is_empty() {
    assert_eq!(bits(5, 0), Vec::<bool>::new());
}

#[test]
fn lsb_reads_every_limb() {
    let e = Element::from_limbs([1, 2, 4, 8]).unwrap();
    let all = e.least_significant_bits(256);
    assert_eq!(all.len(), 256);
    for (j, bit) in all.iter().enumerate() {
        let i = 255 - j;
        assert_eq!(*bit, i == 0 || i == 65 || i == 130 || i == 195, "bit {}", i);
    }
}

#[test]
fn lsb_agrees_with_the_field() {
    let value = pallas::Base::from(0xdead_beef_u64).square();
    let e = Element::from_limbs(limbs_of(value)).unwrap();
    let repr = value.to_repr();
    let ours = e.least_significant_bits(200);
    for (j, bit) in ours.iter().enumerate() {
        let i = 199 - j;
        assert_eq!(*bit, (repr[i / 8] >> (i % 8)) & 1 == 1);
    }
}

#[test]
fn null_is_zero() {
    assert_eq!(Element::null(), Element::from_u64(0));
    assert_eq!(Element::null().to_limbs(), [0, 0, 0, 0]);
    assert_eq!(Element::null().to_limbs(), limbs_of(pallas::Base::zero()));
}

#[test]
fn from_u64_is_the_field_element() {
    assert_eq!(Element::from_u64(123).to_limbs(), [123, 0, 0, 0]);
    assert_eq!(Element::from_u64(u64::MAX).to_limbs(), limbs_of(pallas::Base::from(u64::MAX)));
}

#[test]
fn from_limbs_accepts_below_the_modulus_only() {
    let modulus = [0x992d_30ed_0000_0001, 0x2246_98fc_094c_f91b, 0, 0x4000_0000_0000_0000];
    assert_eq!(Element::from_limbs(modulus), None);
    let greatest = [0x992d_30ed_0000_0000, 0x2246_98fc_094c_f91b, 0, 0x4000_0000_0000_0000];
    assert_eq!(Element::from_limbs(greatest).unwrap().to_limbs(), greatest);
    assert_eq!(greatest, limbs_of(-pallas::Base::one()));
    assert_eq!(Element::from_limbs([0, 0, 1, 0x4000_0000_0000_0000]), None);
    assert_eq!(Element::from_limbs([0, 0, 0, 0x4000_0000_0000_0001]), None);
    assert_eq!(Element::from_limbs([u64::MAX, u64::MAX, u64::MAX, u64::MAX]), None);
    assert!(Element::from_limbs([u64::MAX, u64::MAX, u64::MAX, 0x3fff_ffff_ffff_ffff]).is_some());
    assert!(Element::from_limbs([0, 0x2246_98fc_094c_f91b, 0, 0x4000_0000_0000_0000]).is_some());
    assert_eq!(Element::from_limbs([0, 0x2246_98fc_094c_f91c, 0, 0x4000_0000_0000_0000]), None);
}

#[test]
fn order_is_that_of_the_representatives() {
    let small = Element::from_u64(u64::MAX);
    let large = Element::from_limbs([0, 1, 0, 0]).unwrap();
    let larger = Element::from_limbs([0, 0, 0, 1]).unwrap();
    assert!(small < large);
    assert!(large < larger);
    assert!(Element::from_u64(1) < Element::from_u64(2));
    assert_eq!(
        pallas::Base::from(u64::MAX) < pallas::Base::from_raw([0, 1, 0, 0]),
        small < large
    );
}
