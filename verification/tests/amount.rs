use forest::amount::{compare_magnitudes, Comparison, TokenAmount};

fn amt(negative: bool, magnitude: &[u8]) -> TokenAmount {
    TokenAmount { negative, magnitude: magnitude.to_vec() }
}

#[test]
fn magnitudes_compare_by_value() {
    assert_eq!(compare_magnitudes(&[1, 0], &[0xff]), Comparison::Greater);
    assert_eq!(compare_magnitudes(&[0, 0, 5], &[5]), Comparison::Equal);
    assert_eq!(compare_magnitudes(&[], &[0, 0]), Comparison::Equal);
    assert_eq!(compare_magnitudes(&[0x12, 0x34], &[0x12, 0x35]), Comparison::Less);
    assert_eq!(compare_magnitudes(&[0x01, 0x00, 0x00], &[0x00, 0xff, 0xff]), Comparison::Greater);
}

#[test]
fn amounts_compare_by_sign_and_value() {
    assert!(amt(false, &[2]).gt(&amt(false, &[1])));
    assert!(!amt(false, &[1]).gt(&amt(false, &[1])));
    assert!(amt(false, &[0]).gt(&amt(true, &[1])));
    assert!(!amt(true, &[0]).gt(&amt(false, &[])));
    assert!(!amt(false, &[0]).gt(&amt(true, &[0])));
    assert!(amt(true, &[1]).gt(&amt(true, &[2])));
    assert!(!amt(true, &[3]).gt(&amt(false, &[0])));
    // 10^27 against 10^27 - 1
    let big = 1_000_000_000_000_000_000_000_000_000u128.to_be_bytes();
    let less = (1_000_000_000_000_000_000_000_000_000u128 - 1).to_be_bytes();
    assert!(amt(false, &big).gt(&amt(false, &less)));
    assert!(!amt(false, &less).gt(&amt(false, &big)));
}
