use std::cmp::Ordering;

use lseq::{Digit, DoubleBase, Ident};

#[test]
fn base_it_works() {
    let base = DoubleBase::new(None);
    assert_eq!(base.get_initial_base(), 5);
    assert_eq!(base.get_base(0), 5);
    assert_eq!(base.get_max(0).to_u64(), 31);
    assert_eq!(base.get_max(1).to_u64(), 63);
    assert_eq!(base.get_max(2).to_u64(), 127);
    assert_eq!(base.get_bits(0), 5);
    assert_eq!(base.get_bits(1), 11);

    let left = Digit::from_u64(0, 5);
    let right = Digit::from_u64(31, 5);
    let iv = base.interval(&left, &right, 0);
    assert_eq!(iv.map(|d| d.to_u64()), Some(30));
}

#[test]
fn digit_u64_round_trip() {
    for v in [0u64, 1, 5, 30, 31] {
        let d = Digit::from_u64(v, 5);
        assert_eq!(d.width(), 5);
        assert_eq!(d.to_u64(), v);
    }
    let d = Digit::from_u64(0xDEAD_BEEF, 64);
    assert_eq!(d.width(), 64);
    assert_eq!(d.to_u64(), 0xDEAD_BEEF);
}

#[test]
fn interval_without_room() {
    let base = DoubleBase::new(None);
    let three = Digit::from_u64(3, 5);
    let four = Digit::from_u64(4, 5);
    let five = Digit::from_u64(5, 5);
    // Misordered digits resolve to a negative count.
    assert!(base.interval(&five, &three, 0).is_none());
    // Equal digits leave no room either.
    assert!(base.interval(&three, &three, 0).is_none());
    // Adjacent digits leave a free count of exactly zero.
    assert_eq!(base.interval(&three, &four, 0).map(|d| d.to_u64()), Some(0));
    // One step deeper, the whole fresh field is free.
    assert_eq!(base.interval(&three, &four, 1).map(|d| d.to_u64()), Some(63));
}

#[test]
fn normalize_pads_and_truncates() {
    let base = DoubleBase::new(None);
    // 3 = 00011 over 5 bits; padded to depth 1 (11 bits) it gains 6 low zeros.
    let d = Digit::from_u64(3, 5);
    let up = base.normalize(&d, 1);
    assert_eq!(up.width(), 11);
    assert_eq!(up.to_u64(), 3 << 6);
    // Truncating back keeps the most significant 5 bits.
    let wide = Digit::from_u64((3 << 6) | 0x2A, 11);
    let down = base.normalize(&wide, 0);
    assert_eq!(down.width(), 5);
    assert_eq!(down.to_u64(), 3);
}

#[test]
fn split_decodes_fields() {
    let base = DoubleBase::new(None);
    // An 11-bit digit resolved at depth 1: root field 01001, depth-1 field
    // 110100 (9 and 52).
    let v = (9u64 << 6) | 52;
    let d = Digit::from_u64(v, 11);
    let fields = base.split(&d);
    assert_eq!(fields.len(), 2);
    assert_eq!(fields[0].width(), 5);
    assert_eq!(fields[0].to_u64(), 9);
    assert_eq!(fields[1].width(), 6);
    assert_eq!(fields[1].to_u64(), 52);
}

#[test]
fn ident_order_ties() {
    let a = Ident::new(1u64, Digit::from_u64(7, 5));
    let b = Ident::new(2u64, Digit::from_u64(7, 5));
    // Equal digits: the owner tag decides.
    assert_eq!(a.cmp(&b), Ordering::Less);
    assert_eq!(b.cmp(&a), Ordering::Greater);
    // Identical identifiers compare equal.
    assert_eq!(a.cmp(&a), Ordering::Equal);
    // Unequal aligned digits decide before the tag does.
    let c = Ident::new(0u64, Digit::from_u64(8, 5));
    assert_eq!(a.cmp(&c), Ordering::Less);
    assert_eq!(c.cmp(&b), Ordering::Greater);
    // A shorter digit with the same aligned value sorts first:
    // 00001 aligned into 11 bits equals 00001_000000.
    let short = Ident::new(1u64, Digit::from_u64(1, 5));
    let long = Ident::new(1u64, Digit::from_u64(1 << 6, 11));
    assert_eq!(short.cmp(&long), Ordering::Less);
    assert_eq!(long.cmp(&short), Ordering::Greater);
}

#[test]
fn debug_renders_fields() {
    let base = DoubleBase::new(None);
    let id = Ident::new(1u64, Digit::from_u64((9 << 6) | 52, 11));
    assert_eq!(id.debug(&base), "01001|110100");

    let root = Ident::new(1u64, Digit::from_u64(30, 5));
    assert_eq!(root.debug(&base), "11110");
}
