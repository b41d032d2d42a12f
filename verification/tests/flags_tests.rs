use allnodes::flags::{experimental_feature_enabled, flags2_from_millis, init_flags2, Flags, ServiceCapabilities};

#[test]
fn flag_bits_and_fields() {
    let f = Flags::new(0b1010);
    assert!(!f.is_set(0));
    assert!(f.is_set(1));
    assert!(f.is_set(3));
    assert_eq!(f.bit(3), 1);
    assert_eq!(f.bit(2), 0);
    assert_eq!(f.value(1, 3), 5);
    let g = Flags::new(1u64 << 63 | 0x3f << 12);
    assert!(g.is_set(63));
    assert_eq!(g.value(12, 6), 63);
    assert_eq!(Flags::default().bits, 0);
}

#[test]
fn capabilities() {
    let c = ServiceCapabilities::new(0b101);
    assert!(c.is_supported(0));
    assert!(!c.is_supported(1));
    assert!(c.is_supported(2));
    assert!(!c.is_supported(64));
}

#[test]
fn second_flag_word() {
    assert_eq!(flags2_from_millis(0x1_0000_0000_0000_0003, false), 2);
    assert_eq!(flags2_from_millis(4, true), 5);
    assert_eq!(flags2_from_millis(5, true), 5);
    assert!(experimental_feature_enabled(init_flags2(true)));
    assert!(!experimental_feature_enabled(init_flags2(false)));
    assert!(init_flags2(false) > 1_600_000_000_000 - 2);
}
