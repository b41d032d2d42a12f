use allnodes::mid::{apply_mid, machine_id_word, mid_from_bytes, DEFAULT_MID};

#[test]
fn mid_from_chunks() {
    assert_eq!(mid_from_bytes(None), DEFAULT_MID);
    assert_eq!(mid_from_bytes(Some(vec![])), DEFAULT_MID);
    assert_eq!(mid_from_bytes(Some(vec![1])), 0x246c8c2627eed701);
    assert_eq!(mid_from_bytes(Some((1..=8).collect())), 0x0807060504030201);
    assert_eq!(mid_from_bytes(Some((1..=9).collect())), 0x0807060504030201 ^ 0x246c8c2627eed709);
}

#[test]
fn mid_from_machine_id_or_address() {
    assert_eq!(machine_id_word(Some("0102030405060708"), None), 0x0807060504030201);
    assert_eq!(machine_id_word(Some("0A0b"), None), 0x246c8c2627ee0b0a);
    assert_eq!(machine_id_word(Some("abc"), None), DEFAULT_MID);
    assert_eq!(machine_id_word(Some("zz"), Some(vec![1])), 0x246c8c2627eed701);
    assert_eq!(machine_id_word(None, Some(vec![0, 0, 0, 0, 127, 0, 0, 1])), 0x0100007f00000000);
    assert_eq!(machine_id_word(None, None), DEFAULT_MID);
}

#[test]
fn masking() {
    let mut b = vec![0u8; 10];
    apply_mid(&mut b, 0x0807060504030201);
    assert_eq!(b, vec![1, 2, 3, 4, 5, 6, 7, 8, 1, 2]);
    apply_mid(&mut b, 0x0807060504030201);
    assert_eq!(b, vec![0u8; 10]);
    let orig: Vec<u8> = (0..=255).collect();
    let mut c = orig.clone();
    apply_mid(&mut c, DEFAULT_MID);
    assert_ne!(c, orig);
    apply_mid(&mut c, DEFAULT_MID);
    assert_eq!(c, orig);
}
