use std::time::Duration;
use base64::Engine;
use allnodes::constants::{Const, Constant, Constants, Parseable, SaveAction};
use allnodes::mid::get_store_key;

#[test]
fn integers_parse_like_from_str() {
    assert_eq!(<u64 as Parseable>::parse("+12"), Some(12));
    assert_eq!(<u64 as Parseable>::parse("007"), Some(7));
    assert_eq!(<u64 as Parseable>::parse("-1"), None);
    assert_eq!(<u64 as Parseable>::parse(""), None);
    assert_eq!(<u64 as Parseable>::parse("+"), None);
    assert_eq!(<u64 as Parseable>::parse(" 1"), None);
    assert_eq!(<u64 as Parseable>::parse("18446744073709551615"), Some(u64::MAX));
    assert_eq!(<u64 as Parseable>::parse("18446744073709551616"), None);
    assert_eq!(<u16 as Parseable>::parse("65535"), Some(65535));
    assert_eq!(<u16 as Parseable>::parse("65536"), None);
    assert_eq!(<u32 as Parseable>::parse("4294967296"), None);
    assert_eq!(<usize as Parseable>::parse("42"), Some(42));
    for text in ["0", "1", "+5", "99x", "x", "123456789012345678901234567890"] {
        assert_eq!(<u64 as Parseable>::parse(text), text.parse::<u64>().ok());
    }
}

#[test]
fn constant_takes_one_new_value() {
    let mut c = Constant::new(1u64);
    assert_eq!(*c.get(), 1);
    c.set_from_text("x");
    assert_eq!(*c.get(), 1);
    c.set_from_text("1");
    assert_eq!(*c.get(), 1);
    c.update("2");
    assert_eq!(*c.get(), 2);
    c.set_from_text("2");
    assert_eq!(*c.get(), 2);
}

#[test]
fn overrides_reach_registered_constants() {
    let mut cs = Constants::new();
    assert!(!cs.update("HEARTBEAT_INTERVAL", "5", true));
    let c = cs.register("HEARTBEAT_INTERVAL", 300u64);
    assert_eq!(*c.get(), 5);
    let d = cs.register("OTHER", 7u32);
    assert_eq!(*d.get(), 7);
    assert!(!cs.update("HEARTBEAT_INTERVAL", "5", false));
    assert!(cs.update("HEARTBEAT_INTERVAL", "6", true));
    assert!(cs.update("OTHER", "8", false));
    assert!(!cs.update("UNKNOWN", "1", true));
    assert_eq!(cs.lookup("HEARTBEAT_INTERVAL"), Some(("6".to_string(), true)));
    assert_eq!(cs.lookup("OTHER"), Some(("8".to_string(), false)));
    assert_eq!(cs.lookup("NONE"), None);
}

#[test]
fn unparsable_override_leaves_default() {
    let mut cs = Constants::new();
    cs.update("N", "abc", true);
    let c = cs.register("N", 3u16);
    assert_eq!(*c.get(), 3);
}

#[test]
fn saved_overrides_survive_reload() {
    let mid = 0x0123_4567_89ab_cdef;
    let mut cs = Constants::new();
    cs.update("A", "1", true);
    cs.update("B", "2", false);
    cs.update("C", "three", true);
    let text = match cs.save(mid) {
        SaveAction::Put(t) => t,
        other => panic!("unexpected {:?}", other),
    };
    let mut fresh = Constants::new();
    fresh.load(Some(&text), mid);
    assert_eq!(fresh.lookup("A"), Some(("1".to_string(), true)));
    assert_eq!(fresh.lookup("B"), None);
    assert_eq!(fresh.lookup("C"), Some(("three".to_string(), true)));
    let mut other = Constants::new();
    other.load(Some(&text), mid ^ 1);
    assert_eq!(other.lookup("A"), None);
    let mut bad = Constants::new();
    bad.load(Some("not base64!"), mid);
    assert_eq!(bad.lookup("A"), None);
}

#[test]
fn nothing_saved_deletes() {
    let mut cs = Constants::new();
    cs.update("B", "2", false);
    assert!(matches!(cs.save(1), SaveAction::Delete));
}

#[test]
fn load_marks_overrides_saved() {
    let mid = 99;
    let mut cs = Constants::new();
    cs.update("A", "1", true);
    let text = match cs.save(mid) {
        SaveAction::Put(t) => t,
        _ => unreachable!(),
    };
    let mut other = Constants::new();
    other.update("A", "0", false);
    other.update("Z", "9", false);
    other.load(Some(&text), mid);
    assert_eq!(other.lookup("A"), Some(("1".to_string(), true)));
    assert_eq!(other.lookup("Z"), Some(("9".to_string(), false)));
    other.load(None, mid);
    assert_eq!(other.lookup("Z"), Some(("9".to_string(), false)));
}

#[test]
fn store_key_format() {
    assert_eq!(get_store_key(0x1234), "ovrd-0000000000001234");
    assert_eq!(get_store_key(0x6bd7ee27268c6c24), format!("ovrd-{:016x}", 0x6bd7ee27268c6c24u64));
}

#[test]
fn persisted_text_is_masked_bincode_in_base64() {
    let mid = 0x1122_3344_5566_7788;
    let mut cs = Constants::new();
    cs.update("C", "three", true);
    cs.update("A", "1", true);
    let text = match cs.save(mid) {
        SaveAction::Put(t) => t,
        _ => unreachable!(),
    };
    let mut map = std::collections::BTreeMap::new();
    map.insert("A".to_string(), "1".to_string());
    map.insert("C".to_string(), "three".to_string());
    let mut bytes = bincode::serialize(&map).unwrap();
    allnodes::mid::apply_mid(&mut bytes, mid);
    assert_eq!(text, base64::prelude::BASE64_STANDARD.encode(&bytes));
}

#[test]
fn constant_reports_whether_it_can_take_a_value() {
    let mut c = Constant::new(1u64);
    assert!(c.can_update("2"));
    assert!(c.can_update("x"));
    c.update("2");
    assert!(c.can_update("2"));
    assert!(c.can_update("x"));
    assert!(!c.can_update("3"));
    assert_eq!(*c.get(), 2);
}

#[test]
fn durations_parse_as_microseconds() {
    assert_eq!(<Duration as Parseable>::parse("1500"), Some(Duration::from_micros(1500)));
    assert_eq!(<Duration as Parseable>::parse("+0"), Some(Duration::ZERO));
    assert_eq!(<Duration as Parseable>::parse("1.5"), None);
    assert_eq!(<Duration as Parseable>::parse("-1"), None);
    let mut c = Constant::new(Duration::from_secs(300));
    c.update("250000");
    assert_eq!(*c.get(), Duration::from_millis(250));
}
