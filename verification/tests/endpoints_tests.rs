use allnodes::endpoints::{
    call_next, call_start, get_allnodes_endpoints, get_client_version, is_valid_client_version,
    parse_endpoints_override, select_mirror_group, serves_shred_version, CallAction,
};
use allnodes::flags::ServiceCapabilities;

#[test]
fn built_in_endpoints() {
    let e = get_allnodes_endpoints();
    assert_eq!(e.len(), 9);
    assert!(e.iter().all(|g| g.len() == 3));
    assert_eq!(e[0][0], "https://solana-server-ash-1.allnodes.me:10280");
    assert_eq!(e[1][0], "https://solana-server-ash-1.allnodes.me:20280");
    assert_eq!(e[2][1], "https://solana-server-ash-2.allnodes.me:21280");
    assert_eq!(e[3][0], "https://solana-server-fra-1.allnodes.me:10280");
    assert_eq!(e[8][2], "https://solana-server-tyo-3.allnodes.me:21280");
}

#[test]
fn endpoint_override() {
    assert_eq!(parse_endpoints_override(""), None);
    assert_eq!(parse_endpoints_override(" \t\n"), None);
    assert_eq!(parse_endpoints_override("a,b;c"), Some(vec!["a".to_string(), "b".to_string(), "c".to_string()]));
    assert_eq!(parse_endpoints_override("a,,b "), Some(vec!["a".to_string(), "".to_string(), "b ".to_string()]));
    assert_eq!(parse_endpoints_override(" a"), Some(vec![" a".to_string()]));
    assert_eq!(parse_endpoints_override(";"), Some(vec!["".to_string(), "".to_string()]));
}

#[test]
fn fastest_mirror_group() {
    assert_eq!(select_mirror_group(&vec![vec![5, 3], vec![2], vec![]]), Some(1));
    assert_eq!(select_mirror_group(&vec![vec![], vec![]]), None);
    assert_eq!(select_mirror_group(&vec![vec![4], vec![4]]), Some(0));
    assert_eq!(select_mirror_group(&vec![]), None);
    assert_eq!(select_mirror_group(&vec![vec![], vec![1]]), Some(1));
}

#[test]
fn shred_version_and_client_version() {
    assert!(serves_shred_version(7, 7));
    assert!(!serves_shred_version(70000, 4464));
    assert!(is_valid_client_version("Agave/v2.3.1-allnodes"));
    assert!(!is_valid_client_version("bad\tversion"));
    assert!(!is_valid_client_version("bad\u{7f}"));
    assert!(is_valid_client_version("caf\u{e9}"));
    assert_eq!(get_client_version("x/1"), "x/1");
}

#[test]
fn call_retries_then_moves_on() {
    let caps = vec![ServiceCapabilities::new(u64::MAX), ServiceCapabilities::new(u64::MAX)];
    let (mut s, mut a) = call_start(&caps, Some(3));
    let mut sends = vec![];
    loop {
        match a {
            CallAction::Send { client_index } | CallAction::SleepThenSend { client_index } => {
                sends.push(client_index);
                let (s2, a2) = call_next(s, &caps, Some(3), false);
                s = s2;
                a = a2;
            }
            other => {
                assert_eq!(other, CallAction::ReturnErr);
                break;
            }
        }
    }
    assert_eq!(sends, vec![0, 0, 0, 0, 0, 0, 1, 1]);
}

#[test]
fn call_success_and_unsupported() {
    let caps = vec![ServiceCapabilities::new(0b10), ServiceCapabilities::new(0b100)];
    let (s, a) = call_start(&caps, Some(1));
    assert_eq!(a, CallAction::Send { client_index: 0 });
    assert_eq!(call_next(s, &caps, Some(1), true).1, CallAction::ReturnOk);
    let (_, a) = call_start(&caps, Some(2));
    assert_eq!(a, CallAction::Unsupported);
    let (_, a) = call_start(&caps, None);
    assert_eq!(a, CallAction::Send { client_index: 0 });
    let mut s = call_start(&caps, Some(1)).0;
    for _ in 0..5 {
        s = call_next(s, &caps, Some(1), false).0;
    }
    assert_eq!(call_next(s, &caps, Some(1), false).1, CallAction::Unsupported);
}
