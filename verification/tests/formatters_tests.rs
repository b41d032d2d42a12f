use allnodes::formatters::{format_opt, format_sockets, format_udp_socket_list};

fn strings(v: &[&str]) -> Vec<String> {
    v.iter().map(|s| s.to_string()).collect()
}

#[test]
fn socket_lists() {
    assert_eq!(format_udp_socket_list(&strings(&[])), "");
    assert_eq!(format_udp_socket_list(&strings(&["a"])), "a");
    assert_eq!(format_udp_socket_list(&strings(&["a", "a", "b"])), "a \u{d7} 2, b");
    assert_eq!(format_udp_socket_list(&strings(&["a", "b", "b", "b"])), "a, b \u{d7} 3");
    assert_eq!(format_udp_socket_list(&strings(&["a", "b", "a"])), "a, b, a");
    let many: Vec<String> = (0..12).map(|_| "127.0.0.1:8000".to_string()).collect();
    assert_eq!(format_udp_socket_list(&many), "127.0.0.1:8000 \u{d7} 12");
}

#[test]
fn optional_text() {
    assert_eq!(format_opt(None), "None");
    assert_eq!(format_opt(Some("x")), "x");
}

#[test]
fn socket_report() {
    let fields: Vec<String> = (0..25).map(|i| format!("f{i}")).collect();
    let r = format_sockets(&fields);
    assert!(r.starts_with("Gossip UDP: [f0]\nIP echo TCP: [f1]\nTVU UDP: [f2]\nTVU UDP QUIC: [f3]\nTPU UDP: [f4]"));
    assert!(r.contains("\nRetransmit UDP Sockets: [f10]\n"));
    assert!(r.contains("\nTPU Transaction Forwarding Clients UDP: [f19]\n"));
    assert!(r.ends_with("\nRPC STS Client UDP: [f23]\nVortexor Receivers UDP: [f24]"));
    assert_eq!(r.lines().count(), 25);
}
