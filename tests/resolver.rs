use bandwhich_core::network::{get_proc_info, lookup_socket, IpAddr, LocalSocket, ProcessInfo, Protocol};

fn sock(ip: IpAddr, port: u16, protocol: Protocol) -> LocalSocket {
    LocalSocket { ip, port, protocol }
}

#[test]
fn unspecified_ipv4_fallback() {
    let ctp = vec![(sock(IpAddr::V4(0), 80, Protocol::Tcp), ProcessInfo::new("nginx", 10))];
    let observed = sock(IpAddr::V4(0x0A00_0001), 80, Protocol::Tcp);
    assert!(lookup_socket(&ctp, &observed).is_none());
    let owner = get_proc_info(&ctp, &observed).unwrap();
    assert_eq!(owner.name, "nginx");
    assert_eq!(owner.pid, 10);
    // another port or protocol does not match
    assert!(get_proc_info(&ctp, &sock(IpAddr::V4(0x0A00_0001), 81, Protocol::Tcp)).is_none());
    assert!(get_proc_info(&ctp, &sock(IpAddr::V4(0x0A00_0001), 80, Protocol::Udp)).is_none());
}

#[test]
fn exact_match_first() {
    let observed = sock(IpAddr::V4(0x7F00_0001), 53, Protocol::Udp);
    let ctp = vec![
        (sock(IpAddr::V4(0), 53, Protocol::Udp), ProcessInfo::new("any", 1)),
        (observed, ProcessInfo::new("exact", 2)),
    ];
    assert_eq!(get_proc_info(&ctp, &observed).unwrap().name, "exact");
}

#[test]
fn ipv4_mapped_fallback() {
    let mapped = sock(IpAddr::V6(0xffff_0A00_0001), 22, Protocol::Tcp);
    let ctp = vec![
        (sock(IpAddr::V4(0), 22, Protocol::Tcp), ProcessInfo::new("any", 1)),
        (mapped, ProcessInfo::new("sshd", 3)),
    ];
    let observed = sock(IpAddr::V4(0x0A00_0001), 22, Protocol::Tcp);
    assert_eq!(get_proc_info(&ctp, &observed).unwrap().name, "sshd");

    let ctp = vec![(sock(IpAddr::V4(0x0A00_0001), 22, Protocol::Tcp), ProcessInfo::new("sshd", 3))];
    assert_eq!(get_proc_info(&ctp, &mapped).unwrap().name, "sshd");
}

#[test]
fn unspecified_ipv6_fallback_last() {
    let observed = sock(IpAddr::V6(0x2001_0db8 << 96), 443, Protocol::Tcp);
    let ctp = vec![(sock(IpAddr::V6(0), 443, Protocol::Tcp), ProcessInfo::new("v6any", 4))];
    assert_eq!(get_proc_info(&ctp, &observed).unwrap().name, "v6any");
    let ctp = vec![
        (sock(IpAddr::V6(0), 443, Protocol::Tcp), ProcessInfo::new("v6any", 4)),
        (sock(IpAddr::V4(0), 443, Protocol::Tcp), ProcessInfo::new("v4any", 5)),
    ];
    assert_eq!(get_proc_info(&ctp, &observed).unwrap().name, "v4any");
}

#[test]
fn swap_family_values() {
    assert_eq!(IpAddr::V4(0x0A00_0001).swap_family(), Some(IpAddr::V6(0xffff_0A00_0001)));
    assert_eq!(IpAddr::V6(0xffff_0A00_0001).swap_family(), Some(IpAddr::V4(0x0A00_0001)));
    assert_eq!(IpAddr::V6(1).swap_family(), None);
}

#[test]
fn unknown_process_identity() {
    let p = ProcessInfo::unknown();
    assert_eq!(p.name, "<UNKNOWN>");
    assert_eq!(p.pid, 0);
    assert!(p.same_process(&ProcessInfo::new("<UNKNOWN>", 0)));
    assert!(!p.same_process(&ProcessInfo::new("<UNKNOWN>", 1)));
}
