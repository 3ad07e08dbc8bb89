use bandwhich_core::cli::UnitFamily;
use bandwhich_core::network::{ConnectionSample, IpAddr, LocalSocket, ProcessInfo, Protocol};
use bandwhich_core::ui_state::{tick_totals, UIState};

fn tcp(ip: u32, port: u16) -> LocalSocket {
    LocalSocket { ip: IpAddr::V4(ip), port, protocol: Protocol::Tcp }
}

fn sample(down: u128, up: u128) -> ConnectionSample {
    ConnectionSample { total_bytes_downloaded: down, total_bytes_uploaded: up }
}

#[test]
fn end_to_end_two_ticks() {
    let a = tcp(0x0A00_0001, 443);
    let mut state = UIState::new(None, UnitFamily::BinBytes);
    let warnings = state.update(vec![(a, ProcessInfo::new("curl", 42))], vec![(a, sample(100, 0))]);
    assert!(warnings.is_empty());
    assert_eq!(state.process_rows.len(), 1);
    let row = &state.process_rows[0];
    assert_eq!(row.process.name, "curl");
    assert_eq!(row.process.pid, 42);
    assert_eq!(row.current_bytes_downloaded, 100);
    assert_eq!(row.total_bytes_downloaded, 100);
    assert_eq!(row.download_history, vec![100]);
    assert_eq!(row.upload_history, vec![0]);

    state.update(vec![(a, ProcessInfo::new("curl", 42))], vec![]);
    let row = &state.process_rows[0];
    assert_eq!(row.current_bytes_downloaded, 0);
    assert_eq!(row.total_bytes_downloaded, 100);
    assert_eq!(row.download_history, vec![100, 0]);
    assert_eq!(row.upload_history, vec![0, 0]);
    assert_eq!(state.total_bytes_downloaded, 100);
}

#[test]
fn unresolved_socket_goes_to_unknown_and_warns_once() {
    let known = tcp(0x0A00_0001, 443);
    let orphan = tcp(0x0A00_0002, 5000);
    let ctp = vec![(known, ProcessInfo::new("curl", 42))];
    let mut state = UIState::new(None, UnitFamily::BinBytes);
    let warnings = state.update(ctp.clone(), vec![(orphan, sample(250, 7))]);
    assert_eq!(warnings.len(), 1);
    assert_eq!(warnings[0].socket, orphan);
    assert!(warnings[0].lookalike.is_none());
    assert_eq!(state.process_rows.len(), 1);
    let row = &state.process_rows[0];
    assert_eq!(row.process.name, "<UNKNOWN>");
    assert_eq!(row.process.pid, 0);
    assert_eq!(row.total_bytes_downloaded, 250);
    assert_eq!(row.total_bytes_uploaded, 7);

    let warnings = state.update(ctp.clone(), vec![(orphan, sample(250, 7))]);
    assert!(warnings.is_empty());
    let warnings = state.update(ctp, vec![(orphan, sample(1, 0))]);
    assert!(warnings.is_empty());
    assert_eq!(state.process_rows[0].total_bytes_downloaded, 501);
    assert_eq!(state.known_orphan_sockets, vec![orphan]);
}

#[test]
fn orphan_warning_names_lookalike() {
    let served = tcp(0x0A00_0002, 80);
    let orphan = tcp(0x0A00_0001, 80);
    let ctp = vec![(served, ProcessInfo::new("nginx", 7))];
    let mut state = UIState::new(None, UnitFamily::BinBytes);
    let warnings = state.update(ctp, vec![(orphan, sample(5, 0)), (served, sample(9, 0))]);
    assert_eq!(warnings.len(), 1);
    let (socket, owner) = warnings[0].lookalike.clone().unwrap();
    assert_eq!(socket, served);
    assert_eq!(owner.name, "nginx");
}

#[test]
fn no_bytes_lost_to_unresolved_sockets() {
    let a = tcp(1, 1);
    let b = tcp(2, 2);
    let c = tcp(3, 3);
    let ctp = vec![(a, ProcessInfo::new("a", 1)), (b, ProcessInfo::new("b", 2))];
    let util = vec![(a, sample(10, 1)), (b, sample(20, 2)), (c, sample(30, 3)), (a, sample(5, 0))];
    let mut state = UIState::new(None, UnitFamily::SiBits);
    state.update(ctp, util);
    let down: u128 = state.process_rows.iter().map(|r| r.current_bytes_downloaded).sum();
    let up: u128 = state.process_rows.iter().map(|r| r.current_bytes_uploaded).sum();
    assert_eq!(down, 65);
    assert_eq!(up, 6);
    assert_eq!(state.total_bytes_downloaded, 65);
    assert_eq!(state.total_bytes_uploaded, 6);
}

#[test]
fn rows_sorted_by_total_download() {
    let ctp: Vec<_> = (0..5u32).map(|i| (tcp(i, 100), ProcessInfo::new(&format!("p{i}"), i))).collect();
    let util = vec![
        (tcp(0, 100), sample(5, 0)),
        (tcp(1, 100), sample(50, 0)),
        (tcp(2, 100), sample(20, 0)),
        (tcp(3, 100), sample(50, 0)),
        (tcp(4, 100), sample(1, 0)),
    ];
    let mut state = UIState::new(None, UnitFamily::BinBytes);
    state.update(ctp, util);
    let totals: Vec<u128> = state.process_rows.iter().map(|r| r.total_bytes_downloaded).collect();
    assert_eq!(totals, vec![50, 50, 20, 5, 1]);
    // equal totals keep the order in which the processes were first seen
    assert_eq!(state.process_rows[0].process.name, "p1");
    assert_eq!(state.process_rows[1].process.name, "p3");
}

#[test]
fn rows_capped_at_max_items() {
    let n: u32 = 1001;
    let ctp: Vec<_> = (0..n).map(|i| (tcp(i, 9), ProcessInfo::new("p", i))).collect();
    let util: Vec<_> = (0..n).map(|i| (tcp(i, 9), sample(i as u128 + 1, 0))).collect();
    let mut state = UIState::new(None, UnitFamily::BinBytes);
    state.update(ctp, util);
    assert_eq!(state.process_rows.len(), 1000);
    assert_eq!(state.process_rows[0].total_bytes_downloaded, 1001);
    assert_eq!(state.process_rows[999].total_bytes_downloaded, 2);
    for w in state.process_rows.windows(2) {
        assert!(w[0].total_bytes_downloaded >= w[1].total_bytes_downloaded);
    }
}

#[test]
fn zero_traffic_tick_keeps_totals_and_appends_zero() {
    let a = tcp(1, 1);
    let b = tcp(2, 2);
    let ctp = vec![(a, ProcessInfo::new("a", 1)), (b, ProcessInfo::new("b", 2))];
    let mut state = UIState::new(None, UnitFamily::BinBytes);
    state.update(ctp.clone(), vec![(a, sample(3, 4)), (b, sample(7, 8))]);
    state.update(ctp, vec![]);
    assert_eq!(state.total_bytes_downloaded, 10);
    assert_eq!(state.total_bytes_uploaded, 12);
    for row in &state.process_rows {
        assert_eq!(row.download_history.len(), 2);
        assert_eq!(row.download_history[1], 0);
        assert_eq!(row.upload_history[1], 0);
        assert_eq!(row.current_bytes_downloaded, 0);
    }
    assert_eq!(state.process_rows[0].total_bytes_downloaded, 7);
    assert_eq!(state.process_rows[1].total_bytes_downloaded, 3);
}

#[test]
fn histories_capped_and_aligned() {
    let a = tcp(1, 1);
    let b = tcp(2, 2);
    let ctp = vec![(a, ProcessInfo::new("a", 1)), (b, ProcessInfo::new("b", 2))];
    let mut state = UIState::new(None, UnitFamily::BinBytes);
    state.update(ctp.clone(), vec![(a, sample(1, 0))]);
    for t in 0..45u128 {
        state.update(ctp.clone(), vec![(b, sample(t, t))]);
        for row in &state.process_rows {
            assert_eq!(row.download_history.len(), row.upload_history.len());
            assert!(row.download_history.len() <= 40);
        }
    }
    let a_row = state.process_rows.iter().find(|r| r.process.name == "a").unwrap();
    assert_eq!(a_row.download_history.len(), 40);
    assert!(a_row.download_history.iter().all(|&v| v == 0));
    let b_row = state.process_rows.iter().find(|r| r.process.name == "b").unwrap();
    assert_eq!(b_row.download_history.len(), 40);
    assert_eq!(b_row.download_history[0], 5);
    assert_eq!(b_row.download_history[39], 44);
}

#[test]
fn tick_totals_sums_and_detects_overflow() {
    let t = tick_totals(&vec![(tcp(1, 1), sample(3, 4)), (tcp(2, 2), sample(10, 20))]).unwrap();
    assert_eq!(t.total_bytes_downloaded, 13);
    assert_eq!(t.total_bytes_uploaded, 24);
    assert!(tick_totals(&vec![(tcp(1, 1), sample(u128::MAX, 0)), (tcp(2, 2), sample(1, 0))]).is_none());
    let empty = tick_totals(&vec![]).unwrap();
    assert_eq!(empty.total_bytes_downloaded, 0);
}

#[test]
fn new_state_is_empty() {
    let state = UIState::new(Some("eth0".to_string()), UnitFamily::SiBytes);
    assert_eq!(state.interface_name.as_deref(), Some("eth0"));
    assert_eq!(state.unit_family, UnitFamily::SiBytes);
    assert!(state.process_rows.is_empty());
    assert_eq!(state.total_bytes_downloaded, 0);
}

#[test]
fn default_state_is_empty() {
    let state = UIState::default();
    assert!(state.interface_name.is_none());
    assert_eq!(state.unit_family, UnitFamily::BinBytes);
    assert!(state.process_rows.is_empty());
    assert!(state.known_orphan_sockets.is_empty());
}
