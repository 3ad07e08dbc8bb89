use bandwhich_core::cli::UnitFamily;
use bandwhich_core::network::{ConnectionSample, IpAddr, LocalSocket, ProcessInfo, Protocol};
use bandwhich_core::raw::raw_output_lines;
use bandwhich_core::text::{fit_prefix_len, truncate_to_width};
use bandwhich_core::ui_state::UIState;

#[test]
fn truncate_ascii() {
    assert_eq!(truncate_to_width("hello", 3), "hel");
    assert_eq!(truncate_to_width("hello", 10), "hello");
    assert_eq!(truncate_to_width("hello", 0), "");
    assert_eq!(truncate_to_width("", 4), "");
}

#[test]
fn truncate_wide_and_control_chars() {
    assert_eq!(truncate_to_width("日本語", 5), "日本");
    assert_eq!(truncate_to_width("日本語", 1), "");
    assert_eq!(truncate_to_width("ab\u{7}c", 2), "ab\u{7}");
}

#[test]
fn fit_prefix_counts() {
    assert_eq!(fit_prefix_len(&vec![Some(1), Some(2), None, Some(1)], 3), 3);
    assert_eq!(fit_prefix_len(&vec![Some(2), Some(1)], 1), 0);
    assert_eq!(fit_prefix_len(&vec![], 5), 0);
    assert_eq!(fit_prefix_len(&vec![Some(1); 4], 0), 0);
}

#[test]
fn raw_output_rows_then_no_traffic() {
    let a = LocalSocket { ip: IpAddr::V4(1), port: 443, protocol: Protocol::Tcp };
    let ctp = vec![(a, ProcessInfo::new("curl", 42))];
    let mut state = UIState::new(None, UnitFamily::BinBytes);
    assert_eq!(raw_output_lines(&state, 7), vec!["Refreshing:", "<NO TRAFFIC>", ""]);
    state.update(ctp.clone(), vec![(a, ConnectionSample { total_bytes_downloaded: 100, total_bytes_uploaded: 3 })]);
    assert_eq!(
        raw_output_lines(&state, 1700000000),
        vec![
            "Refreshing:",
            "process: <1700000000> \"curl\" down/up Bps: 100/3 total down/up B: 100/3",
            "",
        ]
    );
    state.update(ctp, vec![]);
    assert_eq!(raw_output_lines(&state, -5), vec!["Refreshing:", "<NO TRAFFIC>", ""]);
}

#[test]
fn raw_output_negative_timestamp() {
    let a = LocalSocket { ip: IpAddr::V4(1), port: 1, protocol: Protocol::Udp };
    let mut state = UIState::new(None, UnitFamily::BinBytes);
    state.update(vec![], vec![(a, ConnectionSample { total_bytes_downloaded: 0, total_bytes_uploaded: 12 })]);
    assert_eq!(
        raw_output_lines(&state, -5)[1],
        "process: <-5> \"<UNKNOWN>\" down/up Bps: 0/12 total down/up B: 0/12"
    );
}
