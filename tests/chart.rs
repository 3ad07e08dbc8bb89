use bandwhich_core::chart::{
    fixed_history_window, gradient_color, history_to_bars, level_of, max_history_values, Rgb,
};
use bandwhich_core::cli::UnitFamily;
use bandwhich_core::network::{ConnectionSample, IpAddr, LocalSocket, ProcessInfo, Protocol};
use bandwhich_core::ui_state::UIState;

#[test]
fn zero_history_gives_baseline_bars() {
    let (bars, max) = history_to_bars(&vec![0, 0, 0], 3, 0);
    assert_eq!(max, 8);
    assert_eq!(bars.len(), 3);
    for bar in &bars {
        assert_eq!(bar.value, 1);
        assert_eq!(bar.color, Rgb { r: 0, g: 195, b: 255 });
    }
}

#[test]
fn bars_scaled_to_own_max_with_headroom() {
    let (bars, _) = history_to_bars(&vec![10], 4, 0);
    let levels: Vec<u64> = bars.iter().map(|b| b.value).collect();
    assert_eq!(levels, vec![1, 1, 1, 7]);
    assert_eq!(bars[3].color, Rgb { r: 146, g: 88, b: 255 });
}

#[test]
fn bars_scaled_to_global_max() {
    let (bars, _) = history_to_bars(&vec![5, 50, 100], 3, 100);
    let levels: Vec<u64> = bars.iter().map(|b| b.value).collect();
    assert_eq!(levels, vec![1, 4, 7]);
    assert_eq!(bars[1].color, Rgb { r: 73, g: 141, b: 255 });
}

#[test]
fn no_bars_for_empty_history_or_width() {
    assert!(history_to_bars(&vec![], 5, 0).0.is_empty());
    assert!(history_to_bars(&vec![1, 2], 0, 0).0.is_empty());
}

#[test]
fn level_values() {
    assert_eq!(level_of(0, 0), 1);
    assert_eq!(level_of(1, 0), 7);
    assert_eq!(level_of(0, 100), 1);
    assert_eq!(level_of(110, 100), 7);
    assert_eq!(level_of(u64::MAX, 100), 7);
    assert_eq!(level_of(u64::MAX, u128::MAX), 1);
    assert_eq!(level_of(16, 11), 7);
}

#[test]
fn gradient_endpoints_and_steps() {
    assert_eq!(gradient_color(0, 7), Rgb { r: 0, g: 195, b: 255 });
    assert_eq!(gradient_color(7, 7), Rgb { r: 170, g: 70, b: 255 });
    assert_eq!(gradient_color(1, 7), Rgb { r: 24, g: 177, b: 255 });
    assert_eq!(gradient_color(20, 7), Rgb { r: 170, g: 70, b: 255 });
    assert_eq!(gradient_color(1, 2), Rgb { r: 85, g: 133, b: 255 });
}

#[test]
fn window_pads_or_keeps_latest() {
    assert_eq!(fixed_history_window(&vec![1, 2, 3], 2), vec![2, 3]);
    assert_eq!(fixed_history_window(&vec![1, 2], 4), vec![0, 0, 1, 2]);
    assert_eq!(fixed_history_window(&vec![1, 2], 2), vec![1, 2]);
    assert!(fixed_history_window(&vec![1], 0).is_empty());
}

#[test]
fn max_over_all_rows() {
    let s = |ip: u32| LocalSocket { ip: IpAddr::V4(ip), port: 1, protocol: Protocol::Tcp };
    let c = |d: u128, u: u128| ConnectionSample { total_bytes_downloaded: d, total_bytes_uploaded: u };
    let ctp = vec![(s(1), ProcessInfo::new("a", 1)), (s(2), ProcessInfo::new("b", 2))];
    let mut state = UIState::new(None, UnitFamily::BinBytes);
    assert_eq!(max_history_values(&state), (0, 0));
    state.update(ctp.clone(), vec![(s(1), c(30, 1)), (s(2), c(5, 9))]);
    state.update(ctp, vec![(s(2), c(40, 2))]);
    assert_eq!(max_history_values(&state), (40, 9));
}
