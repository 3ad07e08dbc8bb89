use bandwhich_core::bandwidth::format_bandwidth;
use bandwhich_core::cli::UnitFamily;

#[test]
fn binary_bytes_units() {
    assert_eq!(format_bandwidth(0, UnitFamily::BinBytes, false), "0.00B");
    assert_eq!(format_bandwidth(972, UnitFamily::BinBytes, false), "972.00B");
    assert_eq!(format_bandwidth(1023, UnitFamily::BinBytes, false), "1.00KiB");
    assert_eq!(format_bandwidth(1536, UnitFamily::BinBytes, false), "1.50KiB");
    assert_eq!(format_bandwidth(3 * 1024 * 1024, UnitFamily::BinBytes, false), "3.00MiB");
}

#[test]
fn rates_carry_per_second() {
    assert_eq!(format_bandwidth(0, UnitFamily::BinBytes, true), "0.00B/s");
    assert_eq!(format_bandwidth(1536, UnitFamily::SiBytes, true), "1.54kB/s");
}

#[test]
fn bit_families() {
    assert_eq!(format_bandwidth(1000, UnitFamily::BinBits, false), "7.81Kib");
    assert_eq!(format_bandwidth(125, UnitFamily::SiBits, false), "1.00kb");
    assert_eq!(format_bandwidth(10, UnitFamily::SiBits, false), "80.00b");
}

#[test]
fn si_bytes_units() {
    assert_eq!(format_bandwidth(1500, UnitFamily::SiBytes, false), "1.50kB");
    assert_eq!(format_bandwidth(2_000_000_000, UnitFamily::SiBytes, false), "2.00GB");
}

#[test]
fn ties_round_to_even() {
    assert_eq!(format_bandwidth(1152, UnitFamily::BinBytes, false), "1.12KiB");
    assert_eq!(format_bandwidth(1160, UnitFamily::BinBytes, false), "1.13KiB");
}

#[test]
fn largest_amounts_in_last_unit() {
    assert_eq!(
        format_bandwidth(u128::MAX, UnitFamily::BinBytes, false),
        "302231454903657293676544.00PiB"
    );
    assert_eq!(
        format_bandwidth(u128::MAX, UnitFamily::SiBits, false),
        "2722258935367507707706996.86Pb"
    );
}
