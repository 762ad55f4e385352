use w3s_cli::units::{decimal_string, print_byte_unit};

#[test]
fn zero_bytes() {
    assert_eq!(print_byte_unit(0), "0.00B");
}

#[test]
fn one_and_a_half_kib() {
    assert_eq!(print_byte_unit(1536), "1.50KiB");
}

#[test]
fn one_mib() {
    assert_eq!(print_byte_unit(1048576), "1.00MiB");
}

#[test]
fn just_below_one_kib_stays_in_bytes() {
    assert_eq!(print_byte_unit(1023), "1023.00B");
    assert_eq!(print_byte_unit(1024), "1.00KiB");
}

#[test]
fn fractions_round_to_nearest() {
    // 1029 / 1024 = 1.0048..., 1030 / 1024 = 1.0058...
    assert_eq!(print_byte_unit(1029), "1.00KiB");
    assert_eq!(print_byte_unit(1030), "1.01KiB");
    assert_eq!(print_byte_unit(3 * 1024 * 1024 * 1024 / 4), "768.00MiB");
}

#[test]
fn exact_ties_round_to_even() {
    // 1152 / 1024 = 1.125 and 1408 / 1024 = 1.375 exactly.
    assert_eq!(print_byte_unit(1152), "1.12KiB");
    assert_eq!(print_byte_unit(1408), "1.38KiB");
    assert_eq!(print_byte_unit(1266637395197952), "1.12PiB");
}

#[test]
fn larger_units() {
    assert_eq!(print_byte_unit(5 * 1024u128.pow(3)), "5.00GiB");
    assert_eq!(print_byte_unit(2 * 1024u128.pow(4) + 1024u128.pow(4) / 4), "2.25TiB");
}

#[test]
fn pebibytes_never_escalate() {
    assert_eq!(print_byte_unit(1024u128.pow(5)), "1.00PiB");
    assert_eq!(print_byte_unit(1024u128.pow(6)), "1024.00PiB");
    assert_eq!(print_byte_unit(1024u128.pow(7)), "1048576.00PiB");
    let big = print_byte_unit(u128::MAX);
    assert!(big.ends_with("PiB"));
    assert!(big.starts_with("302231454903657293676544"));
}

#[test]
fn decimal_text() {
    assert_eq!(decimal_string(0), "0");
    assert_eq!(decimal_string(7), "7");
    assert_eq!(decimal_string(10), "10");
    assert_eq!(decimal_string(1234567890), "1234567890");
    assert_eq!(decimal_string(u128::MAX), u128::MAX.to_string());
}
