use pitop::nvidia::parse_nvidia_smi_output;

fn parsed(text: &str) -> Option<(u64, u64)> {
    parse_nvidia_smi_output(text.as_bytes()).map(|b| (b.gpu_power_draw, b.gpu_power_limit))
}

#[test]
fn report_gives_draw_and_limit_in_milliwatts() {
    assert_eq!(parsed("45.50, 250.00\n"), Some((45_500, 250_000)));
}

#[test]
fn report_fields_are_trimmed_and_extra_digits_dropped() {
    assert_eq!(parsed(" 12.345678 ,\t300\r\n"), Some((12_345, 300_000)));
    assert_eq!(parsed("0.0004, 1"), Some((0, 1_000)));
}

#[test]
fn report_fields_lose_unicode_whitespace() {
    assert_eq!(parsed("\u{a0}3\u{3000}, \u{2003}4\u{85}"), Some((3_000, 4_000)));
    assert_eq!(parsed("\u{1680}\u{202f}5\u{2028},6\u{205f}"), Some((5_000, 6_000)));
}

#[test]
fn report_reads_only_the_first_line_and_two_fields() {
    assert_eq!(parsed("1.5, 2.5, 3.5\n7, 8\n"), Some((1_500, 2_500)));
    assert_eq!(parsed("1,2\n3,4"), Some((1_000, 2_000)));
}

#[test]
fn report_accepts_bare_dot_forms() {
    assert_eq!(parsed("5., .5"), Some((5_000, 500)));
}

#[test]
fn report_accepts_signs_and_exponents() {
    assert_eq!(parsed("1e2,1\n"), Some((100_000, 1_000)));
    assert_eq!(parsed("+1.5E-1, 2e+3"), Some((150, 2_000_000)));
    assert_eq!(parsed("1234.5678e-2, 0"), Some((12_345, 0)));
    assert_eq!(parsed("-1, 2"), Some((0, 2_000)));
    assert_eq!(parsed("-0.0, +0"), Some((0, 0)));
}

#[test]
fn report_accepts_infinities_and_nan() {
    assert_eq!(parsed("inf, NaN"), Some((u64::MAX, 0)));
    assert_eq!(parsed("-Infinity, +INF"), Some((0, u64::MAX)));
    assert_eq!(parsed("-nan, infinity"), Some((0, u64::MAX)));
}

#[test]
fn report_values_saturate() {
    assert_eq!(parsed("18446744073709551.615, 0"), Some((u64::MAX, 0)));
    assert_eq!(parsed("18446744073709551.616, 0"), Some((u64::MAX, 0)));
    assert_eq!(parsed("18446744073709551616, 1"), Some((u64::MAX, 1_000)));
    assert_eq!(parsed("1e400, 1e-400"), Some((u64::MAX, 0)));
    assert_eq!(parsed("0e99999999999999999999999, 1"), Some((0, 1_000)));
}

#[test]
fn report_without_numbers_is_refused() {
    assert_eq!(parsed("[N/A], [N/A]\n"), None);
    assert_eq!(parsed("100\n"), None);
    assert_eq!(parsed(""), None);
    assert_eq!(parsed(".,1"), None);
    assert_eq!(parsed("1,\n"), None);
    assert_eq!(parsed("\n1, 2"), None);
    assert_eq!(parsed("1e, 2"), None);
    assert_eq!(parsed("e5, 1"), None);
    assert_eq!(parsed("1.2.3, 4"), None);
    assert_eq!(parsed("--1, 2"), None);
    assert_eq!(parsed("1 2, 3"), None);
    assert_eq!(parsed("infinit, 1"), None);
    assert_eq!(parsed("1e+-2, 1"), None);
}
