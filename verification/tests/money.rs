use hiero_journal::money::{add, add_assign, render};

#[test]
fn renders_hbar_exactly() {
    assert_eq!(render(150_000_000, 8, " ℏ"), "1.50000000 ℏ");
    assert_eq!(render(-1, 8, " ℏ"), "-0.00000001 ℏ");
    assert_eq!(render(0, 8, " ℏ"), "0.00000000 ℏ");
}

#[test]
fn renders_token_decimals_exactly() {
    // 1_500_000 base units at 6 decimals == 1.500000
    assert_eq!(render(1_500_000, 6, ""), "1.500000");
    assert_eq!(render(1, 0, ""), "1"); // 0-decimal token == integer
}

#[test]
fn checked_add_survives_large_but_real_totals() {
    // 92 billion ℏ in tinybar overflows i64 but is fine at i128.
    let over_i64 = 92_000_000_000i128 * 100_000_000;
    assert_eq!(add(over_i64, over_i64), over_i64 * 2);
}

#[test]
fn add_assign_accumulates_in_place() {
    let mut a = 5i128;
    add_assign(&mut a, -7);
    assert_eq!(a, -2);
}

#[test]
fn render_handles_extremes_and_absurd_scales() {
    assert_eq!(render(i128::MIN, 0, ""), "-170141183460469231731687303715884105728");
    assert_eq!(render(12345, 2, " X"), "123.45 X");
    assert_eq!(render(-5, 3, ""), "-0.005");
    assert_eq!(render(7, 38, ""), "0.00000000000000000000000000000000000007");
    assert_eq!(render(42, 39, "!"), "42 (raw, 39 decimals)!");
    assert_eq!(render(-42, 255, ""), "-42 (raw, 255 decimals)");
}
