use flow_disasm::render::render_marker;

#[test]
fn marker_of_zero() {
    assert_eq!(render_marker(0), "0x0");
}

#[test]
fn marker_of_single_digits() {
    assert_eq!(render_marker(9), "0x9");
    assert_eq!(render_marker(10), "0xa");
    assert_eq!(render_marker(15), "0xf");
}

#[test]
fn marker_has_no_leading_zeros() {
    assert_eq!(render_marker(16), "0x10");
    assert_eq!(render_marker(0x4a), "0x4a");
    assert_eq!(render_marker(0x401000), "0x401000");
}

#[test]
fn marker_uses_lower_case() {
    assert_eq!(render_marker(0xDEAD_BEEF), "0xdeadbeef");
    assert_eq!(render_marker(0xABCDEF), "0xabcdef");
}

#[test]
fn marker_of_the_last_address() {
    assert_eq!(render_marker(u64::MAX), "0xffffffffffffffff");
    assert_eq!(render_marker(0x8000_0000_0000_0000), "0x8000000000000000");
}

#[test]
fn marker_agrees_with_the_formatter() {
    let mut a: u64 = 1;
    for _ in 0..500 {
        a = a.wrapping_mul(6364136223846793005).wrapping_add(1442695040888963407);
        assert_eq!(render_marker(a), format!("0x{:x}", a));
        assert_eq!(render_marker(a >> 40), format!("0x{:x}", a >> 40));
    }
}
