use counter_bench::codec::parse_i32;
use counter_bench::codec::render_u64;

#[test]
fn render_zero() {
    assert_eq!(render_u64(0).as_slice(), b"0");
}

#[test]
fn render_single_digit() {
    assert_eq!(render_u64(7).as_slice(), b"7");
}

#[test]
fn render_two_digits() {
    assert_eq!(render_u64(10).as_slice(), b"10");
}

#[test]
fn render_request_count() {
    assert_eq!(render_u64(100000).as_slice(), b"100000");
}

#[test]
fn render_largest() {
    assert_eq!(render_u64(u64::MAX).as_slice(), b"18446744073709551615");
}

#[test]
fn parse_plain() {
    assert_eq!(parse_i32(&b"123".to_vec()), Some(123));
}

#[test]
fn parse_zero_and_leading_zeros() {
    assert_eq!(parse_i32(&b"0".to_vec()), Some(0));
    assert_eq!(parse_i32(&b"007".to_vec()), Some(7));
}

#[test]
fn parse_signs() {
    assert_eq!(parse_i32(&b"+42".to_vec()), Some(42));
    assert_eq!(parse_i32(&b"-7".to_vec()), Some(-7));
}

#[test]
fn parse_extremes() {
    assert_eq!(parse_i32(&b"2147483647".to_vec()), Some(i32::MAX));
    assert_eq!(parse_i32(&b"-2147483648".to_vec()), Some(i32::MIN));
}

#[test]
fn parse_rejects_out_of_range() {
    assert_eq!(parse_i32(&b"2147483648".to_vec()), None);
    assert_eq!(parse_i32(&b"-2147483649".to_vec()), None);
    assert_eq!(parse_i32(&b"99999999999999999999".to_vec()), None);
}

#[test]
fn parse_rejects_malformed() {
    assert_eq!(parse_i32(&b"".to_vec()), None);
    assert_eq!(parse_i32(&b"+".to_vec()), None);
    assert_eq!(parse_i32(&b"-".to_vec()), None);
    assert_eq!(parse_i32(&b"abc".to_vec()), None);
    assert_eq!(parse_i32(&b"12a".to_vec()), None);
    assert_eq!(parse_i32(&b" 1".to_vec()), None);
    assert_eq!(parse_i32(&b"1 ".to_vec()), None);
    assert_eq!(parse_i32(&b"1.5".to_vec()), None);
}

#[test]
fn render_then_parse_round_trip() {
    for n in [0u64, 1, 9, 10, 99, 100, 4096, 1234567, 2147483647] {
        let body = render_u64(n);
        assert_eq!(parse_i32(&body), Some(n as i32));
    }
}
