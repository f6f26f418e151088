use counter_bench::report::render_duration;
use counter_bench::report::summary_line;

#[test]
fn durations_in_nanoseconds() {
    assert_eq!(render_duration(0).as_slice(), b"0ns");
    assert_eq!(render_duration(1).as_slice(), b"1ns");
    assert_eq!(render_duration(999).as_slice(), b"999ns");
}

#[test]
fn durations_in_microseconds() {
    assert_eq!(render_duration(1_000).as_slice(), b"1us");
    assert_eq!(render_duration(1_500).as_slice(), b"1.5us");
    assert_eq!(render_duration(999_999).as_slice(), b"999.999us");
}

#[test]
fn durations_in_milliseconds() {
    assert_eq!(render_duration(1_000_000).as_slice(), b"1ms");
    assert_eq!(render_duration(1_010_000).as_slice(), b"1.01ms");
    assert_eq!(render_duration(12_345_678).as_slice(), b"12.345678ms");
}

#[test]
fn durations_in_seconds() {
    assert_eq!(render_duration(1_000_000_000).as_slice(), b"1s");
    assert_eq!(render_duration(1_500_000_000).as_slice(), b"1.5s");
    assert_eq!(render_duration(12_345_678_900).as_slice(), b"12.3456789s");
    assert_eq!(render_duration(60_000_000_000).as_slice(), b"60s");
}

#[test]
fn summary_for_a_typical_run() {
    assert_eq!(
        summary_line(123_456_789),
        "Performed 100,000 local requests in 123.456789ms (1.234us / request)"
    );
}

#[test]
fn summary_reads_the_configured_count_with_separators() {
    let line = summary_line(2_500_000_000);
    assert!(line.starts_with("Performed 100,000 local requests in "));
    assert_eq!(line, "Performed 100,000 local requests in 2.5s (25us / request)");
}

#[test]
fn summary_of_an_instant_run() {
    assert_eq!(summary_line(0), "Performed 100,000 local requests in 0ns (0ns / request)");
}
