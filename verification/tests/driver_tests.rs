use counter_bench::driver::concat_chunks;
use counter_bench::driver::decode_and_parse;
use counter_bench::driver::driver_step;
use counter_bench::driver::loopback_exchange;
use counter_bench::driver::run_benchmark_model;
use counter_bench::driver::should_report;
use counter_bench::driver::target_uri_text;
use counter_bench::driver::DriverPhase;
use counter_bench::driver::TIMED_REQUESTS;
use counter_bench::HitCount;
use counter_bench::RequestError;

#[test]
fn target_names_the_loopback_host_and_fixed_port() {
    assert_eq!(target_uri_text(), "http://localhost:8080");
}

#[test]
fn chunks_concatenate_in_arrival_order() {
    let chunks = vec![vec![49u8, 50], vec![51], vec![], vec![52, 53]];
    assert_eq!(concat_chunks(&chunks).as_slice(), b"12345");
}

#[test]
fn no_chunks_make_an_empty_body() {
    let chunks: Vec<Vec<u8>> = Vec::new();
    assert_eq!(concat_chunks(&chunks).as_slice(), b"");
}

#[test]
fn numeric_body_parses() {
    assert_eq!(decode_and_parse(&b"57".to_vec()), Ok(57));
    assert_eq!(decode_and_parse(&b"-12".to_vec()), Ok(-12));
}

#[test]
fn non_utf8_body_fails() {
    assert_eq!(decode_and_parse(&vec![0xff, 0xfe]), Err(RequestError::Utf8));
    assert_eq!(decode_and_parse(&vec![49, 0x80]), Err(RequestError::Utf8));
}

#[test]
fn non_numeric_body_fails() {
    assert_eq!(decode_and_parse(&b"abc".to_vec()), Err(RequestError::Parse));
    assert_eq!(decode_and_parse(&b"".to_vec()), Err(RequestError::Parse));
    assert_eq!(decode_and_parse(&"１２３".as_bytes().to_vec()), Err(RequestError::Parse));
}

#[test]
fn loopback_round_trip_returns_the_incremented_count() {
    let mut c = HitCount::new();
    assert_eq!(loopback_exchange(&mut c), Ok(1));
    assert_eq!(loopback_exchange(&mut c), Ok(2));
    assert_eq!(c.count, 2);
}

#[test]
fn warmup_then_timing() {
    let p = driver_step(DriverPhase::Warmup, true);
    assert_eq!(p, DriverPhase::Timing { completed: 0 });
    assert!(!should_report(&p));
}

#[test]
fn fault_on_third_call_fails_the_run_with_no_summary() {
    let mut p = DriverPhase::Warmup;
    p = driver_step(p, true);
    p = driver_step(p, true);
    p = driver_step(p, false);
    assert_eq!(p, DriverPhase::Failed);
    assert!(!should_report(&p));
    p = driver_step(p, true);
    assert_eq!(p, DriverPhase::Failed);
}

#[test]
fn modelled_benchmark_run_lands_all_increments_and_reports() {
    let mut c = HitCount::new();
    let p = run_benchmark_model(&mut c);
    assert!(should_report(&p));
    assert_eq!(c.count, TIMED_REQUESTS + 1);
}

#[test]
fn full_run_increments_warmup_plus_timed_and_reports() {
    let mut c = HitCount::new();
    let mut p = DriverPhase::Warmup;
    let mut calls: u64 = 0;
    while !should_report(&p) {
        let r = loopback_exchange(&mut c);
        p = driver_step(p, r.is_ok());
        calls += 1;
        assert!(!matches!(p, DriverPhase::Failed));
    }
    assert_eq!(calls, TIMED_REQUESTS + 1);
    assert_eq!(c.count, TIMED_REQUESTS + 1);
}
