use counter_bench::counter::serve_hits;
use counter_bench::index;
use counter_bench::HitCount;

#[test]
fn fresh_counter_starts_at_zero() {
    let c = HitCount::new();
    assert_eq!(c.count, 0);
}

#[test]
fn first_two_requests_answer_one_then_two() {
    let mut c = HitCount::new();
    assert_eq!(index(&mut c), "1");
    assert_eq!(index(&mut c), "2");
    assert_eq!(c.count, 2);
}

#[test]
fn hits_count_up_by_one() {
    let mut c = HitCount::new();
    assert_eq!(c.hit(), 1);
    assert_eq!(c.hit(), 2);
    assert_eq!(c.hit(), 3);
}

#[test]
fn served_values_have_no_duplicates_and_no_gaps() {
    let mut c = HitCount::new();
    let _ = serve_hits(&mut c, 3);
    let vals = serve_hits(&mut c, 5);
    assert_eq!(vals, vec![4, 5, 6, 7, 8]);
    assert_eq!(c.count, 8);
    for w in vals.windows(2) {
        assert!(w[0] < w[1]);
    }
}

#[test]
fn responses_never_repeat() {
    let mut c = HitCount::new();
    let mut seen = Vec::new();
    for _ in 0..100 {
        let body = index(&mut c);
        assert!(!seen.contains(&body));
        seen.push(body);
    }
}
