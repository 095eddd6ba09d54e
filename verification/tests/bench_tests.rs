use mmm_core::bench::{bias_correct, needs_amortized, plan_bench, summarize};

#[test]
fn short_seeds_need_the_amortized_path() {
    assert!(needs_amortized(0));
    assert!(needs_amortized(999_999_999));
    assert!(!needs_amortized(1_000_000_000));
}

#[test]
fn plan_targets_about_a_second_per_block() {
    let p = plan_bench(1_000_000_000);
    assert_eq!(p.chunk, 1000);
    assert_eq!(p.chunks, 100);
    let p2 = plan_bench(2_000_000_000_000);
    assert_eq!(p2.chunk, 1);
    assert_eq!(p2.chunks, 100);
    let p3 = plan_bench(1_000_000);
    assert_eq!(p3.chunk, 1_000_000);
    assert_eq!(p3.chunks, 100);
}

#[test]
fn block_count_is_clamped() {
    let p = plan_bench(50_000_000_000);
    assert_eq!(p.chunk, 20);
    assert_eq!(p.chunks, 100);
}

#[test]
fn summary_is_the_first_quartile() {
    let measures = vec![5u64, 3, 9, 1];
    assert_eq!(summarize(&measures), 3);
    let one = vec![42u64];
    assert_eq!(summarize(&one), 42);
    let eight = vec![8u64, 7, 6, 5, 4, 3, 2, 1];
    assert_eq!(summarize(&eight), 3);
}

#[test]
fn noise_free_measurements_summarize_exactly() {
    let measures = vec![123_456u64; 10];
    assert_eq!(summarize(&measures), 123_456);
}

#[test]
fn bias_correction_may_go_negative() {
    assert_eq!(bias_correct(1_000, 400), 600);
    assert_eq!(bias_correct(400, 1_000), -600);
}

#[test]
fn jittered_measurements_stay_close_to_truth() {
    let t = 1_000u64;
    let mut measures = vec![t; 20];
    measures.extend([1_050, 1_080, 1_020, 990, 1_005]);
    let q1 = summarize(&measures);
    let err = if q1 > t { q1 - t } else { t - q1 };
    assert!(err * 10 <= t);
}
