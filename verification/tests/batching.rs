use par_query::batching::BatchingStrategy;
use par_query::render_settings::round_up_to_multiple_of_64;
use par_query::render_settings::round_up_to_multiple_of_8;

#[test]
fn batch_size_from_estimate() {
    let strategy = BatchingStrategy::new();
    assert_eq!(strategy.calc_batch_size(|| 100, 4), 25);
}

#[test]
fn batch_size_rounds_up() {
    let strategy = BatchingStrategy::new();
    assert_eq!(strategy.calc_batch_size(|| 101, 4), 26);
    assert_eq!(strategy.calc_batch_size(|| 1, 4), 1);
}

#[test]
fn batch_size_zero_items() {
    let strategy = BatchingStrategy::new();
    assert_eq!(strategy.calc_batch_size(|| 0, 4), 0);
}

#[test]
fn batch_size_override_skips_supplier() {
    let strategy = BatchingStrategy::fixed(5);
    let size = strategy.calc_batch_size(
        || -> usize { panic!("the estimate supplier must not run when an override is set") },
        7,
    );
    assert_eq!(size, 5);
}

#[test]
fn batch_size_clamped_by_limits() {
    let strategy = BatchingStrategy {
        batch_size_limits: Some((10, 20)),
        batches_per_thread: 1,
    };
    assert_eq!(strategy.calc_batch_size(|| 100, 4), 20);
    assert_eq!(strategy.calc_batch_size(|| 4, 4), 10);
    assert_eq!(strategy.calc_batch_size(|| 60, 4), 15);
}

#[test]
fn batch_size_batches_per_thread() {
    let strategy = BatchingStrategy {
        batch_size_limits: None,
        batches_per_thread: 2,
    };
    assert_eq!(strategy.calc_batch_size(|| 100, 4), 13);
}

#[test]
fn round_up_helpers() {
    assert_eq!(round_up_to_multiple_of_64(0), 0);
    assert_eq!(round_up_to_multiple_of_64(1), 64);
    assert_eq!(round_up_to_multiple_of_64(64), 64);
    assert_eq!(round_up_to_multiple_of_64(65), 128);
    assert_eq!(round_up_to_multiple_of_8(0), 0);
    assert_eq!(round_up_to_multiple_of_8(7), 8);
    assert_eq!(round_up_to_multiple_of_8(8), 8);
    assert_eq!(round_up_to_multiple_of_8(9), 16);
}
