use http3bench::plan::{rate_batch, split, split_by, sum_of};
use http3bench::settings::{dial_shares, echo_concurrency, tick_of, warmup_times};
use std::time::Duration;

#[test]
fn batches() {
    assert_eq!(rate_batch(0, 200, 16384, 1024), Ok((10, 20)));
    assert_eq!(rate_batch(50, 200, 16384, 1024), Ok((50, 4)));
    assert!(rate_batch(30, 200, 16384, 1024).is_err());
    assert_eq!(rate_batch(0, 7, 16384, 100_000), Ok((1, 7)));
}

#[test]
fn splits() {
    assert_eq!(split(10, 3), vec![3, 3, 4]);
    assert_eq!(split(2, 4), vec![0, 1, 0, 1]);
    assert_eq!(split_by(10, &[5, 5]), vec![5, 5]);
    assert_eq!(split_by(3, &[1, 10]), vec![1, 2]);
    assert_eq!(split_by(100, &[3, 4]), vec![3, 4]);
}

#[test]
fn batch_errors_and_edges() {
    assert_eq!(
        rate_batch(30, 200, 16384, 1024).unwrap_err(),
        "batch 30 does not divide the send rate 200, so no whole number of bursts a second sends it; pick a divisor of 200"
    );
    assert_eq!(rate_batch(0, 200, 16384, 0), Ok((200, 1)));
    assert_eq!(rate_batch(0, 200, 1, 1024), Ok((1, 200)));
    assert_eq!(rate_batch(200, 200, 1, 1), Ok((200, 1)));
}

#[test]
fn shares_add_up() {
    for total in [0usize, 1, 7, 100, 10_001] {
        for n in [1usize, 2, 3, 50] {
            let parts = split(total, n);
            assert_eq!(sum_of(&parts), total);
            assert!(parts.iter().max().unwrap() - parts.iter().min().unwrap() <= 1);
        }
    }
    let holds = [0usize, 3, 9, 1, 0, 20];
    for total in [0usize, 1, 5, 17, 33, 90] {
        let parts = split_by(total, &holds);
        assert_eq!(sum_of(&parts), total.min(33));
        assert!(parts.iter().zip(&holds).all(|(p, h)| p <= h));
    }
    assert_eq!(split_by(5, &[0, 0]), vec![0, 0]);
    assert_eq!(split_by(5, &[]), Vec::<usize>::new());
    assert_eq!(split(3, 0), Vec::<usize>::new());
}

#[test]
fn threads_that_dial_dial_at_least_one_at_a_time() {
    assert_eq!(dial_shares(10, 2, 3), vec![(3, 1), (3, 1), (4, 1)]);
    assert_eq!(dial_shares(2, 2, 4), vec![(0, 0), (1, 1), (0, 0), (1, 1)]);
    assert_eq!(dial_shares(100, 20, 2), vec![(50, 10), (50, 10)]);
}

#[test]
fn what_follows_from_the_connections_there_are() {
    assert_eq!(echo_concurrency(10, 3), 3);
    assert_eq!(echo_concurrency(2, 3), 2);
    assert_eq!(warmup_times(7), 35);
    assert_eq!(warmup_times(399_999), 1_999_995);
    assert_eq!(warmup_times(400_000), 2_000_000);
    assert_eq!(warmup_times(5_000_000), 2_000_000);
    assert_eq!(tick_of(20), Duration::from_millis(50));
    assert_eq!(tick_of(3), Duration::from_nanos(333_333_333));
}
