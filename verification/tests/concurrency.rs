use std::time::{Duration, Instant};
use tsink::concurrency::{
    give_back, must_wait, take_permits, wait_for, Demand, Semaphore, Wait,
};
use tsink::error::TsinkError;

#[test]
fn test_semaphore() {
    let sem = Semaphore::new(2);

    let _guard1 = sem.acquire();
    assert_eq!(sem.available_permits(), 1);

    let _guard2 = sem.acquire();
    assert_eq!(sem.available_permits(), 0);

    assert!(sem.try_acquire().is_none());

    drop(_guard1);
    assert_eq!(sem.available_permits(), 1);
}

#[test]
fn semaphore_with_zero_permits_clamps_to_one() {
    let sem = Semaphore::new(0);
    assert_eq!(sem.capacity(), 1);
    assert_eq!(sem.available_permits(), 1);
}

#[test]
fn try_acquire_for_returns_timeout_when_no_permits_are_available() {
    let sem = Semaphore::new(1);
    let _held = sem.acquire();

    let result = sem.try_acquire_for(Duration::from_millis(10));
    assert!(matches!(
        result,
        Err(TsinkError::WriteTimeout { workers: 1, .. })
    ));
}

#[test]
fn try_acquire_for_zero_timeout_behaves_like_non_blocking_try() {
    let sem = Semaphore::new(1);
    let _held = sem.acquire();

    let result = sem.try_acquire_for(Duration::ZERO);
    assert!(matches!(
        result,
        Err(TsinkError::WriteTimeout {
            timeout_ms: 0,
            workers: 1
        })
    ));
}

#[test]
fn acquire_all_returns_all_permits_and_releases_on_drop() {
    let sem = Semaphore::new(3);
    let guards = sem.acquire_all(Duration::from_millis(20)).unwrap();

    assert_eq!(guards.len(), 3);
    assert_eq!(sem.available_permits(), 0);

    drop(guards);
    assert_eq!(sem.available_permits(), 3);
}

#[test]
fn acquire_all_times_out_if_any_permit_remains_unavailable() {
    let sem = Semaphore::new(2);
    let _held = sem.acquire();

    let result = sem.acquire_all(Duration::from_millis(10));
    assert!(matches!(
        result,
        Err(TsinkError::WriteTimeout { workers: 2, .. })
    ));
}

#[test]
fn a_timeout_is_reported_in_whole_milliseconds() {
    let sem = Semaphore::new(1);
    let _held = sem.acquire();
    let error = sem
        .try_acquire_for(Duration::from_micros(2_999))
        .err()
        .unwrap();
    assert!(matches!(
        error,
        TsinkError::WriteTimeout {
            timeout_ms: 2,
            workers: 1
        }
    ));
    assert_eq!(error.message(), "write timed out after 2 ms with 1 workers");
}

#[test]
fn a_refused_acquire_all_takes_no_permit() {
    let sem = Semaphore::new(3);
    let held = sem.acquire();
    assert!(sem.acquire_all(Duration::ZERO).is_err());
    assert_eq!(sem.available_permits(), 2);
    drop(held);
    let all = sem.acquire_all(Duration::ZERO).unwrap();
    assert_eq!(all.len(), 3);
    assert!(sem.try_acquire().is_none());
}

#[test]
fn a_permit_is_taken_without_waiting_when_one_is_there() {
    let sem = Semaphore::new(2);
    let first = sem.try_acquire_for(Duration::from_secs(60)).unwrap();
    let second = sem.try_acquire().unwrap();
    assert_eq!(sem.available_permits(), 0);
    drop(second);
    drop(first);
    assert_eq!(sem.available_permits(), 2);
}

#[test]
fn clones_share_their_permits() {
    let sem = Semaphore::new(1);
    let other = sem.clone();
    let held = other.acquire();
    assert!(sem.try_acquire().is_none());
    drop(held);
    assert!(sem.try_acquire().is_some());
}

#[test]
fn permits_are_counted_exactly() {
    assert_eq!(take_permits(3, Demand::One), Some(2));
    assert_eq!(take_permits(0, Demand::One), None);
    assert_eq!(take_permits(3, Demand::All { capacity: 3 }), Some(0));
    assert_eq!(take_permits(2, Demand::All { capacity: 3 }), None);
    assert!(must_wait(2, Demand::All { capacity: 3 }));
    assert!(!must_wait(1, Demand::One));
    assert_eq!(give_back(2, 3), 3);
    assert_eq!(give_back(3, 3), 3);
}

#[test]
fn a_timeout_sets_a_deadline_and_no_time_means_no_waiting() {
    let now = Instant::now();
    assert!(matches!(wait_for(now, Duration::ZERO), Wait::Not));
    match wait_for(now, Duration::from_millis(7)) {
        Wait::Until(deadline) => assert_eq!(deadline - now, Duration::from_millis(7)),
        _ => panic!("a deadline was due"),
    }
    assert!(matches!(wait_for(now, Duration::MAX), Wait::Forever));
}

#[test]
fn a_demand_is_refused_only_when_its_time_is_up() {
    let sem = Semaphore::new(2);
    let _held = sem.acquire();
    let start = Instant::now();
    assert!(sem.acquire_all(Duration::from_millis(30)).is_err());
    assert!(start.elapsed() >= Duration::from_millis(30));
    let _other = sem.acquire();
    let start = Instant::now();
    assert!(sem.try_acquire_for(Duration::from_millis(30)).is_err());
    assert!(start.elapsed() >= Duration::from_millis(30));
}
